//! The single-pass Pratt compiler: consumes tokens and emits bytecode
//! into a chunk, with panic-mode recovery after errors.
//!
//! Every emission appends a whole instruction, so the chunk stays
//! decodable at all times; on an error-free parse the emitted code is
//! stack-balanced and ends in a single `Return`.

use crate::chunk::chunk_exec_wf;
use crate::chunk::code_operands_ok;
use crate::chunk::constant_is_long;
use crate::chunk::decode;
use crate::chunk::encode_instr;
use crate::chunk::frag_safe;
use crate::chunk::instr_arity;
use crate::chunk::instr_net;
use crate::chunk::instr_operands_ok;
use crate::chunk::lemma_decode_append;
use crate::chunk::lemma_decode_encode;
use crate::chunk::lines_ok;
use crate::chunk::max_line;
use crate::chunk::net_sum;
use crate::chunk::opcode_byte;
use crate::chunk::opcode_to_byte;
use crate::chunk::Chunk;
use crate::chunk::Instr;
use crate::chunk::OpCode;
use crate::num;
use crate::scanner::spec_scan;
use crate::scanner::Scanner;
use crate::scanner::Token;
use crate::scanner::TokenKind;
use crate::value::Value;
use crate::value::ValueModel;
use crate::vm::InterpretError;
use vstd::prelude::*;

verus! {

#[derive(Clone, Copy, PartialEq, Eq, Structural)]
enum Precedence {
    Lowest,
    Assignment,
    Or,
    And,
    Equality,
    Comparison,
    Term,
    Factor,
    Unary,
    Call,
    Primary,
}

/// The numeric level of a precedence.
spec fn spec_prec(p: Precedence) -> u8 {
    match p {
        Precedence::Lowest => 0,
        Precedence::Assignment => 1,
        Precedence::Or => 2,
        Precedence::And => 3,
        Precedence::Equality => 4,
        Precedence::Comparison => 5,
        Precedence::Term => 6,
        Precedence::Factor => 7,
        Precedence::Unary => 8,
        Precedence::Call => 9,
        Precedence::Primary => 10,
    }
}

fn prec_level(p: Precedence) -> (v: u8)
    ensures
        v == spec_prec(p),
{
    match p {
        Precedence::Lowest => 0,
        Precedence::Assignment => 1,
        Precedence::Or => 2,
        Precedence::And => 3,
        Precedence::Equality => 4,
        Precedence::Comparison => 5,
        Precedence::Term => 6,
        Precedence::Factor => 7,
        Precedence::Unary => 8,
        Precedence::Call => 9,
        Precedence::Primary => 10,
    }
}

/// The next-higher precedence, for left associativity.
fn prec_above(p: Precedence) -> (q: Precedence)
    requires
        spec_prec(p) < 10,
    ensures
        spec_prec(q) == spec_prec(p) + 1,
{
    match p {
        Precedence::Lowest => Precedence::Assignment,
        Precedence::Assignment => Precedence::Or,
        Precedence::Or => Precedence::And,
        Precedence::And => Precedence::Equality,
        Precedence::Equality => Precedence::Comparison,
        Precedence::Comparison => Precedence::Term,
        Precedence::Term => Precedence::Factor,
        Precedence::Factor => Precedence::Unary,
        Precedence::Unary => Precedence::Call,
        Precedence::Call => Precedence::Primary,
        Precedence::Primary => Precedence::Primary,
    }
}

/// The infix binding power of a token kind; `Lowest` for tokens with
/// no infix rule.
spec fn spec_rule_precedence(kind: TokenKind) -> Precedence {
    match kind {
        TokenKind::Plus => Precedence::Term,
        TokenKind::Minus => Precedence::Term,
        TokenKind::Star => Precedence::Factor,
        TokenKind::Slash => Precedence::Factor,
        TokenKind::Percent => Precedence::Factor,
        TokenKind::BangEqual => Precedence::Equality,
        TokenKind::EqualEqual => Precedence::Equality,
        TokenKind::Greater => Precedence::Comparison,
        TokenKind::GreaterEqual => Precedence::Comparison,
        TokenKind::Less => Precedence::Comparison,
        TokenKind::LessEqual => Precedence::Comparison,
        _ => Precedence::Lowest,
    }
}

fn get_rule_precedence(token: &TokenKind) -> (p: Precedence)
    ensures
        p == spec_rule_precedence(*token),
{
    match token {
        TokenKind::Plus => Precedence::Term,
        TokenKind::Minus => Precedence::Term,
        TokenKind::Star => Precedence::Factor,
        TokenKind::Slash => Precedence::Factor,
        TokenKind::Percent => Precedence::Factor,
        TokenKind::BangEqual => Precedence::Equality,
        TokenKind::EqualEqual => Precedence::Equality,
        TokenKind::Greater => Precedence::Comparison,
        TokenKind::GreaterEqual => Precedence::Comparison,
        TokenKind::Less => Precedence::Comparison,
        TokenKind::LessEqual => Precedence::Comparison,
        _ => Precedence::Lowest,
    }
}

/// The decoded characters of a string literal body: a backslash
/// introduces one of the escapes `\n \r \t \\ \0 \' \"`; `\x` and `\u`
/// are reserved, everything else is unknown, and a trailing backslash
/// is incomplete.  Errors carry the diagnostic text.
pub open spec fn spec_unescape(s: Seq<char>) -> Result<Seq<char>, Seq<char>>
    decreases s.len(),
{
    if s.len() == 0 {
        Ok(Seq::empty())
    } else if s[0] != '\\' {
        match spec_unescape(s.skip(1)) {
            Ok(r) => Ok(seq![s[0]] + r),
            Err(e) => Err(e),
        }
    } else if s.len() == 1 {
        Err("unexpected end of string"@)
    } else {
        let e = s[1];
        if e == 'n' || e == 'r' || e == 't' || e == '\\' || e == '0' || e == '\'' || e == '"' {
            let c = if e == 'n' {
                '\n'
            } else if e == 'r' {
                '\r'
            } else if e == 't' {
                '\t'
            } else if e == '\\' {
                '\\'
            } else if e == '0' {
                '\0'
            } else if e == '\'' {
                '\''
            } else {
                '"'
            };
            match spec_unescape(s.skip(2)) {
                Ok(r) => Ok(seq![c] + r),
                Err(er) => Err(er),
            }
        } else if e == 'x' {
            Err("unimplemented string escape `\\x`"@)
        } else if e == 'u' {
            Err("unimplemented string escape `\\u`"@)
        } else {
            Err("unrecognized string escape"@)
        }
    }
}

/// Decodes the escapes of a string literal body.
pub fn parse_string(escaped_string: &str) -> (r: Result<String, &'static str>)
    ensures
        match r {
            Ok(out) => spec_unescape(escaped_string@) == Ok::<Seq<char>, Seq<char>>(out@),
            Err(m) => spec_unescape(escaped_string@) == Err::<Seq<char>, Seq<char>>(m@),
        },
{
    let ghost s = escaped_string@;
    let n = escaped_string.unicode_len();
    let mut out = String::new();
    let mut i: usize = 0;
    proof {
        assert(s.skip(0) =~= s);
        if spec_unescape(s) is Ok {
            assert(Seq::<char>::empty() + spec_unescape(s)->Ok_0 =~= spec_unescape(s)->Ok_0);
        }
    }
    while i < n
        invariant
            i <= n,
            n == s.len(),
            s == escaped_string@,
            spec_unescape(s) == (match spec_unescape(s.skip(i as int)) {
                Ok(r) => Ok::<Seq<char>, Seq<char>>(out@ + r),
                Err(e) => Err::<Seq<char>, Seq<char>>(e),
            }),
        decreases n - i,
    {
        let ghost i0 = i as int;
        let ghost out0 = out@;
        let c = escaped_string.get_char(i);
        if c != '\\' {
            num::push_char(&mut out, c);
            proof {
                assert(s.skip(i0).skip(1) =~= s.skip(i0 + 1));
                if spec_unescape(s.skip(i0 + 1)) is Ok {
                    let r = spec_unescape(s.skip(i0 + 1))->Ok_0;
                    assert(spec_unescape(s.skip(i0)) == Ok::<Seq<char>, Seq<char>>(
                        seq![s[i0]] + r,
                    ));
                    assert(out0 + (seq![s[i0]] + r) =~= out@ + r);
                }
            }
            i = i + 1;
        } else if i + 1 >= n {
            proof {
                assert(s.skip(i0).len() == 1);
                assert(s.skip(i0)[0] == '\\');
            }
            return Err("unexpected end of string");
        } else {
            proof {
                assert(s.skip(i0)[0] == '\\');
                assert(s.skip(i0)[1] == s[i0 + 1]);
                assert(s.skip(i0).len() >= 2);
            }
            let e = escaped_string.get_char(i + 1);
            let c2 = match e {
                'n' => '\n',
                'r' => '\r',
                't' => '\t',
                '\\' => '\\',
                '0' => '\0',
                '\'' => '\'',
                '"' => '"',
                'x' => {
                    return Err("unimplemented string escape `\\x`");
                },
                'u' => {
                    return Err("unimplemented string escape `\\u`");
                },
                _ => {
                    return Err("unrecognized string escape");
                },
            };
            num::push_char(&mut out, c2);
            proof {
                assert(s.skip(i0).skip(2) =~= s.skip(i0 + 2));
                if spec_unescape(s.skip(i0 + 2)) is Ok {
                    let r = spec_unescape(s.skip(i0 + 2))->Ok_0;
                    assert(spec_unescape(s.skip(i0)) == Ok::<Seq<char>, Seq<char>>(seq![c2] + r));
                    assert(out0 + (seq![c2] + r) =~= out@ + r);
                }
            }
            i = i + 2;
        }
    }
    proof {
        assert(s.skip(n as int) =~= Seq::<char>::empty());
        assert(spec_unescape(Seq::<char>::empty()) == Ok::<Seq<char>, Seq<char>>(
            Seq::<char>::empty(),
        ));
        assert(out@ + Seq::<char>::empty() =~= out@);
    }
    Ok(out)
}


} // verus!

verus! {

/// No instruction in the sequence halts execution; the compiler emits
/// the single `Return` only at the very end.
pub open spec fn no_return(instrs: Seq<Instr>) -> bool {
    forall|k: int| 0 <= k < instrs.len() ==> !((#[trigger] instrs[k]) is Return)
}

/// `b` extends `a` without changing what is already there.
pub open spec fn seq_extends<T>(a: Seq<T>, b: Seq<T>) -> bool {
    a.len() <= b.len() && forall|k: int| 0 <= k < a.len() ==> a[k] == #[trigger] b[k]
}

/// The diagnostic line for one compile error.
pub open spec fn error_report(
    kind: TokenKind,
    span: Seq<char>,
    line: nat,
    msg: Seq<char>,
) -> Seq<char> {
    "[line "@ + num::dec_digits(line) + "] Error"@ + (if kind == TokenKind::Eof {
        " at end"@
    } else if kind == TokenKind::UnterminatedString || kind == TokenKind::UnexpectedCharacter {
        Seq::<char>::empty()
    } else {
        " at `"@ + span + "`"@
    }) + ": "@ + msg
}

struct Parser<'a> {
    scanner: Scanner<'a>,
    current: Option<Token<'a>>,
    previous: Option<Token<'a>>,
    had_error: bool,
    panic_mode: bool,
    chunk: Chunk,
    diagnostics: Vec<String>,
}

impl<'a> Parser<'a> {
    spec fn decoded(&self) -> Seq<Instr> {
        decode(self.chunk@.code)->Some_0
    }

    spec fn consts(&self) -> Seq<ValueModel> {
        self.chunk@.constants
    }

    spec fn prev_line(&self) -> usize {
        if self.previous is Some {
            self.previous->0.line
        } else {
            0
        }
    }

    /// Work left: characters the scanner has not consumed, plus one
    /// while the lookahead is not yet `Eof`.
    spec fn measure(&self) -> int {
        self.scanner.spec_source().len() - self.scanner.spec_current() + (if self.current is Some
            && self.current->0.kind == TokenKind::Eof {
            0int
        } else {
            1int
        })
    }

    spec fn wf(&self) -> bool {
        &&& self.scanner.wf()
        &&& lines_ok(self.chunk@)
        &&& decode(self.chunk@.code) is Some
        &&& code_operands_ok(self.decoded(), self.consts())
        &&& max_line(self.chunk@) <= self.prev_line()
        &&& (self.current is Some ==> self.current->0.line <= self.scanner.spec_line())
        &&& (self.previous is Some ==> self.previous->0.line <= self.scanner.spec_line())
        &&& (self.current is Some && self.previous is Some ==> self.previous->0.line
            <= self.current->0.line)
        &&& (self.current is Some && self.current->0.kind == TokenKind::Eof
            ==> self.scanner.spec_current() == self.scanner.spec_source().len())
        &&& (self.current is None ==> self.previous is None && self.chunk@.lines.len() == 0)
        &&& (self.panic_mode ==> self.had_error)
        &&& (self.had_error <==> self.diagnostics@.len() > 0)
        &&& (self.previous is Some && self.previous->0.kind == TokenKind::String
            ==> self.previous->0.span@.len() >= 2)
        &&& (self.current is Some && self.current->0.kind == TokenKind::String
            ==> self.current->0.span@.len() >= 2)
    }

    fn new(scanner: Scanner<'a>) -> (p: Parser<'a>)
        requires
            scanner.wf(),
        ensures
            p.wf(),
            p.scanner == scanner,
            p.current is None,
            p.previous is None,
            !p.had_error,
            !p.panic_mode,
            p.chunk@.code == Seq::<u8>::empty(),
            p.consts() == Seq::<ValueModel>::empty(),
            p.chunk@.lines == Seq::<(usize, usize)>::empty(),
            p.diagnostics@ == Seq::<String>::empty(),
    {
        Parser {
            scanner,
            current: None,
            previous: None,
            had_error: false,
            panic_mode: false,
            chunk: Chunk::default(),
            diagnostics: Vec::new(),
        }
    }

    /// Reports a diagnostic for a token, unless panic mode already
    /// swallowed this statement's diagnostics.
    fn report_error_at(&mut self, token: Token<'a>, message: &'static str)
        ensures
            final(self).scanner == old(self).scanner,
            final(self).scanner.spec_source() == old(self).scanner.spec_source(),
            final(self).scanner.spec_current() == old(self).scanner.spec_current(),
            final(self).scanner.spec_line() == old(self).scanner.spec_line(),
            final(self).scanner.spec_start() == old(self).scanner.spec_start(),
            final(self).scanner.wf() == old(self).scanner.wf(),
            final(self).current == old(self).current,
            final(self).previous == old(self).previous,
            final(self).chunk == old(self).chunk,
            final(self).panic_mode,
            final(self).had_error == (old(self).had_error || !old(self).panic_mode),
            old(self).panic_mode ==> final(self).diagnostics == old(self).diagnostics,
            !old(self).panic_mode ==> final(self).diagnostics@.len() == old(
                self
            ).diagnostics@.len() + 1 && final(self).diagnostics@.take(
                old(self).diagnostics@.len() as int,
            ) == old(self).diagnostics@ && final(self).diagnostics@.last()@ == error_report(
                token.kind,
                token.span@,
                token.line as nat,
                message@,
            ),
            final(self).pst() == sp_report(
                old(self).pst(),
                SToken { kind: token.kind, span: token.span@, line: token.line as nat },
                message@,
            ),
    {
        if self.panic_mode {
            return ;
        }

        self.panic_mode = true;

        let mut msg = String::from_str("[line ");
        let digits = num::u64_to_dec(token.line as u64);
        msg.append(digits.as_str());
        msg.append("] Error");

        match token.kind {
            TokenKind::UnterminatedString | TokenKind::UnexpectedCharacter => {},
            TokenKind::Eof => {
                msg.append(" at end");
            },
            _ => {
                msg.append(" at `");
                msg.append(token.span);
                msg.append("`");
            },
        }

        msg.append(": ");
        msg.append(message);

        proof {
            assert(msg@ =~= error_report(token.kind, token.span@, token.line as nat, message@));
        }
        let ghost d0 = self.diagnostics@;
        self.diagnostics.push(msg);
        proof {
            assert(self.diagnostics@.take(d0.len() as int) =~= d0);
            assert(Seq::new(self.diagnostics@.len() as nat, |i: int| self.diagnostics@[i]@)
                =~= Seq::new(d0.len() as nat, |i: int| d0[i]@).push(msg@));
        }
        self.had_error = true;
    }

    fn report_error_at_current(&mut self, message: &'static str)
        requires
            old(self).current is Some,
        ensures
            final(self).scanner == old(self).scanner,
            final(self).scanner.spec_source() == old(self).scanner.spec_source(),
            final(self).scanner.spec_current() == old(self).scanner.spec_current(),
            final(self).scanner.spec_line() == old(self).scanner.spec_line(),
            final(self).scanner.spec_start() == old(self).scanner.spec_start(),
            final(self).scanner.wf() == old(self).scanner.wf(),
            final(self).current == old(self).current,
            final(self).previous == old(self).previous,
            final(self).chunk == old(self).chunk,
            final(self).panic_mode,
            final(self).had_error == (old(self).had_error || !old(self).panic_mode),
            old(self).panic_mode ==> final(self).diagnostics == old(self).diagnostics,
            !old(self).panic_mode ==> final(self).diagnostics@.len() == old(
                self
            ).diagnostics@.len() + 1,
            final(self).pst() == sp_report(
                old(self).pst(),
                old(self).pst().cur->0,
                message@,
            ),
    {
        let token = match self.current {
            Some(t) => t,
            None => {
                proof {
                    assert(false);
                }
                return ;
            },
        };
        self.report_error_at(token, message)
    }

    fn report_error_at_previous(&mut self, message: &'static str)
        requires
            old(self).previous is Some,
        ensures
            final(self).scanner == old(self).scanner,
            final(self).scanner.spec_source() == old(self).scanner.spec_source(),
            final(self).scanner.spec_current() == old(self).scanner.spec_current(),
            final(self).scanner.spec_line() == old(self).scanner.spec_line(),
            final(self).scanner.spec_start() == old(self).scanner.spec_start(),
            final(self).scanner.wf() == old(self).scanner.wf(),
            final(self).current == old(self).current,
            final(self).previous == old(self).previous,
            final(self).chunk == old(self).chunk,
            final(self).panic_mode,
            final(self).had_error == (old(self).had_error || !old(self).panic_mode),
            old(self).panic_mode ==> final(self).diagnostics == old(self).diagnostics,
            !old(self).panic_mode ==> final(self).diagnostics@.len() == old(
                self
            ).diagnostics@.len() + 1,
            final(self).pst() == sp_report(
                old(self).pst(),
                old(self).pst().prev->0,
                message@,
            ),
    {
        let token = match self.previous {
            Some(t) => t,
            None => {
                proof {
                    assert(false);
                }
                return ;
            },
        };
        self.report_error_at(token, message)
    }

    /// Moves the lookahead one token on, reporting and skipping the
    /// scanner's error tokens.
    fn advance(&mut self)
        requires
            old(self).wf(),
        ensures
            final(self).wf(),
            final(self).previous == old(self).current,
            final(self).current is Some,
            final(self).current->0.kind != TokenKind::UnterminatedString,
            final(self).current->0.kind != TokenKind::UnexpectedCharacter,
            final(self).chunk == old(self).chunk,
            old(self).had_error ==> final(self).had_error,
            final(self).measure() <= old(self).measure(),
            (old(self).current is Some && old(self).current->0.kind == TokenKind::Eof) ==> (final(
                self
            ).measure() == old(self).measure() && final(self).current->0.kind == TokenKind::Eof),
            !(old(self).current is Some && old(self).current->0.kind == TokenKind::Eof) ==> final(
                self
            ).measure() < old(self).measure(),
            ({
                let sc = spec_scan(
                    old(self).scanner.spec_source(),
                    old(self).scanner.spec_current(),
                    old(self).scanner.spec_line(),
                );
                (sc.kind != TokenKind::UnterminatedString && sc.kind
                    != TokenKind::UnexpectedCharacter) ==> (final(self).had_error == old(
                    self
                ).had_error && final(self).panic_mode == old(self).panic_mode && final(
                    self
                ).diagnostics == old(self).diagnostics && final(self).current->0.kind == sc.kind)
            }),
            final(self).scanner.spec_source() == old(self).scanner.spec_source(),
            final(self).pst() == sp_advance(old(self).scanner.spec_source(), old(self).pst()),
    {
        let ghost src = self.scanner.spec_source();
        let ghost cur0 = self.scanner.spec_current();
        let ghost line0 = self.scanner.spec_line();
        let ghost first_scan = spec_scan(src, cur0, line0);
        let ghost eof0 = self.current is Some && self.current->0.kind == TokenKind::Eof;
        let ghost pst0 = self.pst();

        self.previous = self.current;

        let mut t = self.scanner.scan_token();
        self.current = Some(t);
        let mut fuel: usize = self.scanner.remaining() + 1;
        let ghost st1 = self.pst();
        let ghost fuel0 = fuel as int;
        proof {
            assert(st1 == sp_read(src, PState { prev: pst0.cur, ..pst0 }));
        }

        while (t.kind == TokenKind::UnterminatedString || t.kind
            == TokenKind::UnexpectedCharacter) && fuel > 0
            invariant
                self.wf(),
                self.previous == old(self).current,
                self.chunk == old(self).chunk,
                self.scanner.spec_source() == src,
                old(self).had_error ==> self.had_error,
                self.current is Some && self.current->0 == t,
                self.scanner.spec_current() >= cur0,
                self.scanner.spec_current() <= src.len(),
                t.kind == TokenKind::Eof ==> self.scanner.spec_current() == src.len(),
                (t.kind == TokenKind::UnterminatedString || t.kind
                    == TokenKind::UnexpectedCharacter) ==> (self.scanner.spec_current() > cur0
                    && fuel >= src.len() - self.scanner.spec_current() + 1),
                (self.had_error == old(self).had_error && self.panic_mode == old(self).panic_mode
                    && self.diagnostics == old(self).diagnostics && t.kind == first_scan.kind
                    && self.scanner.spec_current() == first_scan.end && self.scanner.spec_line()
                    == first_scan.line) || (self.scanner.spec_current() > cur0 && (first_scan.kind
                    == TokenKind::UnterminatedString || first_scan.kind
                    == TokenKind::UnexpectedCharacter)),
                sp_skip_errs(src, self.pst(), fuel as int) == sp_skip_errs(src, st1, fuel0),
            decreases fuel,
        {
            let ghost st_b = self.pst();
            let ghost fuel_b = fuel as int;
            if t.kind == TokenKind::UnterminatedString {
                self.report_error_at_current("unterminated string");
                proof {
                    assert(self.pst() == sp_report(st_b, st_b.cur->0, "unterminated string"@));
                }
            } else {
                self.report_error_at_current("unexpected character");
                proof {
                    assert(self.pst() == sp_report(st_b, st_b.cur->0, "unexpected character"@));
                }
            }
            let ghost st_r = self.pst();
            t = self.scanner.scan_token();
            self.current = Some(t);
            fuel = fuel - 1;
            proof {
                assert(self.pst() == sp_read(src, st_r));
                assert(sp_skip_errs(src, st_b, fuel_b) == sp_skip_errs(src, self.pst(), fuel_b
                    - 1));
            }
        }
        proof {
            assert(!(t.kind == TokenKind::UnterminatedString || t.kind
                == TokenKind::UnexpectedCharacter));
            if eof0 {
                assert(cur0 == src.len());
                assert(first_scan.kind == TokenKind::Eof);
            }
            assert(sp_skip_errs(src, self.pst(), fuel as int) == self.pst());
            assert(self.pst() == sp_advance(src, pst0));
        }
    }

    fn check(&self, kind: TokenKind) -> (r: bool)
        ensures
            r == (self.current is Some && self.current->0.kind == kind),
    {
        match &self.current {
            Some(t) => t.kind == kind,
            None => false,
        }
    }
}

} // verus!


verus! {

/// The one-byte instruction an opcode stands for, if it is one.
pub open spec fn simple_instr(op: OpCode) -> Option<Instr> {
    match op {
        OpCode::Nil => Some(Instr::Nil),
        OpCode::True => Some(Instr::True),
        OpCode::False => Some(Instr::False),
        OpCode::Pop => Some(Instr::Pop),
        OpCode::Equal => Some(Instr::Equal),
        OpCode::Greater => Some(Instr::Greater),
        OpCode::Less => Some(Instr::Less),
        OpCode::Add => Some(Instr::Add),
        OpCode::Subtract => Some(Instr::Subtract),
        OpCode::Multiply => Some(Instr::Multiply),
        OpCode::Divide => Some(Instr::Divide),
        OpCode::Remainder => Some(Instr::Remainder),
        OpCode::Not => Some(Instr::Not),
        OpCode::Negate => Some(Instr::Negate),
        OpCode::Print => Some(Instr::Print),
        OpCode::Return => Some(Instr::Return),
        _ => None,
    }
}

/// The constant-addressed instruction for a short-form opcode.
pub open spec fn id_instr(short: OpCode, id: u32, long: bool) -> Option<Instr> {
    match short {
        OpCode::Constant => Some(Instr::Constant { id, long }),
        OpCode::GetGlobal => Some(Instr::GetGlobal { id, long }),
        OpCode::DefineGlobal => Some(Instr::DefineGlobal { id, long }),
        OpCode::SetGlobal => Some(Instr::SetGlobal { id, long }),
        _ => None,
    }
}

impl<'a> Parser<'a> {
    /// What all emission helpers guarantee: only the chunk changed, by
    /// appending code and possibly constants.
    spec fn emit_frame(pre: Self, post: Self) -> bool {
        &&& post.wf()
        &&& post.scanner == pre.scanner
        &&& post.current == pre.current
        &&& post.previous == pre.previous
        &&& post.had_error == pre.had_error
        &&& post.panic_mode == pre.panic_mode
        &&& post.diagnostics == pre.diagnostics
        &&& post.measure() == pre.measure()
        &&& decode(post.chunk@.code) is Some
    }

    fn previous_line(&self) -> (line: usize)
        requires
            self.previous is Some,
        ensures
            line == self.prev_line(),
    {
        match &self.previous {
            Some(t) => t.line,
            None => {
                proof {
                    assert(false);
                }
                0
            },
        }
    }

    /// Emits one operand-less instruction.
    fn emit_simple(&mut self, op: OpCode)
        requires
            old(self).wf(),
            old(self).previous is Some,
            simple_instr(op) is Some,
        ensures
            Self::emit_frame(*old(self), *final(self)),
            final(self).consts() == old(self).consts(),
            final(self).decoded() == old(self).decoded().push(simple_instr(op)->0),
            final(self).chunk@.code == old(self).chunk@.code + encode_instr(simple_instr(op)->0),
            final(self).scanner.spec_source() == old(self).scanner.spec_source(),
            final(self).pst() == sp_push_instr(old(self).pst(), simple_instr(op)->0),
    {
        let ghost i = simple_instr(op)->0;
        let ghost code0 = self.chunk@.code;
        proof {
            lemma_decode_encode(i);
            lemma_decode_append(code0, encode_instr(i));
        }
        let line = self.previous_line();
        self.chunk.write(opcode_to_byte(op), line);
        proof {
            assert(self.chunk@.code =~= code0 + encode_instr(i));
            assert(self.decoded() =~= old(self).decoded().push(i));
            assert forall|k: int| 0 <= k < self.decoded().len() implies instr_operands_ok(
                #[trigger] self.decoded()[k],
                self.consts(),
            ) by {
                if k < old(self).decoded().len() {
                    assert(instr_operands_ok(old(self).decoded()[k], old(self).consts()));
                }
            }
        }
    }

    /// Emits one constant-addressed instruction, in the short or the
    /// big-endian long form as the id demands.
    fn emit_id_instr(&mut self, short: OpCode, id: usize)
        requires
            old(self).wf(),
            old(self).previous is Some,
            id <= 0xffffff,
            id_instr(short, id as u32, id > 0xff) is Some,
            instr_operands_ok(id_instr(short, id as u32, id > 0xff)->0, old(self).consts()),
        ensures
            Self::emit_frame(*old(self), *final(self)),
            final(self).consts() == old(self).consts(),
            final(self).decoded() == old(self).decoded().push(
                id_instr(short, id as u32, id > 0xff)->0,
            ),
            final(self).scanner.spec_source() == old(self).scanner.spec_source(),
            final(self).pst() == sp_push_instr(old(self).pst(), id_instr(short, id as u32, id > 0xff)->0),
    {
        let ghost i = id_instr(short, id as u32, id > 0xff)->0;
        let ghost code0 = self.chunk@.code;
        proof {
            lemma_decode_encode(i);
            lemma_decode_append(code0, encode_instr(i));
        }
        let line = self.previous_line();
        let long_op = match short {
            OpCode::Constant => OpCode::LongConstant,
            OpCode::GetGlobal => OpCode::GetLongGlobal,
            OpCode::DefineGlobal => OpCode::DefineLongGlobal,
            OpCode::SetGlobal => OpCode::SetLongGlobal,
            _ => {
                proof {
                    assert(false);
                }
                OpCode::LongConstant
            },
        };
        if constant_is_long(id) {
            let id32 = id as u32;
            self.chunk.write(opcode_to_byte(long_op), line);
            self.chunk.write(((id32 >> 16) & 0xff) as u8, line);
            self.chunk.write(((id32 >> 8) & 0xff) as u8, line);
            self.chunk.write((id32 & 0xff) as u8, line);
        } else {
            self.chunk.write(opcode_to_byte(short), line);
            self.chunk.write(id as u8, line);
        }
        proof {
            assert(self.chunk@.code =~= code0 + encode_instr(i));
            assert(self.decoded() =~= old(self).decoded().push(i));
            assert forall|k: int| 0 <= k < self.decoded().len() implies instr_operands_ok(
                #[trigger] self.decoded()[k],
                self.consts(),
            ) by {
                if k < old(self).decoded().len() {
                    assert(instr_operands_ok(old(self).decoded()[k], old(self).consts()));
                }
            }
        }
    }

    /// Adds a value to the constant pool and emits the push of it; ids
    /// from 2^24 up are rejected with a compile error.
    fn emit_constant(&mut self, value: Value)
        requires
            old(self).wf(),
            old(self).previous is Some,
        ensures
            final(self).wf(),
            final(self).scanner == old(self).scanner,
            final(self).current == old(self).current,
            final(self).previous == old(self).previous,
            final(self).measure() == old(self).measure(),
            old(self).had_error ==> final(self).had_error,
            seq_extends(old(self).consts(), final(self).consts()),
            old(self).consts().len() < 0x1000000 ==> (final(self).had_error == old(
                self
            ).had_error && final(self).panic_mode == old(self).panic_mode && final(
                self
            ).diagnostics == old(self).diagnostics && final(self).consts() == old(
                self
            ).consts().push(value@) && final(self).decoded() == old(self).decoded().push(
                Instr::Constant {
                    id: old(self).consts().len() as u32,
                    long: old(self).consts().len() > 0xff,
                },
            )),
            old(self).consts().len() >= 0x1000000 ==> (final(self).chunk == old(self).chunk
                && final(self).had_error && final(self).panic_mode),
            final(self).scanner.spec_source() == old(self).scanner.spec_source(),
            final(self).pst() == sp_emit_constant(old(self).pst(), value@),
    {
        let n = self.chunk.constants_count();
        if n >= 0x1000000 {
            self.report_error_at_previous("reached constant limit fo 2^24");
            return ;
        }
        let ghost code0 = self.chunk@.code;
        let ghost i = Instr::Constant { id: n as u32, long: n > 0xff };
        proof {
            lemma_decode_encode(i);
            lemma_decode_append(code0, encode_instr(i));
        }
        let line = self.previous_line();
        self.chunk.write_constant(value, line);
        proof {
            assert(self.decoded() =~= old(self).decoded().push(i));
            assert forall|k: int| 0 <= k < self.decoded().len() implies instr_operands_ok(
                #[trigger] self.decoded()[k],
                self.consts(),
            ) by {
                if k < old(self).decoded().len() {
                    assert(instr_operands_ok(old(self).decoded()[k], old(self).consts()));
                }
            }
        }
    }

    /// Records an identifier's name as a string constant; the id
    /// addresses the global.
    fn identifier_constant(&mut self, token: Token<'a>) -> (id: usize)
        requires
            old(self).wf(),
        ensures
            final(self).wf(),
            final(self).scanner == old(self).scanner,
            final(self).current == old(self).current,
            final(self).previous == old(self).previous,
            final(self).had_error == old(self).had_error,
            final(self).panic_mode == old(self).panic_mode,
            final(self).diagnostics == old(self).diagnostics,
            final(self).measure() == old(self).measure(),
            final(self).decoded() == old(self).decoded(),
            final(self).chunk@.code == old(self).chunk@.code,
            final(self).chunk@.lines == old(self).chunk@.lines,
            final(self).consts() == old(self).consts().push(ValueModel::Str(token.span@)),
            id == old(self).consts().len(),
            final(self).scanner.spec_source() == old(self).scanner.spec_source(),
            final(self).pst() == (PState {
                consts: old(self).pst().consts.push(ValueModel::Str(token.span@)),
                ..old(self).pst()
            }),
    {
        let name = String::from_str(token.span);
        self.chunk.add_constant(Value::of_string(name))
    }
}

} // verus!

verus! {

impl<'a> Parser<'a> {
    /// What every parse function guarantees: the chunk grows by a
    /// decodable fragment which, on an error-free parse, has net stack
    /// effect `net` and runs safely from height `h`.
    spec fn parse_post(pre: Self, post: Self, net: int, h: int) -> bool {
        &&& post.wf()
        &&& post.current is Some
        &&& post.previous is Some
        &&& post.measure() <= pre.measure()
        &&& (pre.had_error ==> post.had_error)
        &&& seq_extends(pre.consts(), post.consts())
        &&& post.decoded().len() >= pre.decoded().len()
        &&& post.decoded().take(pre.decoded().len() as int) == pre.decoded()
        &&& (no_return(pre.decoded()) ==> no_return(post.decoded()))
        &&& (!post.had_error ==> net_sum(post.decoded().skip(pre.decoded().len() as int)) == net
            && frag_safe(post.decoded().skip(pre.decoded().len() as int), h))
    }
}

/// Chaining two parse steps adds their net effects.
proof fn lemma_post_trans(a: Parser, b: Parser, c: Parser, n1: int, n2: int, h1: int, h2: int)
    requires
        Parser::parse_post(a, b, n1, h1),
        Parser::parse_post(b, c, n2, h2),
        h2 <= h1 + n1,
    ensures
        Parser::parse_post(a, c, n1 + n2, h1),
{
    let la = a.decoded().len() as int;
    let lb = b.decoded().len() as int;
    let f1 = b.decoded().skip(la);
    let f2 = c.decoded().skip(lb);
    assert(c.decoded().take(la) =~= a.decoded()) by {
        assert(forall|k: int| 0 <= k < lb ==> c.decoded()[k] == #[trigger] b.decoded()[k]) by {
            assert(forall|k: int|
                0 <= k < lb ==> #[trigger] c.decoded().take(lb)[k] == c.decoded()[k]);
        }
        assert(forall|k: int| 0 <= k < la ==> b.decoded()[k] == #[trigger] a.decoded()[k]) by {
            assert(forall|k: int|
                0 <= k < la ==> #[trigger] b.decoded().take(la)[k] == b.decoded()[k]);
        }
    }
    assert(c.decoded().skip(la) =~= f1 + f2) by {
        assert(forall|k: int| 0 <= k < lb ==> c.decoded()[k] == #[trigger] b.decoded()[k]) by {
            assert(forall|k: int|
                0 <= k < lb ==> #[trigger] c.decoded().take(lb)[k] == c.decoded()[k]);
        }
    }
    assert(seq_extends(a.consts(), c.consts()));
    if !c.had_error {
        assert(!b.had_error);
        crate::chunk::lemma_net_sum_append(f1, f2);
        crate::chunk::lemma_frag_safe_mono(f2, h2, h1 + net_sum(f1));
        crate::chunk::lemma_frag_safe_append(f1, f2, h1);
    }
}

/// One emitted instruction is a parse step of its own net effect.
proof fn lemma_post_single(b: Parser, c: Parser, i: Instr, h: int)
    requires
        c.wf(),
        c.current == b.current,
        c.previous == b.previous,
        b.current is Some,
        b.previous is Some,
        c.measure() == b.measure(),
        c.had_error == b.had_error,
        seq_extends(b.consts(), c.consts()),
        c.decoded() == b.decoded().push(i),
        instr_arity(i) <= h,
        !(i is Return),
    ensures
        Parser::parse_post(b, c, instr_net(i), h),
{
    let lb = b.decoded().len() as int;
    assert(c.decoded().take(lb) =~= b.decoded());
    assert(c.decoded().skip(lb) =~= seq![i]);
    assert(seq![i].skip(1) =~= Seq::<Instr>::empty());
    assert(net_sum(Seq::<Instr>::empty()) == 0);
    assert(frag_safe(Seq::<Instr>::empty(), h + instr_net(i)));
    assert(net_sum(seq![i]) == instr_net(i));
    assert(frag_safe(seq![i], h));
    assert(no_return(b.decoded()) ==> no_return(c.decoded())) by {
        if no_return(b.decoded()) {
            assert(forall|k: int|
                0 <= k < c.decoded().len() ==> !((#[trigger] c.decoded()[k]) is Return)) by {
                assert(forall|k: int| 0 <= k < lb ==> c.decoded()[k] == b.decoded()[k]);
            }
        }
    }
}

/// A step that leaves the chunk alone is a parse step of net 0.
proof fn lemma_post_stay(a: Parser, b: Parser, h: int)
    requires
        b.wf(),
        b.current is Some,
        b.previous is Some,
        b.measure() <= a.measure(),
        a.had_error ==> b.had_error,
        b.decoded() == a.decoded(),
        seq_extends(a.consts(), b.consts()),
    ensures
        Parser::parse_post(a, b, 0, h),
{
    let la = a.decoded().len() as int;
    assert(b.decoded().take(la) =~= a.decoded());
    assert(b.decoded().skip(la) =~= Seq::<Instr>::empty());
}

impl<'a> Parser<'a> {
    /// Consumes the lookahead when it has the wanted kind.
    fn check_advance(&mut self, kind: TokenKind) -> (r: bool)
        requires
            old(self).wf(),
            old(self).current is Some,
        ensures
            final(self).wf(),
            final(self).chunk == old(self).chunk,
            final(self).current is Some,
            r == (old(self).current->0.kind == kind),
            old(self).had_error ==> final(self).had_error,
            final(self).measure() <= old(self).measure(),
            r ==> final(self).previous == old(self).current,
            (r && kind != TokenKind::Eof) ==> final(self).measure() < old(self).measure(),
            !r ==> *final(self) == *old(self),
            final(self).scanner.spec_source() == old(self).scanner.spec_source(),
            final(self).pst() == sp_check_advance(
                old(self).scanner.spec_source(),
                old(self).pst(),
                kind,
            ),
    {
        if !self.check(kind) {
            false
        } else {
            self.advance();
            true
        }
    }

    /// Consumes a token of the wanted kind, or reports the message at
    /// the lookahead.
    fn consume(&mut self, kind: TokenKind, message: &'static str)
        requires
            old(self).wf(),
            old(self).current is Some,
        ensures
            final(self).wf(),
            final(self).chunk == old(self).chunk,
            final(self).current is Some,
            old(self).had_error ==> final(self).had_error,
            final(self).measure() <= old(self).measure(),
            final(self).previous is Some <==> (old(self).current->0.kind == kind || old(
                self
            ).previous is Some),
            (old(self).current->0.kind == kind && kind == TokenKind::Eof) ==> (final(
                self
            ).had_error == old(self).had_error && final(self).panic_mode == old(self).panic_mode
                && final(self).diagnostics == old(self).diagnostics && final(self).previous == old(
                self
            ).current),
            old(self).current->0.kind != kind ==> (final(self).had_error == (old(self).had_error
                || !old(self).panic_mode) && final(self).panic_mode && final(self).current == old(
                self
            ).current && final(self).previous == old(self).previous && final(self).measure()
                == old(self).measure()),
            final(self).scanner.spec_source() == old(self).scanner.spec_source(),
            final(self).pst() == sp_consume(
                old(self).scanner.spec_source(),
                old(self).pst(),
                kind,
                message@,
            ),
    {
        let matched = match &self.current {
            Some(t) => t.kind == kind,
            None => false,
        };
        if matched {
            proof {
                if kind == TokenKind::Eof {
                    assert(self.scanner.spec_current() == self.scanner.spec_source().len());
                    assert(spec_scan(
                        self.scanner.spec_source(),
                        self.scanner.spec_current(),
                        self.scanner.spec_line(),
                    ).kind == TokenKind::Eof);
                }
            }
            self.advance();
            return ;
        }

        self.report_error_at_current(message);
    }

    /// Panic-mode recovery: discards tokens until a statement boundary.
    fn synchronize(&mut self)
        requires
            old(self).wf(),
            old(self).current is Some,
        ensures
            final(self).wf(),
            final(self).chunk == old(self).chunk,
            final(self).current is Some,
            old(self).previous is Some ==> final(self).previous is Some,
            old(self).had_error ==> final(self).had_error,
            final(self).measure() <= old(self).measure(),
            final(self).scanner.spec_source() == old(self).scanner.spec_source(),
            final(self).pst() == sp_synchronize(old(self).scanner.spec_source(), old(self).pst()),
    {
        let ghost src = self.scanner.spec_source();
        self.panic_mode = false;
        let ghost stq = self.pst();

        proof {
            self.scanner.lemma_wf_bounds();
        }
        let mut fuel: usize = self.scanner.remaining() + 1;
        let ghost fuel0 = fuel as int;
        loop
            invariant
                self.wf(),
                self.chunk == old(self).chunk,
                self.current is Some,
                old(self).previous is Some ==> self.previous is Some,
                old(self).had_error ==> self.had_error,
                self.measure() <= old(self).measure(),
                fuel >= self.measure(),
                self.measure() >= 0,
                self.scanner.spec_source() == src,
                sp_sync_loop(src, self.pst(), fuel as int) == sp_sync_loop(src, stq, fuel0),
            ensures
                self.wf(),
                self.chunk == old(self).chunk,
                self.current is Some,
                old(self).previous is Some ==> self.previous is Some,
                old(self).had_error ==> self.had_error,
                self.measure() <= old(self).measure(),
                self.scanner.spec_source() == src,
                sp_sync_loop(src, self.pst(), fuel as int) == sp_sync_loop(src, stq, fuel0),
                self.pst() == sp_sync_loop(src, self.pst(), fuel as int),
            decreases fuel,
        {
            let kind = match &self.current {
                Some(t) => t.kind,
                None => {
                    proof {
                        assert(false);
                    }
                    TokenKind::Eof
                },
            };
            match kind {
                TokenKind::Class | TokenKind::Fun | TokenKind::Var | TokenKind::For
                    | TokenKind::If | TokenKind::While | TokenKind::Print | TokenKind::Return
                    | TokenKind::Eof => {
                    break;
                },
                _ => {
                    let ghost st_b = self.pst();
                    let ghost fuel_b = fuel as int;
                    proof {
                        self.scanner.lemma_wf_bounds();
                        assert(fuel >= 1);
                    }
                    self.advance();
                    proof {
                        self.scanner.lemma_wf_bounds();
                    }
                    fuel = fuel - 1;
                    proof {
                        assert(sp_sync_loop(src, st_b, fuel_b) == sp_sync_loop(
                            src,
                            self.pst(),
                            fuel_b - 1,
                        ));
                    }
                },
            }
        }
        proof {
            assert(self.pst() == sp_sync_loop(src, stq, fuel0));
            assert(self.pst() == sp_synchronize(src, old(self).pst()));
        }
    }
}

} // verus!

verus! {

impl<'a> Parser<'a> {
    /// The measure, computed at run time to refill recursion fuel.
    fn exec_measure(&self) -> (m: u128)
        requires
            self.wf(),
        ensures
            m as int == self.measure(),
    {
        proof {
            self.scanner.lemma_wf_bounds();
        }
        let r = self.scanner.remaining();
        if self.check(TokenKind::Eof) {
            r as u128
        } else {
            (r as u128) + 1
        }
    }

    /// Parses an expression at or above a binding power.  `fuel` pays
    /// for the grammar recursion; it is ample whenever the callers'
    /// margin holds.
    fn parse_precedence(&mut self, precedence: Precedence, fuel: u128)
        requires
            old(self).wf(),
            old(self).current is Some,
            spec_prec(precedence) >= 1,
            fuel as int >= 8 * old(self).measure() + 1,
        ensures
            Self::parse_post(*old(self), *final(self), 1, 0),
            (old(self).current->0.kind != TokenKind::Eof) ==> final(self).measure() < old(
                self
            ).measure(),
            final(self).scanner.spec_source() == old(self).scanner.spec_source(),
            final(self).pst() == sp_parse_precedence(
                old(self).scanner.spec_source(),
                old(self).pst(),
                spec_prec(precedence) as int,
                fuel as int,
            ),
        decreases fuel,
    {
        proof {
            old(self).scanner.lemma_wf_bounds();
        }
        let ghost pre = *old(self);
        let ghost src = self.scanner.spec_source();
        let ghost prec_i = spec_prec(precedence) as int;
        self.advance();
        let ghost after_adv = *self;

        let prev_kind = match &self.previous {
            Some(t) => t.kind,
            None => {
                proof {
                    assert(false);
                }
                TokenKind::Eof
            },
        };
        let can_assign = prec_level(precedence) <= prec_level(Precedence::Assignment);

        proof {
            self.scanner.lemma_wf_bounds();
        }
        match prev_kind {
            TokenKind::LeftParen => {
                self.grouping(can_assign, fuel - 1);
                proof {
                    lemma_post_stay(pre, after_adv, 0);
                    lemma_post_trans(pre, after_adv, *self, 0, 1, 0, 0);
                }
            },
            TokenKind::Minus | TokenKind::Bang => {
                self.unary(can_assign, fuel - 1);
                proof {
                    lemma_post_stay(pre, after_adv, 0);
                    lemma_post_trans(pre, after_adv, *self, 0, 1, 0, 0);
                }
            },
            TokenKind::Number => {
                self.number(can_assign);
                proof {
                    lemma_post_stay(pre, after_adv, 0);
                    lemma_post_trans(pre, after_adv, *self, 0, 1, 0, 0);
                }
            },
            TokenKind::Nil | TokenKind::True | TokenKind::False => {
                self.literal(can_assign);
                proof {
                    lemma_post_stay(pre, after_adv, 0);
                    lemma_post_trans(pre, after_adv, *self, 0, 1, 0, 0);
                }
            },
            TokenKind::String => {
                self.string(can_assign);
                proof {
                    lemma_post_stay(pre, after_adv, 0);
                    lemma_post_trans(pre, after_adv, *self, 0, 1, 0, 0);
                }
            },
            TokenKind::Identifier => {
                self.variable(can_assign, fuel - 1);
                proof {
                    lemma_post_stay(pre, after_adv, 0);
                    lemma_post_trans(pre, after_adv, *self, 0, 1, 0, 0);
                }
            },
            _ => {
                self.report_error_at_previous("Expect expression.");
                proof {
                    lemma_post_stay(pre, *self, 1);
                }
                return ;
            },
        }

        let ghost st2 = self.pst();
        let mut lf: u128 = fuel - 1;
        proof {
            self.scanner.lemma_wf_bounds();
        }
        loop
            invariant
                Parser::parse_post(pre, *self, 1, 0),
                self.wf(),
                self.current is Some,
                self.measure() < pre.measure(),
                spec_prec(precedence) >= 1,
                prec_i == spec_prec(precedence) as int,
                fuel as int >= 8 * pre.measure() + 1,
                lf as int >= 8 * self.measure() + 5,
                lf < fuel,
                self.scanner.spec_source() == src,
                sp_pp_loop(src, self.pst(), prec_i, lf as int) == sp_pp_loop(
                    src,
                    st2,
                    prec_i,
                    (fuel - 1) as int,
                ),
            ensures
                Parser::parse_post(pre, *self, 1, 0),
                self.scanner.spec_source() == src,
                self.pst() == sp_pp_loop(src, st2, prec_i, (fuel - 1) as int),
            decreases lf,
        {
            let cur_kind = match &self.current {
                Some(t) => t.kind,
                None => {
                    proof {
                        assert(false);
                    }
                    TokenKind::Eof
                },
            };
            let rp = get_rule_precedence(&cur_kind);
            if !(prec_level(precedence) <= prec_level(rp)) {
                proof {
                    lemma_infix_level(cur_kind);
                }
                break;
            }
            proof {
                lemma_infix_level(cur_kind);
                assert(cur_kind != TokenKind::Eof);
                self.scanner.lemma_wf_bounds();
                assert(self.measure() >= 1);
            }
            let ghost loop_pre = *self;
            let ghost lf_b = lf as int;
            self.advance();
            proof {
                self.scanner.lemma_wf_bounds();
            }
            let ghost after_op = *self;
            self.binary(can_assign, lf - 1);
            proof {
                lemma_post_stay(loop_pre, after_op, 1);
                lemma_post_trans(loop_pre, after_op, *self, 0, 0, 1, 1);
                lemma_post_trans(pre, loop_pre, *self, 1, 0, 0, 1);
                self.scanner.lemma_wf_bounds();
                assert(sp_pp_loop(src, loop_pre.pst(), prec_i, lf_b) == sp_pp_loop(
                    src,
                    self.pst(),
                    prec_i,
                    lf_b - 1,
                ));
            }
            lf = lf - 1;
        }

        if can_assign {
            let ghost before_eq = *self;
            if self.check_advance(TokenKind::Equal) {
                self.report_error_at_previous("Invalid assignment target.");
            }
            proof {
                lemma_post_stay(before_eq, *self, 1);
                lemma_post_trans(pre, before_eq, *self, 1, 0, 0, 1);
            }
        }
        proof {
            assert(self.pst() == sp_parse_precedence(src, pre.pst(), prec_i, fuel as int));
        }
    }

    fn expression(&mut self, fuel: u128)
        requires
            old(self).wf(),
            old(self).current is Some,
            fuel as int >= 8 * old(self).measure() + 2,
        ensures
            Self::parse_post(*old(self), *final(self), 1, 0),
            (old(self).current->0.kind != TokenKind::Eof) ==> final(self).measure() < old(
                self
            ).measure(),
            final(self).scanner.spec_source() == old(self).scanner.spec_source(),
            final(self).pst() == sp_expression(
                old(self).scanner.spec_source(),
                old(self).pst(),
                fuel as int,
            ),
        decreases fuel,
    {
        proof {
            old(self).scanner.lemma_wf_bounds();
        }
        self.parse_precedence(Precedence::Assignment, fuel - 1);
        proof {
            assert(spec_prec(Precedence::Assignment) == 1);
        }
    }

    fn grouping(&mut self, _can_assign: bool, fuel: u128)
        requires
            old(self).wf(),
            old(self).current is Some,
            old(self).previous is Some,
            fuel as int >= 8 * old(self).measure() + 4,
        ensures
            Self::parse_post(*old(self), *final(self), 1, 0),
            final(self).scanner.spec_source() == old(self).scanner.spec_source(),
            final(self).pst() == sp_grouping(
                old(self).scanner.spec_source(),
                old(self).pst(),
                fuel as int,
            ),
        decreases fuel,
    {
        let ghost pre = *old(self);
        proof {
            old(self).scanner.lemma_wf_bounds();
        }
        self.expression(fuel - 1);
        let ghost mid = *self;
        self.consume(TokenKind::RightParen, "Expect `)`.");
        proof {
            lemma_post_stay(mid, *self, 1);
            lemma_post_trans(pre, mid, *self, 1, 0, 0, 1);
            assert(self.pst() == sp_grouping(pre.scanner.spec_source(), pre.pst(), fuel as int));
        }
    }

    fn unary(&mut self, _can_assign: bool, fuel: u128)
        requires
            old(self).wf(),
            old(self).current is Some,
            old(self).previous is Some,
            old(self).previous->0.kind == TokenKind::Bang || old(self).previous->0.kind
                == TokenKind::Minus,
            fuel as int >= 8 * old(self).measure() + 4,
        ensures
            Self::parse_post(*old(self), *final(self), 1, 0),
            final(self).scanner.spec_source() == old(self).scanner.spec_source(),
            final(self).pst() == sp_unary(
                old(self).scanner.spec_source(),
                old(self).pst(),
                fuel as int,
            ),
        decreases fuel,
    {
        let operator_kind = match &self.previous {
            Some(t) => t.kind,
            None => {
                proof {
                    assert(false);
                }
                TokenKind::Eof
            },
        };
        let ghost pre = *old(self);
        proof {
            old(self).scanner.lemma_wf_bounds();
            assert(spec_prec(Precedence::Unary) == 8);
        }
        self.parse_precedence(Precedence::Unary, fuel - 1);
        let ghost mid = *self;

        match operator_kind {
            TokenKind::Bang => {
                self.emit_simple(OpCode::Not);
                proof {
                    lemma_post_single(mid, *self, Instr::Not, 1);
                    lemma_post_trans(pre, mid, *self, 1, 0, 0, 1);
                }
            },
            TokenKind::Minus => {
                self.emit_simple(OpCode::Negate);
                proof {
                    lemma_post_single(mid, *self, Instr::Negate, 1);
                    lemma_post_trans(pre, mid, *self, 1, 0, 0, 1);
                }
            },
            _ => {
                proof {
                    assert(false);
                }
            },
        }
        proof {
            assert(self.pst() == sp_unary(pre.scanner.spec_source(), pre.pst(), fuel as int));
        }
    }

    fn binary(&mut self, _can_assign: bool, fuel: u128)
        requires
            old(self).wf(),
            old(self).current is Some,
            old(self).previous is Some,
            spec_prec(spec_rule_precedence(old(self).previous->0.kind)) >= 1,
            fuel as int >= 8 * old(self).measure() + 4,
        ensures
            Self::parse_post(*old(self), *final(self), 0, 1),
            final(self).scanner.spec_source() == old(self).scanner.spec_source(),
            final(self).pst() == sp_binary(
                old(self).scanner.spec_source(),
                old(self).pst(),
                fuel as int,
            ),
        decreases fuel,
    {
        proof {
            old(self).scanner.lemma_wf_bounds();
        }
        let operator_kind = match &self.previous {
            Some(t) => t.kind,
            None => {
                proof {
                    assert(false);
                }
                TokenKind::Eof
            },
        };
        let ghost pre = *old(self);

        let precedence = get_rule_precedence(&operator_kind);
        proof {
            old(self).scanner.lemma_wf_bounds();
        }
        self.parse_precedence(prec_above(precedence), fuel - 1);
        let ghost mid = *self;
        proof {
            lemma_post_stay(pre, pre, 1);
            lemma_post_trans(pre, pre, mid, 0, 1, 1, 0);
        }

        match operator_kind {
            TokenKind::BangEqual => {
                self.emit_simple(OpCode::Equal);
                let ghost m2 = *self;
                proof {
                    lemma_post_single(mid, m2, Instr::Equal, 2);
                    lemma_post_trans(pre, mid, m2, 1, -1, 1, 2);
                }
                self.emit_simple(OpCode::Not);
                proof {
                    lemma_post_single(m2, *self, Instr::Not, 1);
                    lemma_post_trans(pre, m2, *self, 0, 0, 1, 1);
                }
            },
            TokenKind::EqualEqual => {
                self.emit_simple(OpCode::Equal);
                proof {
                    lemma_post_single(mid, *self, Instr::Equal, 2);
                    lemma_post_trans(pre, mid, *self, 1, -1, 1, 2);
                }
            },
            TokenKind::Greater => {
                self.emit_simple(OpCode::Greater);
                proof {
                    lemma_post_single(mid, *self, Instr::Greater, 2);
                    lemma_post_trans(pre, mid, *self, 1, -1, 1, 2);
                }
            },
            TokenKind::GreaterEqual => {
                self.emit_simple(OpCode::Less);
                let ghost m2 = *self;
                proof {
                    lemma_post_single(mid, m2, Instr::Less, 2);
                    lemma_post_trans(pre, mid, m2, 1, -1, 1, 2);
                }
                self.emit_simple(OpCode::Not);
                proof {
                    lemma_post_single(m2, *self, Instr::Not, 1);
                    lemma_post_trans(pre, m2, *self, 0, 0, 1, 1);
                }
            },
            TokenKind::Less => {
                self.emit_simple(OpCode::Less);
                proof {
                    lemma_post_single(mid, *self, Instr::Less, 2);
                    lemma_post_trans(pre, mid, *self, 1, -1, 1, 2);
                }
            },
            TokenKind::LessEqual => {
                self.emit_simple(OpCode::Greater);
                let ghost m2 = *self;
                proof {
                    lemma_post_single(mid, m2, Instr::Greater, 2);
                    lemma_post_trans(pre, mid, m2, 1, -1, 1, 2);
                }
                self.emit_simple(OpCode::Not);
                proof {
                    lemma_post_single(m2, *self, Instr::Not, 1);
                    lemma_post_trans(pre, m2, *self, 0, 0, 1, 1);
                }
            },
            TokenKind::Plus => {
                self.emit_simple(OpCode::Add);
                proof {
                    lemma_post_single(mid, *self, Instr::Add, 2);
                    lemma_post_trans(pre, mid, *self, 1, -1, 1, 2);
                }
            },
            TokenKind::Minus => {
                self.emit_simple(OpCode::Subtract);
                proof {
                    lemma_post_single(mid, *self, Instr::Subtract, 2);
                    lemma_post_trans(pre, mid, *self, 1, -1, 1, 2);
                }
            },
            TokenKind::Star => {
                self.emit_simple(OpCode::Multiply);
                proof {
                    lemma_post_single(mid, *self, Instr::Multiply, 2);
                    lemma_post_trans(pre, mid, *self, 1, -1, 1, 2);
                }
            },
            TokenKind::Slash => {
                self.emit_simple(OpCode::Divide);
                proof {
                    lemma_post_single(mid, *self, Instr::Divide, 2);
                    lemma_post_trans(pre, mid, *self, 1, -1, 1, 2);
                }
            },
            TokenKind::Percent => {
                self.emit_simple(OpCode::Remainder);
                proof {
                    lemma_post_single(mid, *self, Instr::Remainder, 2);
                    lemma_post_trans(pre, mid, *self, 1, -1, 1, 2);
                }
            },
            _ => {
                proof {
                    assert(false);
                }
            },
        }
        proof {
            lemma_infix_level(operator_kind);
            assert(self.pst() == sp_binary(
                pre.scanner.spec_source(),
                pre.pst(),
                fuel as int,
            ));
        }
    }

    fn literal(&mut self, _can_assign: bool)
        requires
            old(self).wf(),
            old(self).current is Some,
            old(self).previous is Some,
            old(self).previous->0.kind == TokenKind::Nil || old(self).previous->0.kind
                == TokenKind::True || old(self).previous->0.kind == TokenKind::False,
        ensures
            Self::parse_post(*old(self), *final(self), 1, 0),
            final(self).scanner.spec_source() == old(self).scanner.spec_source(),
            final(self).pst() == sp_literal(old(self).pst()),
    {
        let kind = match &self.previous {
            Some(t) => t.kind,
            None => {
                proof {
                    assert(false);
                }
                TokenKind::Eof
            },
        };
        let ghost pre = *old(self);

        match kind {
            TokenKind::Nil => {
                self.emit_simple(OpCode::Nil);
                proof {
                    lemma_post_single(pre, *self, Instr::Nil, 0);
                }
            },
            TokenKind::True => {
                self.emit_simple(OpCode::True);
                proof {
                    lemma_post_single(pre, *self, Instr::True, 0);
                }
            },
            TokenKind::False => {
                self.emit_simple(OpCode::False);
                proof {
                    lemma_post_single(pre, *self, Instr::False, 0);
                }
            },
            _ => {
                proof {
                    assert(false);
                }
            },
        }
    }

    fn number(&mut self, _can_assign: bool)
        requires
            old(self).wf(),
            old(self).current is Some,
            old(self).previous is Some,
        ensures
            Self::parse_post(*old(self), *final(self), 1, 0),
            final(self).scanner.spec_source() == old(self).scanner.spec_source(),
            final(self).pst() == sp_number(old(self).pst()),
    {
        let span = match &self.previous {
            Some(t) => t.span,
            None => {
                proof {
                    assert(false);
                }
                ""
            },
        };
        let bits = num::num_parse(span);
        let ghost pre = *old(self);
        self.emit_constant(Value::Number(bits));
        proof {
            if pre.consts().len() < 0x1000000 {
                lemma_post_single(
                    pre,
                    *self,
                    Instr::Constant {
                        id: pre.consts().len() as u32,
                        long: pre.consts().len() > 0xff,
                    },
                    0,
                );
            } else {
                lemma_post_stay(pre, *self, 1);
            }
        }
    }

    fn string(&mut self, _can_assign: bool)
        requires
            old(self).wf(),
            old(self).current is Some,
            old(self).previous is Some,
            old(self).previous->0.kind == TokenKind::String,
        ensures
            Self::parse_post(*old(self), *final(self), 1, 0),
            final(self).scanner.spec_source() == old(self).scanner.spec_source(),
            final(self).pst() == sp_string(old(self).pst()),
    {
        let token = match &self.previous {
            Some(t) => *t,
            None => {
                proof {
                    assert(false);
                }
                return ;
            },
        };
        let ghost pre = *old(self);
        let n = token.span.unicode_len();
        proof {
            assert(n >= 2);
        }
        let inner = token.span.substring_char(1, n - 1);
        match parse_string(inner) {
            Ok(s) => {
                self.emit_constant(Value::of_string(s));
                proof {
                    if pre.consts().len() < 0x1000000 {
                        lemma_post_single(
                            pre,
                            *self,
                            Instr::Constant {
                                id: pre.consts().len() as u32,
                                long: pre.consts().len() > 0xff,
                            },
                            0,
                        );
                    } else {
                        lemma_post_stay(pre, *self, 1);
                    }
                }
            },
            Err(msg) => {
                self.report_error_at_previous(msg);
                proof {
                    lemma_post_stay(pre, *self, 1);
                }
            },
        }
    }

    fn variable(&mut self, can_assign: bool, fuel: u128)
        requires
            old(self).wf(),
            old(self).current is Some,
            old(self).previous is Some,
            fuel as int >= 8 * old(self).measure() + 4,
        ensures
            Self::parse_post(*old(self), *final(self), 1, 0),
            final(self).scanner.spec_source() == old(self).scanner.spec_source(),
            final(self).pst() == sp_variable(
                old(self).scanner.spec_source(),
                old(self).pst(),
                can_assign,
                fuel as int,
            ),
        decreases fuel,
    {
        let name_token = match &self.previous {
            Some(t) => *t,
            None => {
                proof {
                    assert(false);
                }
                return ;
            },
        };
        proof {
            old(self).scanner.lemma_wf_bounds();
        }
        self.named_variable(name_token, can_assign, fuel - 1);
        proof {
            assert(self.pst() == sp_variable(
                old(self).scanner.spec_source(),
                old(self).pst(),
                can_assign,
                fuel as int,
            ));
        }
    }

    #[verifier::rlimit(60)]
    fn named_variable(&mut self, name_token: Token<'a>, can_assign: bool, fuel: u128)
        requires
            old(self).wf(),
            old(self).current is Some,
            old(self).previous is Some,
            old(self).previous == Some(name_token),
            fuel as int >= 8 * old(self).measure() + 3,
        ensures
            Self::parse_post(*old(self), *final(self), 1, 0),
            final(self).scanner.spec_source() == old(self).scanner.spec_source(),
            final(self).pst() == sp_named_variable(
                old(self).scanner.spec_source(),
                old(self).pst(),
                can_assign,
                fuel as int,
            ),
        decreases fuel,
    {
        let ghost pre = *old(self);
        let ghost src = self.scanner.spec_source();
        proof {
            old(self).scanner.lemma_wf_bounds();
        }
        let global = self.identifier_constant(name_token);
        let ghost after_const = *self;

        if global > 0xffffff {
            self.report_error_at_previous("reached constant limit fo 2^24");
            proof {
                lemma_post_stay(pre, *self, 1);
                assert(self.pst() == sp_named_variable(src, pre.pst(), can_assign, fuel as int));
            }
            return ;
        }

        if can_assign && self.check(TokenKind::Equal) {
            self.advance();
            let ghost after_eq = *self;
            proof {
                self.scanner.lemma_wf_bounds();
            }
            self.expression(fuel - 1);
            let ghost after_expr = *self;
            proof {
                assert(after_expr.consts()[global as int] == ValueModel::Str(name_token.span@));
                assert(instr_operands_ok(
                    id_instr(OpCode::SetGlobal, global as u32, global > 0xff)->0,
                    after_expr.consts(),
                ));
            }
            self.emit_id_instr(OpCode::SetGlobal, global);
            proof {
                lemma_post_stay(pre, after_eq, 0);
                lemma_post_trans(pre, after_eq, after_expr, 0, 1, 0, 0);
                lemma_post_single(
                    after_expr,
                    *self,
                    id_instr(OpCode::SetGlobal, global as u32, global > 0xff)->0,
                    1,
                );
                lemma_post_trans(pre, after_expr, *self, 1, 0, 0, 1);
                assert(self.pst() == sp_named_variable(src, pre.pst(), can_assign, fuel as int));
            }
        } else {
            proof {
                assert(after_const.consts()[global as int] == ValueModel::Str(name_token.span@));
            }
            self.emit_id_instr(OpCode::GetGlobal, global);
            proof {
                lemma_post_stay(pre, after_const, 0);
                lemma_post_single(
                    after_const,
                    *self,
                    id_instr(OpCode::GetGlobal, global as u32, global > 0xff)->0,
                    0,
                );
                lemma_post_trans(pre, after_const, *self, 0, 1, 0, 0);
                assert(self.pst() == sp_named_variable(src, pre.pst(), can_assign, fuel as int));
            }
        }
    }
}

} // verus!

verus! {

/// A source whose first token is already the end of input.
pub open spec fn trivial_source(s: Seq<char>) -> bool {
    spec_scan(s, 0, 1).kind == TokenKind::Eof
}

impl<'a> Parser<'a> {
    /// Consumes a variable name and records it as a string constant.
    fn parse_variable(&mut self, error_message: &'static str) -> (id: usize)
        requires
            old(self).wf(),
            old(self).current is Some,
            old(self).previous is Some,
        ensures
            final(self).wf(),
            final(self).current is Some,
            final(self).previous is Some,
            final(self).measure() <= old(self).measure(),
            old(self).had_error ==> final(self).had_error,
            final(self).decoded() == old(self).decoded(),
            final(self).consts().len() == old(self).consts().len() + 1,
            seq_extends(old(self).consts(), final(self).consts()),
            final(self).consts().last() is Str,
            id == old(self).consts().len(),
            final(self).scanner.spec_source() == old(self).scanner.spec_source(),
            final(self).pst() == sp_parse_variable(
                old(self).scanner.spec_source(),
                old(self).pst(),
                error_message@,
            ),
    {
        self.consume(TokenKind::Identifier, error_message);
        let token = match &self.previous {
            Some(t) => *t,
            None => {
                proof {
                    assert(false);
                }
                return 0;
            },
        };
        self.identifier_constant(token)
    }

    /// Emits the definition of a global from the value on the stack.
    fn define_variable(&mut self, global: usize)
        requires
            old(self).wf(),
            old(self).previous is Some,
            global <= 0xffffff,
            global < old(self).consts().len(),
            old(self).consts()[global as int] is Str,
        ensures
            Self::emit_frame(*old(self), *final(self)),
            final(self).consts() == old(self).consts(),
            final(self).decoded() == old(self).decoded().push(
                id_instr(OpCode::DefineGlobal, global as u32, global > 0xff)->0,
            ),
            final(self).scanner.spec_source() == old(self).scanner.spec_source(),
            final(self).pst() == sp_push_instr(
                old(self).pst(),
                Instr::DefineGlobal { id: global as u32, long: global > 0xff },
            ),
    {
        self.emit_id_instr(OpCode::DefineGlobal, global);
    }

    /// `var name (= expr)? ;` — defines a global, initialising it to
    /// nil when no initialiser is given.
    #[verifier::rlimit(60)]
    fn variable_declaration(&mut self, fuel: u128)
        requires
            old(self).wf(),
            old(self).current is Some,
            old(self).previous is Some,
            fuel as int >= 8 * old(self).measure() + 5,
        ensures
            Self::parse_post(*old(self), *final(self), 0, 0),
            final(self).scanner.spec_source() == old(self).scanner.spec_source(),
            final(self).pst() == sp_variable_declaration(
                old(self).scanner.spec_source(),
                old(self).pst(),
                fuel as int,
            ),
        decreases fuel,
    {
        let ghost pre = *old(self);
        let ghost src = self.scanner.spec_source();
        proof {
            old(self).scanner.lemma_wf_bounds();
        }
        let global = self.parse_variable("Expect variable name.");
        let ghost after_var = *self;
        proof {
            lemma_post_stay(pre, after_var, 0);
        }

        if global > 0xffffff {
            self.report_error_at_previous("reached constant limit fo 2^24");
            proof {
                lemma_post_stay(after_var, *self, 0);
                lemma_post_trans(pre, after_var, *self, 0, 0, 0, 0);
                assert(self.pst() == sp_variable_declaration(src, pre.pst(), fuel as int));
            }
            return ;
        }

        if self.check_advance(TokenKind::Equal) {
            let ghost after_eq = *self;
            proof {
                lemma_post_stay(after_var, after_eq, 0);
                lemma_post_trans(pre, after_var, after_eq, 0, 0, 0, 0);
                self.scanner.lemma_wf_bounds();
            }
            self.expression(fuel - 1);
            proof {
                lemma_post_trans(pre, after_eq, *self, 0, 1, 0, 0);
            }
        } else {
            self.emit_simple(OpCode::Nil);
            proof {
                lemma_post_single(after_var, *self, Instr::Nil, 0);
                lemma_post_trans(pre, after_var, *self, 0, 1, 0, 0);
            }
        }
        let ghost after_init = *self;

        self.consume(TokenKind::Semicolon, "Expect `;`.");
        let ghost after_semi = *self;
        proof {
            lemma_post_stay(after_init, after_semi, 1);
            lemma_post_trans(pre, after_init, after_semi, 1, 0, 0, 1);
            assert(after_semi.consts()[global as int] == after_var.consts()[global as int]);
        }

        self.define_variable(global);
        proof {
            lemma_post_single(
                after_semi,
                *self,
                id_instr(OpCode::DefineGlobal, global as u32, global > 0xff)->0,
                1,
            );
            lemma_post_trans(pre, after_semi, *self, 1, -1, 0, 1);
            assert(self.pst() == sp_variable_declaration(src, pre.pst(), fuel as int));
        }
    }

    /// `print expr ;`
    fn print_statement(&mut self, fuel: u128)
        requires
            old(self).wf(),
            old(self).current is Some,
            fuel as int >= 8 * old(self).measure() + 6,
        ensures
            Self::parse_post(*old(self), *final(self), 0, 0),
            final(self).scanner.spec_source() == old(self).scanner.spec_source(),
            final(self).pst() == sp_print_statement(
                old(self).scanner.spec_source(),
                old(self).pst(),
                fuel as int,
            ),
        decreases fuel,
    {
        let ghost pre = *old(self);
        proof {
            old(self).scanner.lemma_wf_bounds();
        }
        self.expression(fuel - 1);
        let ghost mid = *self;
        self.consume(TokenKind::Semicolon, "Expect `;`.");
        let ghost mid2 = *self;
        proof {
            lemma_post_stay(mid, mid2, 1);
            lemma_post_trans(pre, mid, mid2, 1, 0, 0, 1);
        }
        self.emit_simple(OpCode::Print);
        proof {
            lemma_post_single(mid2, *self, Instr::Print, 1);
            lemma_post_trans(pre, mid2, *self, 1, -1, 0, 1);
            assert(self.pst() == sp_print_statement(
                pre.scanner.spec_source(),
                pre.pst(),
                fuel as int,
            ));
        }
    }

    /// `expr ;` — evaluates and discards.
    fn expression_statement(&mut self, fuel: u128)
        requires
            old(self).wf(),
            old(self).current is Some,
            fuel as int >= 8 * old(self).measure() + 6,
        ensures
            Self::parse_post(*old(self), *final(self), 0, 0),
            (old(self).current->0.kind != TokenKind::Eof) ==> final(self).measure() < old(
                self
            ).measure(),
            final(self).scanner.spec_source() == old(self).scanner.spec_source(),
            final(self).pst() == sp_expression_statement(
                old(self).scanner.spec_source(),
                old(self).pst(),
                fuel as int,
            ),
        decreases fuel,
    {
        let ghost pre = *old(self);
        proof {
            old(self).scanner.lemma_wf_bounds();
        }
        self.expression(fuel - 1);
        let ghost mid = *self;
        self.consume(TokenKind::Semicolon, "Expect `;`.");
        let ghost mid2 = *self;
        proof {
            lemma_post_stay(mid, mid2, 1);
            lemma_post_trans(pre, mid, mid2, 1, 0, 0, 1);
        }
        self.emit_simple(OpCode::Pop);
        proof {
            lemma_post_single(mid2, *self, Instr::Pop, 1);
            lemma_post_trans(pre, mid2, *self, 1, -1, 0, 1);
            assert(self.pst() == sp_expression_statement(
                pre.scanner.spec_source(),
                pre.pst(),
                fuel as int,
            ));
        }
    }

    /// A statement: `print` or an expression statement.
    fn statement(&mut self, fuel: u128)
        requires
            old(self).wf(),
            old(self).current is Some,
            fuel as int >= 8 * old(self).measure() + 7,
        ensures
            Self::parse_post(*old(self), *final(self), 0, 0),
            (old(self).current->0.kind != TokenKind::Eof) ==> final(self).measure() < old(
                self
            ).measure(),
            final(self).scanner.spec_source() == old(self).scanner.spec_source(),
            final(self).pst() == sp_statement(
                old(self).scanner.spec_source(),
                old(self).pst(),
                fuel as int,
            ),
        decreases fuel,
    {
        let ghost pre = *old(self);
        let ghost src = self.scanner.spec_source();
        proof {
            old(self).scanner.lemma_wf_bounds();
        }
        if self.check_advance(TokenKind::Print) {
            let ghost mid = *self;
            proof {
                lemma_post_stay(pre, mid, 0);
                self.scanner.lemma_wf_bounds();
            }
            self.print_statement(fuel - 1);
            proof {
                lemma_post_trans(pre, mid, *self, 0, 0, 0, 0);
                assert(self.pst() == sp_statement(src, pre.pst(), fuel as int));
            }
        } else {
            self.expression_statement(fuel - 1);
            proof {
                assert(self.pst() == sp_statement(src, pre.pst(), fuel as int));
            }
        }
    }

    /// A declaration: `var` or a statement, with panic-mode recovery.
    fn declaration(&mut self, fuel: u128)
        requires
            old(self).wf(),
            old(self).current is Some,
            fuel as int >= 8 * old(self).measure() + 8,
        ensures
            Self::parse_post(*old(self), *final(self), 0, 0),
            (old(self).current->0.kind != TokenKind::Eof) ==> final(self).measure() < old(
                self
            ).measure(),
            final(self).scanner.spec_source() == old(self).scanner.spec_source(),
            final(self).pst() == sp_declaration(
                old(self).scanner.spec_source(),
                old(self).pst(),
                fuel as int,
            ),
        decreases fuel,
    {
        let ghost pre = *old(self);
        let ghost src = self.scanner.spec_source();
        proof {
            old(self).scanner.lemma_wf_bounds();
        }
        if self.check_advance(TokenKind::Var) {
            let ghost mid = *self;
            proof {
                lemma_post_stay(pre, mid, 0);
                self.scanner.lemma_wf_bounds();
            }
            self.variable_declaration(fuel - 1);
            proof {
                lemma_post_trans(pre, mid, *self, 0, 0, 0, 0);
            }
        } else {
            self.statement(fuel - 1);
        }

        if self.panic_mode {
            let ghost mid2 = *self;
            self.synchronize();
            proof {
                lemma_post_stay(mid2, *self, 0);
                lemma_post_trans(pre, mid2, *self, 0, 0, 0, 0);
            }
        }
        proof {
            assert(self.pst() == sp_declaration(src, pre.pst(), fuel as int));
        }
    }
}

/// Compiles a source text to a chunk, also returning the diagnostics
/// produced along the way.  The outcome is exactly `sp_compile` of the
/// source: it fails precisely when the specification reports an error
/// (and then at least one diagnostic was produced), and on success the
/// chunk decodes to the specified instructions with the specified
/// constant pool — well formed for execution from an empty stack:
/// decodable, operand-valid, stack-balanced, ending in its only
/// `Return`.
#[verifier::rlimit(100)]
pub fn compile_full(source: &str) -> (r: (Result<Chunk, InterpretError>, Vec<String>))
    requires
        source@.len() < usize::MAX,
    ensures
        match r.0 {
            Ok(chunk) => {
                &&& chunk_exec_wf(chunk@.code, chunk@.constants, 0)
                &&& decode(chunk@.code) is Some
                &&& net_sum(decode(chunk@.code)->Some_0) == 0
                &&& decode(chunk@.code)->Some_0.len() > 0
                &&& decode(chunk@.code)->Some_0.last() is Return
                &&& no_return(decode(chunk@.code)->Some_0.drop_last())
                &&& crate::debug::pairs_wf(chunk@.lines)
            },
            Err(e) => e is CompileError,
        },
        r.0 is Err <==> r.1@.len() > 0,
        Seq::new(r.1@.len() as nat, |i: int| r.1@[i]@) == sp_compile(source@).diags,
        r.0 is Err <==> sp_compile(source@).err,
        r.0 matches Ok(chunk) ==> decode(chunk@.code) == Some(sp_compile(source@).instrs)
            && chunk@.constants == sp_compile(source@).consts,
        trivial_source(source@) ==> (r.0 matches Ok(chunk) && chunk@.code == seq![
            opcode_byte(OpCode::Return),
        ] && chunk@.constants == Seq::<ValueModel>::empty()),
{
    let ghost src = source@;
    let scanner = Scanner::new(source);
    let mut parser = Parser::new(scanner);
    proof {
        assert(decode(parser.chunk@.code) is Some);
        assert(parser.decoded() =~= Seq::<Instr>::empty());
        assert(Seq::new(parser.diagnostics@.len() as nat, |i: int| parser.diagnostics@[i]@)
            =~= Seq::<Seq<char>>::empty());
        assert(parser.pst() == (PState {
            pos: 0,
            line: 1,
            cur: None,
            prev: None,
            instrs: Seq::empty(),
            consts: Seq::empty(),
            diags: Seq::empty(),
            err: false,
            panic: false,
        }));
    }

    parser.advance();
    let ghost start = parser;
    proof {
        assert(no_return(start.decoded()));
        assert(start.pst() == sp_advance(src, (PState {
            pos: 0,
            line: 1,
            cur: None,
            prev: None,
            instrs: Seq::empty(),
            consts: Seq::empty(),
            diags: Seq::empty(),
            err: false,
            panic: false,
        })));
    }

    let mut lf: u128 = parser.exec_measure() * 8 + 9;
    let ghost lf0 = lf as int;
    proof {
        parser.scanner.lemma_wf_bounds();
        assert(sp_measure(src, start.pst()) == start.measure());
        assert(lf0 == 8 * sp_measure(src, start.pst()) + 9);
    }
    loop
        invariant
            parser.wf(),
            parser.current is Some,
            Parser::parse_post(start, parser, 0, 0) || parser == start,
            no_return(start.decoded()),
            start.decoded().len() == 0,
            lf as int >= 8 * parser.measure() + 9,
            parser.scanner.spec_source() == src,
            sp_decl_loop(src, parser.pst(), lf as int) == sp_decl_loop(src, start.pst(), lf0),
            start.current->0.kind == TokenKind::Eof ==> parser == start,
        ensures
            parser.wf(),
            parser.current is Some,
            parser.current->0.kind == TokenKind::Eof,
            Parser::parse_post(start, parser, 0, 0) || parser == start,
            parser.scanner.spec_source() == src,
            parser.pst() == sp_decl_loop(src, start.pst(), lf0),
            start.current->0.kind == TokenKind::Eof ==> parser == start,
        decreases lf,
    {
        if parser.check(TokenKind::Eof) {
            break;
        }
        proof {
            parser.scanner.lemma_wf_bounds();
            assert(parser.measure() >= 1);
        }
        let ghost it_pre = parser;
        let ghost lf_b = lf as int;
        parser.declaration(lf - 1);
        proof {
            if it_pre != start {
                lemma_post_trans(start, it_pre, parser, 0, 0, 0, 0);
            }
            assert(sp_decl_loop(src, it_pre.pst(), lf_b) == sp_decl_loop(
                src,
                parser.pst(),
                lf_b - 1,
            ));
        }
        lf = lf - 1;
    }

    let ghost before_consume = parser;
    parser.consume(TokenKind::Eof, "Expect end of expression.");
    let ghost after_consume = parser;
    proof {
        if before_consume == start {
            lemma_post_stay(start, after_consume, 0);
        } else {
            lemma_post_stay(before_consume, after_consume, 0);
            lemma_post_trans(start, before_consume, after_consume, 0, 0, 0, 0);
        }
    }

    proof {
        assert(parser.pst() == sp_consume(
            src,
            sp_decl_loop(src, start.pst(), lf0),
            TokenKind::Eof,
            "Expect end of expression."@,
        ));
        assert(parser.had_error == sp_compile(src).err);
    }
    if parser.had_error {
        return (Err(InterpretError::CompileError("compile error")), parser.diagnostics);
    }

    proof {
        assert(parser.previous is Some);
    }
    let ghost before_ret = parser;
    parser.emit_simple(OpCode::Return);

    proof {
        let body = before_ret.decoded();
        let full = parser.decoded();
        assert(full == body.push(Instr::Return));
        assert(Parser::parse_post(start, after_consume, 0, 0));
        assert(!after_consume.had_error);
        assert(start.decoded().len() == 0);
        assert(body =~= body.skip(start.decoded().len() as int));
        assert(net_sum(body) == 0);
        assert(frag_safe(body, 0));
        assert(seq![Instr::Return].skip(1) =~= Seq::<Instr>::empty());
        assert(net_sum(Seq::<Instr>::empty()) == 0);
        assert(frag_safe(Seq::<Instr>::empty(), 0));
        assert(net_sum(seq![Instr::Return]) == 0);
        assert(frag_safe(seq![Instr::Return], 0));
        assert(full =~= body + seq![Instr::Return]);
        crate::chunk::lemma_net_sum_append(body, seq![Instr::Return]);
        crate::chunk::lemma_frag_safe_append(body, seq![Instr::Return], 0);
        assert(full.last() is Return);
        assert(crate::chunk::contains_return(full)) by {
            assert(full[full.len() - 1] is Return);
        }
        assert(full.drop_last() =~= body);
        assert(no_return(body));
        if trivial_source(source@) {
            assert(start.current->0.kind == TokenKind::Eof);
            assert(body.len() == 0);
            assert(before_ret.chunk@.code.len() == 0) by {
                if before_ret.chunk@.code.len() > 0 {
                    assert(crate::chunk::decode_head(before_ret.chunk@.code) is Some);
                }
            }
            assert(parser.chunk@.code =~= seq![opcode_byte(OpCode::Return)]);
            assert(parser.chunk@.constants =~= Seq::<ValueModel>::empty());
        }
        assert(before_ret.pst() == sp_consume(
            src,
            sp_decl_loop(src, start.pst(), lf0),
            TokenKind::Eof,
            "Expect end of expression."@,
        ));
        assert(!sp_compile(src).err);
        assert(parser.decoded() == sp_compile(src).instrs);
        assert(parser.consts() == sp_compile(src).consts);
        assert(decode(parser.chunk@.code) == Some(sp_compile(src).instrs));
    }
    (Ok(parser.chunk), parser.diagnostics)
}

/// Compiles a source text to a chunk; the result is pinned to
/// `sp_compile` of the source as in `compile_full`.
pub fn compile(source: &str) -> (r: Result<Chunk, InterpretError>)
    requires
        source@.len() < usize::MAX,
    ensures
        match r {
            Ok(chunk) => {
                &&& chunk_exec_wf(chunk@.code, chunk@.constants, 0)
                &&& decode(chunk@.code) is Some
                &&& net_sum(decode(chunk@.code)->Some_0) == 0
                &&& decode(chunk@.code)->Some_0.len() > 0
                &&& decode(chunk@.code)->Some_0.last() is Return
                &&& no_return(decode(chunk@.code)->Some_0.drop_last())
                &&& crate::debug::pairs_wf(chunk@.lines)
            },
            Err(e) => e is CompileError,
        },
        r is Err <==> sp_compile(source@).err,
        r matches Ok(chunk) ==> decode(chunk@.code) == Some(sp_compile(source@).instrs)
            && chunk@.constants == sp_compile(source@).consts,
        trivial_source(source@) ==> (r matches Ok(chunk) && chunk@.code == seq![
            opcode_byte(OpCode::Return),
        ] && chunk@.constants == Seq::<ValueModel>::empty()),
{
    let (r, _diagnostics) = compile_full(source);
    r
}

} // verus!

verus! {

/// The infix binding level of a token kind: 0 for tokens with no
/// infix rule, rising through equality, comparison, term and factor.
pub open spec fn infix_level(kind: TokenKind) -> int {
    match kind {
        TokenKind::Plus => 6,
        TokenKind::Minus => 6,
        TokenKind::Star => 7,
        TokenKind::Slash => 7,
        TokenKind::Percent => 7,
        TokenKind::BangEqual => 4,
        TokenKind::EqualEqual => 4,
        TokenKind::Greater => 5,
        TokenKind::GreaterEqual => 5,
        TokenKind::Less => 5,
        TokenKind::LessEqual => 5,
        _ => 0,
    }
}

/// A token as the parser's specification sees it.
pub struct SToken {
    pub kind: TokenKind,
    pub span: Seq<char>,
    pub line: nat,
}

/// The parser's abstract state: scanner position and line, the
/// two-token window, the instructions and constants emitted so far,
/// and the error flags.
pub struct PState {
    pub pos: nat,
    pub line: nat,
    pub cur: Option<SToken>,
    pub prev: Option<SToken>,
    pub instrs: Seq<Instr>,
    pub consts: Seq<ValueModel>,
    pub diags: Seq<Seq<char>>,
    pub err: bool,
    pub panic: bool,
}

/// The token a scan yields.
pub open spec fn sp_tok(src: Seq<char>, sc: crate::scanner::Scanned) -> SToken {
    SToken { kind: sc.kind, span: src.subrange(sc.start as int, sc.end as int), line: sc.line }
}

/// One scan into the lookahead.
pub open spec fn sp_read(src: Seq<char>, st: PState) -> PState {
    let sc = spec_scan(src, st.pos, st.line);
    PState { pos: sc.end, line: sc.line, cur: Some(sp_tok(src, sc)), ..st }
}

/// Reporting an error at a token: outside panic mode the diagnostic
/// line is recorded and both flags raised; inside it, nothing happens.
pub open spec fn sp_report(st: PState, t: SToken, msg: Seq<char>) -> PState {
    if st.panic {
        st
    } else {
        PState {
            err: true,
            panic: true,
            diags: st.diags.push(error_report(t.kind, t.span, t.line, msg)),
            ..st
        }
    }
}

/// The parser's remaining work, used to size recursion fuel.
pub open spec fn sp_measure(src: Seq<char>, st: PState) -> int {
    src.len() - st.pos + (if st.cur matches Some(t) && t.kind == TokenKind::Eof {
        0int
    } else {
        1int
    })
}

/// Skipping and reporting the scanner's error tokens.
pub open spec fn sp_skip_errs(src: Seq<char>, st: PState, fuel: int) -> PState
    decreases fuel,
{
    if fuel <= 0 {
        st
    } else if st.cur matches Some(t) && (t.kind == TokenKind::UnterminatedString || t.kind
        == TokenKind::UnexpectedCharacter) {
        let tk = st.cur->0;
        let msg = if tk.kind == TokenKind::UnterminatedString {
            "unterminated string"@
        } else {
            "unexpected character"@
        };
        sp_skip_errs(src, sp_read(src, sp_report(st, tk, msg)), fuel - 1)
    } else {
        st
    }
}

/// One `advance`: the lookahead moves to `prev`, the next clean token
/// is scanned in.
pub open spec fn sp_advance(src: Seq<char>, st: PState) -> PState {
    let st1 = sp_read(src, PState { prev: st.cur, ..st });
    sp_skip_errs(src, st1, src.len() - st1.pos + 1)
}

/// One `check_advance`.
pub open spec fn sp_check_advance(src: Seq<char>, st: PState, kind: TokenKind) -> PState {
    if st.cur matches Some(t) && t.kind == kind {
        sp_advance(src, st)
    } else {
        st
    }
}

/// One `consume`.
pub open spec fn sp_consume(src: Seq<char>, st: PState, kind: TokenKind, msg: Seq<char>) -> PState {
    if st.cur matches Some(t) && t.kind == kind {
        sp_advance(src, st)
    } else {
        sp_report(st, st.cur->0, msg)
    }
}

/// Appending one instruction.
pub open spec fn sp_push_instr(st: PState, i: Instr) -> PState {
    PState { instrs: st.instrs.push(i), ..st }
}

/// Adding a constant and the instruction that pushes it; pool ids from
/// 2^24 up are rejected with an error.
pub open spec fn sp_emit_constant(st: PState, v: ValueModel) -> PState {
    if st.consts.len() >= 0x1000000 {
        sp_report(st, st.prev->0, "reached constant limit fo 2^24"@)
    } else {
        PState {
            consts: st.consts.push(v),
            instrs: st.instrs.push(
                Instr::Constant { id: st.consts.len() as u32, long: st.consts.len() > 0xff },
            ),
            ..st
        }
    }
}

/// Panic-mode recovery.
pub open spec fn sp_synchronize(src: Seq<char>, st: PState) -> PState {
    let st1 = PState { panic: false, ..st };
    sp_sync_loop(src, st1, src.len() - st1.pos + 1)
}

pub open spec fn sp_sync_loop(src: Seq<char>, st: PState, fuel: int) -> PState
    decreases fuel,
{
    if fuel <= 0 {
        st
    } else if st.cur matches Some(t) && !(t.kind == TokenKind::Class || t.kind == TokenKind::Fun
        || t.kind == TokenKind::Var || t.kind == TokenKind::For || t.kind == TokenKind::If
        || t.kind == TokenKind::While || t.kind == TokenKind::Print || t.kind == TokenKind::Return
        || t.kind == TokenKind::Eof) {
        sp_sync_loop(src, sp_advance(src, st), fuel - 1)
    } else {
        st
    }
}

/// The number-literal prefix rule.
pub open spec fn sp_number(st: PState) -> PState {
    sp_emit_constant(st, ValueModel::Num(num::sp_num_parse(st.prev->0.span)))
}

/// The nil/true/false prefix rule.
pub open spec fn sp_literal(st: PState) -> PState {
    match st.prev->0.kind {
        TokenKind::Nil => sp_push_instr(st, Instr::Nil),
        TokenKind::True => sp_push_instr(st, Instr::True),
        _ => sp_push_instr(st, Instr::False),
    }
}

/// The string-literal prefix rule: the quotes are stripped and the
/// escapes decoded; a bad escape is a compile error.
pub open spec fn sp_string(st: PState) -> PState {
    let span = st.prev->0.span;
    match spec_unescape(span.subrange(1, span.len() - 1)) {
        Ok(out) => sp_emit_constant(st, ValueModel::Str(out)),
        Err(e) => sp_report(st, st.prev->0, e),
    }
}

/// The identifier prefix rule: record the name, then a set when an `=`
/// follows in assignment position, else a get.
pub open spec fn sp_named_variable(src: Seq<char>, st: PState, can_assign: bool, fuel: int) -> PState
    decreases fuel,
{
    if fuel <= 0 {
        st
    } else {
        let global = st.consts.len();
        let st1 = PState { consts: st.consts.push(ValueModel::Str(st.prev->0.span)), ..st };
        if global > 0xffffff {
            sp_report(st1, st1.prev->0, "reached constant limit fo 2^24"@)
        } else if can_assign && (st1.cur matches Some(t) && t.kind == TokenKind::Equal) {
            let st2 = sp_advance(src, st1);
            let st3 = sp_expression(src, st2, fuel - 1);
            sp_push_instr(st3, Instr::SetGlobal { id: global as u32, long: global > 0xff })
        } else {
            sp_push_instr(st1, Instr::GetGlobal { id: global as u32, long: global > 0xff })
        }
    }
}

pub open spec fn sp_variable(src: Seq<char>, st: PState, can_assign: bool, fuel: int) -> PState
    decreases fuel,
{
    if fuel <= 0 {
        st
    } else {
        sp_named_variable(src, st, can_assign, fuel - 1)
    }
}

pub open spec fn sp_grouping(src: Seq<char>, st: PState, fuel: int) -> PState
    decreases fuel,
{
    if fuel <= 0 {
        st
    } else {
        sp_consume(src, sp_expression(src, st, fuel - 1), TokenKind::RightParen, "Expect `)`."@)
    }
}

pub open spec fn sp_unary(src: Seq<char>, st: PState, fuel: int) -> PState
    decreases fuel,
{
    if fuel <= 0 {
        st
    } else {
        let op = st.prev->0.kind;
        let st1 = sp_parse_precedence(src, st, 8, fuel - 1);
        if op == TokenKind::Bang {
            sp_push_instr(st1, Instr::Not)
        } else {
            sp_push_instr(st1, Instr::Negate)
        }
    }
}

/// The infix rule: parse the right operand one level tighter, then
/// emit the operator (two instructions for the negated comparisons).
pub open spec fn sp_binary(src: Seq<char>, st: PState, fuel: int) -> PState
    decreases fuel,
{
    if fuel <= 0 {
        st
    } else {
        let op = st.prev->0.kind;
        let st1 = sp_parse_precedence(src, st, infix_level(op) + 1, fuel - 1);
        if op == TokenKind::BangEqual {
            sp_push_instr(sp_push_instr(st1, Instr::Equal), Instr::Not)
        } else if op == TokenKind::EqualEqual {
            sp_push_instr(st1, Instr::Equal)
        } else if op == TokenKind::Greater {
            sp_push_instr(st1, Instr::Greater)
        } else if op == TokenKind::GreaterEqual {
            sp_push_instr(sp_push_instr(st1, Instr::Less), Instr::Not)
        } else if op == TokenKind::Less {
            sp_push_instr(st1, Instr::Less)
        } else if op == TokenKind::LessEqual {
            sp_push_instr(sp_push_instr(st1, Instr::Greater), Instr::Not)
        } else if op == TokenKind::Plus {
            sp_push_instr(st1, Instr::Add)
        } else if op == TokenKind::Minus {
            sp_push_instr(st1, Instr::Subtract)
        } else if op == TokenKind::Star {
            sp_push_instr(st1, Instr::Multiply)
        } else if op == TokenKind::Slash {
            sp_push_instr(st1, Instr::Divide)
        } else {
            sp_push_instr(st1, Instr::Remainder)
        }
    }
}

/// Precedence climbing: one prefix rule, then infix rules while the
/// lookahead binds at least as tightly, then the stray-`=` check.
pub open spec fn sp_parse_precedence(src: Seq<char>, st: PState, prec: int, fuel: int) -> PState
    decreases fuel,
{
    if fuel <= 0 {
        st
    } else {
        let st1 = sp_advance(src, st);
        let can_assign = prec <= 1;
        let k = st1.prev->0.kind;
        if k == TokenKind::LeftParen || k == TokenKind::Minus || k == TokenKind::Bang || k
            == TokenKind::Number || k == TokenKind::Nil || k == TokenKind::True || k
            == TokenKind::False || k == TokenKind::String || k == TokenKind::Identifier {
            let st2 = if k == TokenKind::LeftParen {
                sp_grouping(src, st1, fuel - 1)
            } else if k == TokenKind::Minus || k == TokenKind::Bang {
                sp_unary(src, st1, fuel - 1)
            } else if k == TokenKind::Number {
                sp_number(st1)
            } else if k == TokenKind::Nil || k == TokenKind::True || k == TokenKind::False {
                sp_literal(st1)
            } else if k == TokenKind::String {
                sp_string(st1)
            } else {
                sp_variable(src, st1, can_assign, fuel - 1)
            };
            let st3 = sp_pp_loop(src, st2, prec, fuel - 1);
            if can_assign && (st3.cur matches Some(t) && t.kind == TokenKind::Equal) {
                let st4 = sp_advance(src, st3);
                sp_report(st4, st4.prev->0, "Invalid assignment target."@)
            } else {
                st3
            }
        } else {
            sp_report(st1, st1.prev->0, "Expect expression."@)
        }
    }
}

/// The infix loop of `parse_precedence`.
pub open spec fn sp_pp_loop(src: Seq<char>, st: PState, prec: int, fuel: int) -> PState
    decreases fuel,
{
    if fuel <= 0 {
        st
    } else if st.cur matches Some(t) && prec <= infix_level(t.kind) {
        let st1 = sp_advance(src, st);
        let st2 = sp_binary(src, st1, fuel - 1);
        sp_pp_loop(src, st2, prec, fuel - 1)
    } else {
        st
    }
}

pub open spec fn sp_expression(src: Seq<char>, st: PState, fuel: int) -> PState
    decreases fuel,
{
    if fuel <= 0 {
        st
    } else {
        sp_parse_precedence(src, st, 1, fuel - 1)
    }
}

/// Consuming a variable name and recording it as a string constant.
pub open spec fn sp_parse_variable(src: Seq<char>, st: PState, msg: Seq<char>) -> PState {
    let st1 = sp_consume(src, st, TokenKind::Identifier, msg);
    PState { consts: st1.consts.push(ValueModel::Str(st1.prev->0.span)), ..st1 }
}

/// `var name (= expr)? ;`.
pub open spec fn sp_variable_declaration(src: Seq<char>, st: PState, fuel: int) -> PState
    decreases fuel,
{
    if fuel <= 0 {
        st
    } else {
        let global = st.consts.len();
        let st2 = sp_parse_variable(src, st, "Expect variable name."@);
        if global > 0xffffff {
            sp_report(st2, st2.prev->0, "reached constant limit fo 2^24"@)
        } else {
            let st3 = if st2.cur matches Some(t) && t.kind == TokenKind::Equal {
                sp_expression(src, sp_advance(src, st2), fuel - 1)
            } else {
                sp_push_instr(st2, Instr::Nil)
            };
            let st4 = sp_consume(src, st3, TokenKind::Semicolon, "Expect `;`."@);
            sp_push_instr(st4, Instr::DefineGlobal { id: global as u32, long: global > 0xff })
        }
    }
}

pub open spec fn sp_print_statement(src: Seq<char>, st: PState, fuel: int) -> PState
    decreases fuel,
{
    if fuel <= 0 {
        st
    } else {
        sp_push_instr(
            sp_consume(src, sp_expression(src, st, fuel - 1), TokenKind::Semicolon, "Expect `;`."@),
            Instr::Print,
        )
    }
}

pub open spec fn sp_expression_statement(src: Seq<char>, st: PState, fuel: int) -> PState
    decreases fuel,
{
    if fuel <= 0 {
        st
    } else {
        sp_push_instr(
            sp_consume(src, sp_expression(src, st, fuel - 1), TokenKind::Semicolon, "Expect `;`."@),
            Instr::Pop,
        )
    }
}

pub open spec fn sp_statement(src: Seq<char>, st: PState, fuel: int) -> PState
    decreases fuel,
{
    if fuel <= 0 {
        st
    } else {
        if st.cur matches Some(t) && t.kind == TokenKind::Print {
            sp_print_statement(src, sp_advance(src, st), fuel - 1)
        } else {
            sp_expression_statement(src, st, fuel - 1)
        }
    }
}

pub open spec fn sp_declaration(src: Seq<char>, st: PState, fuel: int) -> PState
    decreases fuel,
{
    if fuel <= 0 {
        st
    } else {
        let st1 = if st.cur matches Some(t) && t.kind == TokenKind::Var {
            sp_variable_declaration(src, sp_advance(src, st), fuel - 1)
        } else {
            sp_statement(src, st, fuel - 1)
        };
        if st1.panic {
            sp_synchronize(src, st1)
        } else {
            st1
        }
    }
}

/// The top-level declaration loop.
pub open spec fn sp_decl_loop(src: Seq<char>, st: PState, fuel: int) -> PState
    decreases fuel,
{
    if fuel <= 0 {
        st
    } else if st.cur matches Some(t) && t.kind != TokenKind::Eof {
        sp_decl_loop(src, sp_declaration(src, st, fuel - 1), fuel - 1)
    } else {
        st
    }
}

/// What `compile` does to a source text: prime the lookahead, parse
/// declarations to the end, consume the end of input, and cap the
/// code with the single `Return` when no error was reported.  The
/// fuel arguments mirror the executable parser's and are ample for
/// every source, so the zero-fuel branches are never taken.
pub open spec fn sp_compile(src: Seq<char>) -> PState {
    let st0 = PState {
        pos: 0,
        line: 1,
        cur: None,
        prev: None,
        instrs: Seq::empty(),
        consts: Seq::empty(),
        diags: Seq::empty(),
        err: false,
        panic: false,
    };
    let st1 = sp_advance(src, st0);
    let st2 = sp_decl_loop(src, st1, 8 * sp_measure(src, st1) + 9);
    let st3 = sp_consume(src, st2, TokenKind::Eof, "Expect end of expression."@);
    if st3.err {
        st3
    } else {
        sp_push_instr(st3, Instr::Return)
    }
}

/// The enum levels agree with the spec-level infix table.
proof fn lemma_infix_level(k: TokenKind)
    ensures
        spec_prec(spec_rule_precedence(k)) == infix_level(k),
{
}

impl<'a> Parser<'a> {
    /// The abstract state this parser is in.
    spec fn pst(&self) -> PState {
        PState {
            pos: self.scanner.spec_current(),
            line: self.scanner.spec_line(),
            cur: match self.current {
                Some(t) => Some(SToken { kind: t.kind, span: t.span@, line: t.line as nat }),
                None => None,
            },
            prev: match self.previous {
                Some(t) => Some(SToken { kind: t.kind, span: t.span@, line: t.line as nat }),
                None => None,
            },
            instrs: self.decoded(),
            consts: self.consts(),
            diags: Seq::new(self.diagnostics@.len() as nat, |i: int| self.diagnostics@[i]@),
            err: self.had_error,
            panic: self.panic_mode,
        }
    }
}

} // verus!
