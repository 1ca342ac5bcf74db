//! Surface syntax: tokenizer, grammar and abstract syntax tree.
//!
//! A program is a sequence of whitespace-separated tokens. Each top-level
//! statement is wrapped in an opening and a closing keyword; branch arms of a
//! conditional are bare statements, and a function body is a sequence of
//! wrapped statements ending at the wrapper's closing keyword. The parser is
//! specified against a mathematical parser over the token sequence: its
//! result is exactly the value of that specification, so parsing is a pure
//! function of the source text.

use vstd::prelude::*;

use crate::bigint::{dec_val, is_ascii_digits, BigInt};

verus! {

broadcast use vstd::std_specs::vec::group_vec_axioms, vstd::seq::group_seq_axioms;

/// An arithmetic expression: a variable reference, an integer constant, or a
/// right-nested additive chain.
#[derive(Debug, PartialEq, Eq)]
pub enum Expression {
    Literal(Vec<u8>),
    Integer(BigInt),
    Add(Box<Expression>, Box<Expression>),
    Sub(Box<Expression>, Box<Expression>),
}

/// One executable unit of the language.
#[derive(Debug, PartialEq, Eq)]
pub enum Statement {
    Noop,
    ModAssign(Vec<u8>, Expression),
    Assign(Vec<u8>, Expression),
    Define(Vec<u8>),
    Call(Vec<u8>),
    Print(Vec<u8>),
    Stats,
    Condition(Vec<u8>, BigInt, Box<Statement>, Box<Statement>),
    Function(Vec<u8>, Vec<Statement>),
}

/// Mathematical model of an expression.
pub enum ExprV {
    Literal(Seq<u8>),
    Integer(int),
    Add(Box<ExprV>, Box<ExprV>),
    Sub(Box<ExprV>, Box<ExprV>),
}

/// Mathematical model of a statement.
pub enum StmtV {
    Noop,
    ModAssign(Seq<u8>, ExprV),
    Assign(Seq<u8>, ExprV),
    Define(Seq<u8>),
    Call(Seq<u8>),
    Print(Seq<u8>),
    Stats,
    Condition(Seq<u8>, int, Box<StmtV>, Box<StmtV>),
    Function(Seq<u8>, Seq<StmtV>),
}

pub open spec fn expr_view(e: Expression) -> ExprV
    decreases e,
{
    match e {
        Expression::Literal(n) => ExprV::Literal(n@),
        Expression::Integer(b) => ExprV::Integer(b@),
        Expression::Add(l, r) => ExprV::Add(Box::new(expr_view(*l)), Box::new(expr_view(*r))),
        Expression::Sub(l, r) => ExprV::Sub(Box::new(expr_view(*l)), Box::new(expr_view(*r))),
    }
}

impl View for Expression {
    type V = ExprV;

    open spec fn view(&self) -> ExprV {
        expr_view(*self)
    }
}

pub open spec fn stmt_view(s: Statement) -> StmtV
    decreases s,
{
    match s {
        Statement::Noop => StmtV::Noop,
        Statement::ModAssign(n, e) => StmtV::ModAssign(n@, expr_view(e)),
        Statement::Assign(n, e) => StmtV::Assign(n@, expr_view(e)),
        Statement::Define(n) => StmtV::Define(n@),
        Statement::Call(n) => StmtV::Call(n@),
        Statement::Print(n) => StmtV::Print(n@),
        Statement::Stats => StmtV::Stats,
        Statement::Condition(n, v, a, b) => StmtV::Condition(
            n@,
            v@,
            Box::new(stmt_view(*a)),
            Box::new(stmt_view(*b)),
        ),
        Statement::Function(n, body) => StmtV::Function(n@, stmts_view(body@)),
    }
}

/// The models of a sequence of statements, elementwise.
pub open spec fn stmts_view(ss: Seq<Statement>) -> Seq<StmtV>
    decreases ss,
{
    if ss.len() == 0 {
        Seq::empty()
    } else {
        stmts_view(ss.subrange(0, ss.len() - 1)).push(stmt_view(ss[ss.len() - 1]))
    }
}

pub proof fn lemma_stmts_view(ss: Seq<Statement>)
    ensures
        stmts_view(ss).len() == ss.len(),
        forall|k: int| 0 <= k < ss.len() ==> #[trigger] stmts_view(ss)[k] == stmt_view(ss[k]),
    decreases ss.len(),
{
    if ss.len() > 0 {
        lemma_stmts_view(ss.subrange(0, ss.len() - 1));
    }
}

impl View for Statement {
    type V = StmtV;

    open spec fn view(&self) -> StmtV {
        stmt_view(*self)
    }
}

/// The grammar rule that failed to match.
#[derive(Debug, PartialEq, Eq, Structural, Clone, Copy)]
pub enum Expected {
    Statement,
    Identifier,
    Number,
    NumberOrIdentifier,
    KeywordTada,
    KeywordIli,
    KeywordEto,
    KeywordYoba,
    KeywordNahuj,
    KeywordCho,
}

/// A syntax error: the byte offset where matching failed and the rule that
/// was expected there.
#[derive(Debug, PartialEq, Eq, Structural, Clone, Copy)]
pub struct SyntaxError {
    pub offset: usize,
    pub expected: Expected,
}

pub open spec fn serr(off: int, e: Expected) -> SyntaxError {
    SyntaxError { offset: off as usize, expected: e }
}

// ------------------------------------------------------------------
// Tokenizer
// ------------------------------------------------------------------

/// A token: its byte offset in the source and its bytes.
pub struct Token {
    pub off: usize,
    pub bytes: Vec<u8>,
}

impl View for Token {
    type V = (int, Seq<u8>);

    open spec fn view(&self) -> (int, Seq<u8>) {
        (self.off as int, self.bytes@)
    }
}

pub open spec fn toks_view(t: Seq<Token>) -> Seq<(int, Seq<u8>)> {
    t.map_values(|tk: Token| tk@)
}

pub open spec fn is_ws(b: u8) -> bool {
    b == 32 || b == 10 || b == 9 || b == 13
}

/// First index at or after `i` holding whitespace, or the end of the input.
pub open spec fn word_end(s: Seq<u8>, i: int) -> int
    decreases s.len() - i when 0 <= i <= s.len()
{
    if i >= s.len() || is_ws(s[i]) {
        i
    } else {
        word_end(s, i + 1)
    }
}

/// The tokens of the input from position `i` on, each with its offset.
pub open spec fn sp_toks(s: Seq<u8>, i: int) -> Seq<(int, Seq<u8>)>
    decreases s.len() - i when 0 <= i <= s.len()
{
    if i >= s.len() {
        Seq::empty()
    } else if is_ws(s[i]) {
        sp_toks(s, i + 1)
    } else {
        let j = word_end(s, i);
        let j2 = if i < j && j <= s.len() {
            j
        } else {
            i + 1
        };
        seq![(i, s.subrange(i, j2))] + sp_toks(s, j2)
    }
}

fn tokenize(data: &[u8]) -> (r: Vec<Token>)
    ensures
        toks_view(r@) == sp_toks(data@, 0),
{
    let n = data.len();
    let mut r: Vec<Token> = Vec::new();
    let mut i: usize = 0;
    while i < n
        invariant
            n == data@.len(),
            i <= n,
            sp_toks(data@, 0) == toks_view(r@) + sp_toks(data@, i as int),
        decreases n - i,
    {
        let b = data[i];
        if b == 32 || b == 10 || b == 9 || b == 13 {
            proof {
                assert(sp_toks(data@, i as int) == sp_toks(data@, i + 1));
            }
            i += 1;
        } else {
            let off = i;
            let mut word: Vec<u8> = Vec::new();
            let mut j: usize = i;
            while j < n && !(data[j] == 32 || data[j] == 10 || data[j] == 9 || data[j] == 13)
                invariant
                    n == data@.len(),
                    i <= j <= n,
                    word_end(data@, i as int) == word_end(data@, j as int),
                    word@ == data@.subrange(i as int, j as int),
                decreases n - j,
            {
                word.push(data[j]);
                proof {
                    assert(data@.subrange(i as int, j + 1) =~= data@.subrange(
                        i as int,
                        j as int,
                    ).push(data@[j as int]));
                }
                j += 1;
            }
            proof {
                assert(word_end(data@, j as int) == j);
                assert(sp_toks(data@, i as int) == seq![(i as int, data@.subrange(i as int, j as int))]
                    + sp_toks(data@, j as int));
            }
            r.push(Token { off, bytes: word });
            proof {
                assert(toks_view(r@) =~= toks_view(r@.drop_last()) + seq![r@.last()@]);
                assert(toks_view(r@) + sp_toks(data@, j as int) =~= sp_toks(data@, 0));
            }
            i = j;
        }
    }
    proof {
        assert(sp_toks(data@, n as int) =~= Seq::<(int, Seq<u8>)>::empty());
        assert(toks_view(r@) + sp_toks(data@, n as int) =~= toks_view(r@));
    }
    r
}

// ------------------------------------------------------------------
// Token classification
// ------------------------------------------------------------------

#[derive(Debug, PartialEq, Eq, Structural, Clone, Copy)]
pub enum TokKind {
    Cho,
    Yoba,
    Est,
    Tada,
    Ili,
    Useki,
    Eto,
    Pokazh,
    Idi,
    Nahuj,
    Lyublyu,
    Hujni,
    Plus,
    Minus,
    Give,
    Take,
    Stats,
    Int,
    Ident,
}

pub open spec fn kw_cho() -> Seq<u8> {
    seq![0xd1u8, 0x87u8, 0xd0u8, 0xbeu8]
}

pub open spec fn kw_yoba() -> Seq<u8> {
    seq![0xd0u8, 0xb9u8, 0xd0u8, 0xbeu8, 0xd0u8, 0xb1u8, 0xd0u8, 0xb0u8]
}

pub open spec fn kw_est() -> Seq<u8> {
    seq![0xd0u8, 0xb5u8, 0xd1u8, 0x81u8, 0xd1u8, 0x82u8, 0xd1u8, 0x8cu8]
}

pub open spec fn kw_tada() -> Seq<u8> {
    seq![0xd1u8, 0x82u8, 0xd0u8, 0xb0u8, 0xd0u8, 0xb4u8, 0xd0u8, 0xb0u8]
}

pub open spec fn kw_ili() -> Seq<u8> {
    seq![0xd0u8, 0xb8u8, 0xd0u8, 0xbbu8, 0xd0u8, 0xb8u8]
}

pub open spec fn kw_useki() -> Seq<u8> {
    seq![0xd1u8, 0x83u8, 0xd1u8, 0x81u8, 0xd0u8, 0xb5u8, 0xd0u8, 0xbau8, 0xd0u8, 0xb8u8]
}

pub open spec fn kw_eto() -> Seq<u8> {
    seq![0xd1u8, 0x8du8, 0xd1u8, 0x82u8, 0xd0u8, 0xbeu8]
}

pub open spec fn kw_pokazh() -> Seq<u8> {
    seq![0xd0u8, 0xbfu8, 0xd0u8, 0xbeu8, 0xd0u8, 0xbau8, 0xd0u8, 0xb0u8, 0xd0u8, 0xb6u8, 0xd1u8, 0x8cu8]
}

pub open spec fn kw_idi() -> Seq<u8> {
    seq![0xd0u8, 0xb8u8, 0xd0u8, 0xb4u8, 0xd0u8, 0xb8u8]
}

pub open spec fn kw_nahuj() -> Seq<u8> {
    seq![0xd0u8, 0xbdu8, 0xd0u8, 0xb0u8, 0xd1u8, 0x85u8, 0xd1u8, 0x83u8, 0xd0u8, 0xb9u8]
}

pub open spec fn kw_lyublyu() -> Seq<u8> {
    seq![0xd0u8, 0xbbu8, 0xd1u8, 0x8eu8, 0xd0u8, 0xb1u8, 0xd0u8, 0xbbu8, 0xd1u8, 0x8eu8]
}

pub open spec fn kw_hujni() -> Seq<u8> {
    seq![0xd1u8, 0x85u8, 0xd1u8, 0x83u8, 0xd0u8, 0xb9u8, 0xd0u8, 0xbdu8, 0xd0u8, 0xb8u8]
}

pub open spec fn kw_plus() -> Seq<u8> {
    seq![0xd0u8, 0xb8u8]
}

pub open spec fn kw_minus() -> Seq<u8> {
    seq![0xd0u8, 0xb1u8, 0xd0u8, 0xb5u8, 0xd0u8, 0xb7u8]
}

pub open spec fn kw_give() -> Seq<u8> {
    seq![0xd0u8, 0xbdu8, 0xd0u8, 0xb0u8, 0xd0u8, 0xbau8, 0xd0u8, 0xb8u8, 0xd0u8, 0xbdu8, 0xd1u8, 0x8cu8]
}

pub open spec fn kw_take() -> Seq<u8> {
    seq![0xd0u8, 0xbeu8, 0xd1u8, 0x82u8, 0xd1u8, 0x81u8, 0xd1u8, 0x8bu8, 0xd0u8, 0xbfu8, 0xd1u8, 0x8cu8]
}

pub open spec fn kw_stats() -> Seq<u8> {
    seq![0xd1u8, 0x87u8, 0xd0u8, 0xbeu8, 0xd0u8, 0xbau8, 0xd0u8, 0xb0u8, 0xd0u8, 0xb2u8, 0xd0u8, 0xbeu8]
}

pub open spec fn spec_classify(b: Seq<u8>) -> TokKind {
    if b == kw_cho() {
        TokKind::Cho
    } else if b == kw_yoba() {
        TokKind::Yoba
    } else if b == kw_est() {
        TokKind::Est
    } else if b == kw_tada() {
        TokKind::Tada
    } else if b == kw_ili() {
        TokKind::Ili
    } else if b == kw_useki() {
        TokKind::Useki
    } else if b == kw_eto() {
        TokKind::Eto
    } else if b == kw_pokazh() {
        TokKind::Pokazh
    } else if b == kw_idi() {
        TokKind::Idi
    } else if b == kw_nahuj() {
        TokKind::Nahuj
    } else if b == kw_lyublyu() {
        TokKind::Lyublyu
    } else if b == kw_hujni() {
        TokKind::Hujni
    } else if b == kw_plus() {
        TokKind::Plus
    } else if b == kw_minus() {
        TokKind::Minus
    } else if b == kw_give() {
        TokKind::Give
    } else if b == kw_take() {
        TokKind::Take
    } else if b == kw_stats() {
        TokKind::Stats
    } else if is_ascii_digits(b) {
        TokKind::Int
    } else {
        TokKind::Ident
    }
}

fn is_digits_tok(t: &Vec<u8>) -> (r: bool)
    ensures
        r == is_ascii_digits(t@),
{
    if t.len() == 0 {
        return false;
    }
    let mut i: usize = 0;
    while i < t.len()
        invariant
            i <= t@.len(),
            forall|k: int| 0 <= k < i ==> 48 <= #[trigger] t@[k] <= 57,
        decreases t@.len() - i,
    {
        let b = t[i];
        if b < 48 || b > 57 {
            return false;
        }
        i += 1;
    }
    true
}

#[verifier::rlimit(40)]
fn classify(t: &Vec<u8>) -> (k: TokKind)
    ensures
        k == spec_classify(t@),
{
    let n = t.len();
    if n == 4 && t[0] == 0xd1 && t[1] == 0x87 && t[2] == 0xd0 && t[3] == 0xbe {
        proof {
            assert(t@ =~= kw_cho());
        }
        return TokKind::Cho;
    }
    if n == 8 && t[0] == 0xd0 && t[1] == 0xb9 && t[2] == 0xd0 && t[3] == 0xbe && t[4] == 0xd0
        && t[5] == 0xb1 && t[6] == 0xd0 && t[7] == 0xb0 {
        proof {
            assert(t@ =~= kw_yoba());
        }
        return TokKind::Yoba;
    }
    if n == 8 && t[0] == 0xd0 && t[1] == 0xb5 && t[2] == 0xd1 && t[3] == 0x81 && t[4] == 0xd1
        && t[5] == 0x82 && t[6] == 0xd1 && t[7] == 0x8c {
        proof {
            assert(t@ =~= kw_est());
        }
        return TokKind::Est;
    }
    if n == 8 && t[0] == 0xd1 && t[1] == 0x82 && t[2] == 0xd0 && t[3] == 0xb0 && t[4] == 0xd0
        && t[5] == 0xb4 && t[6] == 0xd0 && t[7] == 0xb0 {
        proof {
            assert(t@ =~= kw_tada());
        }
        return TokKind::Tada;
    }
    if n == 6 && t[0] == 0xd0 && t[1] == 0xb8 && t[2] == 0xd0 && t[3] == 0xbb && t[4] == 0xd0
        && t[5] == 0xb8 {
        proof {
            assert(t@ =~= kw_ili());
        }
        return TokKind::Ili;
    }
    if n == 10 && t[0] == 0xd1 && t[1] == 0x83 && t[2] == 0xd1 && t[3] == 0x81 && t[4] == 0xd0
        && t[5] == 0xb5 && t[6] == 0xd0 && t[7] == 0xba && t[8] == 0xd0 && t[9] == 0xb8 {
        proof {
            assert(t@ =~= kw_useki());
        }
        return TokKind::Useki;
    }
    if n == 6 && t[0] == 0xd1 && t[1] == 0x8d && t[2] == 0xd1 && t[3] == 0x82 && t[4] == 0xd0
        && t[5] == 0xbe {
        proof {
            assert(t@ =~= kw_eto());
        }
        return TokKind::Eto;
    }
    if n == 12 && t[0] == 0xd0 && t[1] == 0xbf && t[2] == 0xd0 && t[3] == 0xbe && t[4] == 0xd0
        && t[5] == 0xba && t[6] == 0xd0 && t[7] == 0xb0 && t[8] == 0xd0 && t[9] == 0xb6
        && t[10] == 0xd1 && t[11] == 0x8c {
        proof {
            assert(t@ =~= kw_pokazh());
        }
        return TokKind::Pokazh;
    }
    if n == 6 && t[0] == 0xd0 && t[1] == 0xb8 && t[2] == 0xd0 && t[3] == 0xb4 && t[4] == 0xd0
        && t[5] == 0xb8 {
        proof {
            assert(t@ =~= kw_idi());
        }
        return TokKind::Idi;
    }
    if n == 10 && t[0] == 0xd0 && t[1] == 0xbd && t[2] == 0xd0 && t[3] == 0xb0 && t[4] == 0xd1
        && t[5] == 0x85 && t[6] == 0xd1 && t[7] == 0x83 && t[8] == 0xd0 && t[9] == 0xb9 {
        proof {
            assert(t@ =~= kw_nahuj());
        }
        return TokKind::Nahuj;
    }
    if n == 10 && t[0] == 0xd0 && t[1] == 0xbb && t[2] == 0xd1 && t[3] == 0x8e && t[4] == 0xd0
        && t[5] == 0xb1 && t[6] == 0xd0 && t[7] == 0xbb && t[8] == 0xd1 && t[9] == 0x8e {
        proof {
            assert(t@ =~= kw_lyublyu());
        }
        return TokKind::Lyublyu;
    }
    if n == 10 && t[0] == 0xd1 && t[1] == 0x85 && t[2] == 0xd1 && t[3] == 0x83 && t[4] == 0xd0
        && t[5] == 0xb9 && t[6] == 0xd0 && t[7] == 0xbd && t[8] == 0xd0 && t[9] == 0xb8 {
        proof {
            assert(t@ =~= kw_hujni());
        }
        return TokKind::Hujni;
    }
    if n == 2 && t[0] == 0xd0 && t[1] == 0xb8 {
        proof {
            assert(t@ =~= kw_plus());
        }
        return TokKind::Plus;
    }
    if n == 6 && t[0] == 0xd0 && t[1] == 0xb1 && t[2] == 0xd0 && t[3] == 0xb5 && t[4] == 0xd0
        && t[5] == 0xb7 {
        proof {
            assert(t@ =~= kw_minus());
        }
        return TokKind::Minus;
    }
    if n == 12 && t[0] == 0xd0 && t[1] == 0xbd && t[2] == 0xd0 && t[3] == 0xb0 && t[4] == 0xd0
        && t[5] == 0xba && t[6] == 0xd0 && t[7] == 0xb8 && t[8] == 0xd0 && t[9] == 0xbd
        && t[10] == 0xd1 && t[11] == 0x8c {
        proof {
            assert(t@ =~= kw_give());
        }
        return TokKind::Give;
    }
    if n == 12 && t[0] == 0xd0 && t[1] == 0xbe && t[2] == 0xd1 && t[3] == 0x82 && t[4] == 0xd1
        && t[5] == 0x81 && t[6] == 0xd1 && t[7] == 0x8b && t[8] == 0xd0 && t[9] == 0xbf
        && t[10] == 0xd1 && t[11] == 0x8c {
        proof {
            assert(t@ =~= kw_take());
        }
        return TokKind::Take;
    }
    if n == 12 && t[0] == 0xd1 && t[1] == 0x87 && t[2] == 0xd0 && t[3] == 0xbe && t[4] == 0xd0
        && t[5] == 0xba && t[6] == 0xd0 && t[7] == 0xb0 && t[8] == 0xd0 && t[9] == 0xb2
        && t[10] == 0xd0 && t[11] == 0xbe {
        proof {
            assert(t@ =~= kw_stats());
        }
        return TokKind::Stats;
    }
    if is_digits_tok(t) {
        return TokKind::Int;
    }
    TokKind::Ident
}

// ------------------------------------------------------------------
// Parser specification
// ------------------------------------------------------------------

/// Clamp a parser's next position so that it strictly advances and stays in
/// range; the executable parser only reaches it with positions that already
/// do both.
pub open spec fn next_at(tl: int, i: int, j: int) -> int {
    let k = if j > i {
        j
    } else {
        i + 1
    };
    if k > tl {
        tl
    } else {
        k
    }
}

pub open spec fn sp_expect(
    t: Seq<(int, Seq<u8>)>,
    end: int,
    i: int,
    k: TokKind,
    exp: Expected,
) -> Result<int, SyntaxError> {
    if i >= t.len() {
        Err(serr(end, exp))
    } else if spec_classify(t[i].1) == k {
        Ok(i + 1)
    } else {
        Err(serr(t[i].0, exp))
    }
}

pub open spec fn sp_ident(t: Seq<(int, Seq<u8>)>, end: int, i: int) -> Result<
    (Seq<u8>, int),
    SyntaxError,
> {
    if i >= t.len() {
        Err(serr(end, Expected::Identifier))
    } else if spec_classify(t[i].1) == TokKind::Ident {
        Ok((t[i].1, i + 1))
    } else {
        Err(serr(t[i].0, Expected::Identifier))
    }
}

/// An identifier/integer pair in either surface order, normalized to
/// (identifier, integer).
pub open spec fn sp_pair(t: Seq<(int, Seq<u8>)>, end: int, i: int) -> Result<
    ((Seq<u8>, int), int),
    SyntaxError,
> {
    if i >= t.len() {
        Err(serr(end, Expected::NumberOrIdentifier))
    } else if spec_classify(t[i].1) == TokKind::Int {
        if i + 1 >= t.len() {
            Err(serr(end, Expected::Identifier))
        } else if spec_classify(t[i + 1].1) == TokKind::Ident {
            Ok(((t[i + 1].1, dec_val(t[i].1)), i + 2))
        } else {
            Err(serr(t[i + 1].0, Expected::Identifier))
        }
    } else if spec_classify(t[i].1) == TokKind::Ident {
        if i + 1 >= t.len() {
            Err(serr(end, Expected::Number))
        } else if spec_classify(t[i + 1].1) == TokKind::Int {
            Ok(((t[i].1, dec_val(t[i + 1].1)), i + 2))
        } else {
            Err(serr(t[i + 1].0, Expected::Number))
        }
    } else {
        Err(serr(t[i].0, Expected::NumberOrIdentifier))
    }
}

/// An operand optionally followed by an additive operator and a recursively
/// parsed expression, yielding a right-nested chain.
pub open spec fn sp_expr(t: Seq<(int, Seq<u8>)>, end: int, i: int) -> Result<
    (ExprV, int),
    SyntaxError,
>
    decreases t.len() - i when 0 <= i <= t.len()
{
    if i >= t.len() {
        Err(serr(end, Expected::NumberOrIdentifier))
    } else {
        let k = spec_classify(t[i].1);
        if k == TokKind::Int || k == TokKind::Ident {
            let operand = if k == TokKind::Int {
                ExprV::Integer(dec_val(t[i].1))
            } else {
                ExprV::Literal(t[i].1)
            };
            if i + 1 < t.len() && spec_classify(t[i + 1].1) == TokKind::Plus {
                match sp_expr(t, end, next_at(t.len() as int, i, i + 2)) {
                    Ok((r, j)) => Ok((ExprV::Add(Box::new(operand), Box::new(r)), j)),
                    Err(e) => Err(e),
                }
            } else if i + 1 < t.len() && spec_classify(t[i + 1].1) == TokKind::Minus {
                match sp_expr(t, end, next_at(t.len() as int, i, i + 2)) {
                    Ok((r, j)) => Ok((ExprV::Sub(Box::new(operand), Box::new(r)), j)),
                    Err(e) => Err(e),
                }
            } else {
                Ok((operand, i + 1))
            }
        } else {
            Err(serr(t[i].0, Expected::NumberOrIdentifier))
        }
    }
}

/// One bare statement starting at token `i`.
pub open spec fn sp_stmt(t: Seq<(int, Seq<u8>)>, end: int, i: int) -> Result<
    (StmtV, int),
    SyntaxError,
>
    decreases t.len() - i, 1int when 0 <= i <= t.len()
{
    if i >= t.len() {
        Err(serr(end, Expected::Statement))
    } else {
        let off = t[i].0;
        let b = t[i].1;
        let tl = t.len() as int;
        match spec_classify(b) {
            TokKind::Idi => match sp_expect(t, end, i + 1, TokKind::Nahuj, Expected::KeywordNahuj) {
                Ok(j) => Ok((StmtV::Noop, j)),
                Err(e) => Err(e),
            },
            TokKind::Stats => Ok((StmtV::Stats, i + 1)),
            TokKind::Lyublyu => match sp_ident(t, end, i + 1) {
                Ok((n, j)) => Ok((StmtV::Define(n), j)),
                Err(e) => Err(e),
            },
            TokKind::Hujni => match sp_ident(t, end, i + 1) {
                Ok((n, j)) => Ok((StmtV::Call(n), j)),
                Err(e) => Err(e),
            },
            TokKind::Pokazh => match sp_ident(t, end, i + 1) {
                Ok((n, j)) => Ok((StmtV::Print(n), j)),
                Err(e) => Err(e),
            },
            TokKind::Ident => match sp_expect(t, end, i + 1, TokKind::Eto, Expected::KeywordEto) {
                Ok(j) => match sp_expr(t, end, next_at(tl, i, j)) {
                    Ok((e, j2)) => Ok((StmtV::Assign(b, e), j2)),
                    Err(e) => Err(e),
                },
                Err(e) => Err(e),
            },
            TokKind::Give => match sp_pair(t, end, i + 1) {
                Ok(((x, v), j)) => Ok((StmtV::ModAssign(x, ExprV::Integer(v)), j)),
                Err(e) => Err(e),
            },
            TokKind::Take => match sp_pair(t, end, i + 1) {
                Ok(((x, v), j)) => Ok((StmtV::ModAssign(x, ExprV::Integer(-v)), j)),
                Err(e) => Err(e),
            },
            TokKind::Est => match sp_pair(t, end, i + 1) {
                Ok(((x, v), j)) => match sp_expect(t, end, j, TokKind::Tada, Expected::KeywordTada) {
                    Ok(j1) => match sp_stmt(t, end, next_at(tl, i, j1)) {
                        Ok((s1, j2)) => match sp_expect(t, end, j2, TokKind::Ili, Expected::KeywordIli) {
                            Ok(j3) => match sp_stmt(t, end, next_at(tl, i, j3)) {
                                Ok((s2, j4)) => Ok((
                                    StmtV::Condition(x, v, Box::new(s1), Box::new(s2)),
                                    j4,
                                )),
                                Err(e) => Err(e),
                            },
                            Err(e) => Err(e),
                        },
                        Err(e) => Err(e),
                    },
                    Err(e) => Err(e),
                },
                Err(e) => Err(e),
            },
            TokKind::Useki => match sp_ident(t, end, i + 1) {
                Ok((n, j)) => match sp_expect(t, end, j, TokKind::Eto, Expected::KeywordEto) {
                    Ok(j1) => match sp_body(t, end, next_at(tl, i, j1)) {
                        Ok((ss, j2)) => Ok((StmtV::Function(n, ss), j2)),
                        Err(e) => Err(e),
                    },
                    Err(e) => Err(e),
                },
                Err(e) => Err(e),
            },
            _ => Err(serr(off, Expected::Statement)),
        }
    }
}

/// A sequence of wrapped statements; it ends at the first token that does not
/// open a statement.
pub open spec fn sp_body(t: Seq<(int, Seq<u8>)>, end: int, i: int) -> Result<
    (Seq<StmtV>, int),
    SyntaxError,
>
    decreases t.len() - i, 2int when 0 <= i <= t.len()
{
    if i < t.len() && spec_classify(t[i].1) == TokKind::Cho {
        let tl = t.len() as int;
        match sp_stmt(t, end, next_at(tl, i, i + 1)) {
            Ok((s, j)) => match sp_expect(t, end, j, TokKind::Yoba, Expected::KeywordYoba) {
                Ok(j1) => match sp_body(t, end, next_at(tl, i, j1)) {
                    Ok((ss, k)) => Ok((seq![s] + ss, k)),
                    Err(e) => Err(e),
                },
                Err(e) => Err(e),
            },
            Err(e) => Err(e),
        }
    } else {
        Ok((Seq::empty(), i))
    }
}

/// The whole program: wrapped statements covering every token.
pub open spec fn sp_program(t: Seq<(int, Seq<u8>)>, end: int) -> Result<Seq<StmtV>, SyntaxError> {
    match sp_body(t, end, 0) {
        Ok((ss, j)) => if j == t.len() {
            Ok(ss)
        } else {
            Err(serr(t[j].0, Expected::KeywordCho))
        },
        Err(e) => Err(e),
    }
}

/// What parsing the given source text yields: the program's model, or the
/// first syntax error.
pub open spec fn sp_parse(data: Seq<u8>) -> Result<Seq<StmtV>, SyntaxError> {
    sp_program(sp_toks(data, 0), data.len() as int)
}

// ------------------------------------------------------------------
// Executable parser
// ------------------------------------------------------------------

pub open spec fn expr_res_view(r: Result<(Expression, usize), SyntaxError>) -> Result<
    (ExprV, int),
    SyntaxError,
> {
    match r {
        Ok((e, j)) => Ok((expr_view(e), j as int)),
        Err(e) => Err(e),
    }
}

pub open spec fn stmt_res_view(r: Result<(Statement, usize), SyntaxError>) -> Result<
    (StmtV, int),
    SyntaxError,
> {
    match r {
        Ok((s, j)) => Ok((stmt_view(s), j as int)),
        Err(e) => Err(e),
    }
}

pub open spec fn body_res_view(r: Result<(Vec<Statement>, usize), SyntaxError>) -> Result<
    (Seq<StmtV>, int),
    SyntaxError,
> {
    match r {
        Ok((ss, j)) => Ok((stmts_view(ss@), j as int)),
        Err(e) => Err(e),
    }
}

pub open spec fn pair_res_view(r: Result<((Vec<u8>, BigInt), usize), SyntaxError>) -> Result<
    ((Seq<u8>, int), int),
    SyntaxError,
> {
    match r {
        Ok(((x, v), j)) => Ok(((x@, v@), j as int)),
        Err(e) => Err(e),
    }
}

pub open spec fn prog_res_view(r: Result<Vec<Statement>, SyntaxError>) -> Result<
    Seq<StmtV>,
    SyntaxError,
> {
    match r {
        Ok(ss) => Ok(stmts_view(ss@)),
        Err(e) => Err(e),
    }
}

fn expect_kw(t: &Vec<Token>, end: usize, i: usize, k: TokKind, exp: Expected) -> (r: Result<
    usize,
    SyntaxError,
>)
    requires
        i <= t@.len(),
    ensures
        r matches Ok(j) ==> i < j <= t@.len() && sp_expect(toks_view(t@), end as int, i as int, k, exp)
            == Ok::<int, SyntaxError>(j as int),
        r matches Err(e) ==> sp_expect(toks_view(t@), end as int, i as int, k, exp) == Err::<
            int,
            SyntaxError,
        >(e),
{
    if i >= t.len() {
        return Err(SyntaxError { offset: end, expected: exp });
    }
    let tok = &t[i];
    proof {
        assert(toks_view(t@)[i as int] == t@[i as int]@);
    }
    if classify(&tok.bytes) == k {
        Ok(i + 1)
    } else {
        Err(SyntaxError { offset: tok.off, expected: exp })
    }
}

fn expect_ident(t: &Vec<Token>, end: usize, i: usize) -> (r: Result<(Vec<u8>, usize), SyntaxError>)
    requires
        i <= t@.len(),
    ensures
        r matches Ok((n, j)) ==> i < j <= t@.len() && sp_ident(toks_view(t@), end as int, i as int)
            == Ok::<(Seq<u8>, int), SyntaxError>((n@, j as int)),
        r matches Err(e) ==> sp_ident(toks_view(t@), end as int, i as int) == Err::<
            (Seq<u8>, int),
            SyntaxError,
        >(e),
{
    if i >= t.len() {
        return Err(SyntaxError { offset: end, expected: Expected::Identifier });
    }
    let tok = &t[i];
    proof {
        assert(toks_view(t@)[i as int] == t@[i as int]@);
    }
    if classify(&tok.bytes) == TokKind::Ident {
        Ok((crate::bigint::copy_bytes(&tok.bytes), i + 1))
    } else {
        Err(SyntaxError { offset: tok.off, expected: Expected::Identifier })
    }
}

/// Normalize the two surface orders of an identifier/integer pair into
/// (identifier, integer).
fn parse_int_var_pair(t: &Vec<Token>, end: usize, i: usize) -> (r: Result<
    ((Vec<u8>, BigInt), usize),
    SyntaxError,
>)
    requires
        i <= t@.len(),
    ensures
        r matches Ok((_, j)) ==> i < j <= t@.len(),
        pair_res_view(r) == sp_pair(toks_view(t@), end as int, i as int),
{
    if i >= t.len() {
        return Err(SyntaxError { offset: end, expected: Expected::NumberOrIdentifier });
    }
    let tok = &t[i];
    proof {
        assert(toks_view(t@)[i as int] == t@[i as int]@);
    }
    let k = classify(&tok.bytes);
    if matches!(k, TokKind::Int) {
        if i + 1 >= t.len() {
            return Err(SyntaxError { offset: end, expected: Expected::Identifier });
        }
        let tok2 = &t[i + 1];
        proof {
            assert(toks_view(t@)[i + 1] == t@[i + 1]@);
        }
        if classify(&tok2.bytes) == TokKind::Ident {
            let v = BigInt::from_decimal(&tok.bytes);
            Ok(((crate::bigint::copy_bytes(&tok2.bytes), v), i + 2))
        } else {
            Err(SyntaxError { offset: tok2.off, expected: Expected::Identifier })
        }
    } else if matches!(k, TokKind::Ident) {
        if i + 1 >= t.len() {
            return Err(SyntaxError { offset: end, expected: Expected::Number });
        }
        let tok2 = &t[i + 1];
        proof {
            assert(toks_view(t@)[i + 1] == t@[i + 1]@);
        }
        if classify(&tok2.bytes) == TokKind::Int {
            let v = BigInt::from_decimal(&tok2.bytes);
            Ok(((crate::bigint::copy_bytes(&tok.bytes), v), i + 2))
        } else {
            Err(SyntaxError { offset: tok2.off, expected: Expected::Number })
        }
    } else {
        Err(SyntaxError { offset: tok.off, expected: Expected::NumberOrIdentifier })
    }
}

/// Parse a right-nested additive expression chain.
fn parse_arithmetics(t: &Vec<Token>, end: usize, i: usize) -> (r: Result<
    (Expression, usize),
    SyntaxError,
>)
    requires
        i <= t@.len(),
    ensures
        r matches Ok((_, j)) ==> i < j <= t@.len(),
        expr_res_view(r) == sp_expr(toks_view(t@), end as int, i as int),
    decreases t@.len() - i,
{
    if i >= t.len() {
        return Err(SyntaxError { offset: end, expected: Expected::NumberOrIdentifier });
    }
    let tok = &t[i];
    proof {
        assert(toks_view(t@)[i as int] == t@[i as int]@);
    }
    let k = classify(&tok.bytes);
    if matches!(k, TokKind::Int) || matches!(k, TokKind::Ident) {
        let operand = if matches!(k, TokKind::Int) {
            Expression::Integer(BigInt::from_decimal(&tok.bytes))
        } else {
            Expression::Literal(crate::bigint::copy_bytes(&tok.bytes))
        };
        let ghost ov = expr_view(operand);
        proof {
            let tv = toks_view(t@);
            assert(ov == if spec_classify(tv[i as int].1) == TokKind::Int {
                ExprV::Integer(dec_val(tv[i as int].1))
            } else {
                ExprV::Literal(tv[i as int].1)
            });
        }
        let mut op_kind: Option<bool> = None;
        if i + 1 < t.len() {
            let tok2 = &t[i + 1];
            proof {
                assert(toks_view(t@)[i + 1] == t@[i + 1]@);
            }
            let k2 = classify(&tok2.bytes);
            if matches!(k2, TokKind::Plus) {
                op_kind = Some(true);
            } else if matches!(k2, TokKind::Minus) {
                op_kind = Some(false);
            }
        }
        match op_kind {
            Some(is_add) => {
                match parse_arithmetics(t, end, i + 2) {
                    Ok((rhs, j)) => {
                        let ghost rv = expr_view(rhs);
                        if is_add {
                            let res = Expression::Add(Box::new(operand), Box::new(rhs));
                            proof {
                                assert(expr_view(res) == ExprV::Add(Box::new(ov), Box::new(rv)));
                            }
                            Ok((res, j))
                        } else {
                            let res = Expression::Sub(Box::new(operand), Box::new(rhs));
                            proof {
                                assert(expr_view(res) == ExprV::Sub(Box::new(ov), Box::new(rv)));
                            }
                            Ok((res, j))
                        }
                    },
                    Err(e) => Err(e),
                }
            },
            None => Ok((operand, i + 1)),
        }
    } else {
        Err(SyntaxError { offset: tok.off, expected: Expected::NumberOrIdentifier })
    }
}

/// Parse one bare statement.
#[verifier::rlimit(60)]
fn parse_stmt(t: &Vec<Token>, end: usize, i: usize) -> (r: Result<(Statement, usize), SyntaxError>)
    requires
        i <= t@.len(),
    ensures
        r matches Ok((_, j)) ==> i < j <= t@.len(),
        stmt_res_view(r) == sp_stmt(toks_view(t@), end as int, i as int),
    decreases t@.len() - i, 1int,
{
    if i >= t.len() {
        return Err(SyntaxError { offset: end, expected: Expected::Statement });
    }
    let tok = &t[i];
    proof {
        assert(toks_view(t@)[i as int] == t@[i as int]@);
    }
    let k = classify(&tok.bytes);
    match k {
        TokKind::Idi => {
            match expect_kw(t, end, i + 1, TokKind::Nahuj, Expected::KeywordNahuj) {
                Ok(j) => Ok((Statement::Noop, j)),
                Err(e) => Err(e),
            }
        },
        TokKind::Stats => Ok((Statement::Stats, i + 1)),
        TokKind::Lyublyu => {
            match expect_ident(t, end, i + 1) {
                Ok((n, j)) => Ok((Statement::Define(n), j)),
                Err(e) => Err(e),
            }
        },
        TokKind::Hujni => {
            match expect_ident(t, end, i + 1) {
                Ok((n, j)) => Ok((Statement::Call(n), j)),
                Err(e) => Err(e),
            }
        },
        TokKind::Pokazh => {
            match expect_ident(t, end, i + 1) {
                Ok((n, j)) => Ok((Statement::Print(n), j)),
                Err(e) => Err(e),
            }
        },
        TokKind::Ident => {
            match expect_kw(t, end, i + 1, TokKind::Eto, Expected::KeywordEto) {
                Ok(j) => {
                    match parse_arithmetics(t, end, j) {
                        Ok((e, j2)) => Ok((
                            Statement::Assign(crate::bigint::copy_bytes(&tok.bytes), e),
                            j2,
                        )),
                        Err(e) => Err(e),
                    }
                },
                Err(e) => Err(e),
            }
        },
        TokKind::Give => {
            match parse_int_var_pair(t, end, i + 1) {
                Ok(((x, v), j)) => Ok((Statement::ModAssign(x, Expression::Integer(v)), j)),
                Err(e) => Err(e),
            }
        },
        TokKind::Take => {
            match parse_int_var_pair(t, end, i + 1) {
                Ok(((x, v), j)) => Ok((
                    Statement::ModAssign(x, Expression::Integer(v.negated())),
                    j,
                )),
                Err(e) => Err(e),
            }
        },
        TokKind::Est => {
            match parse_int_var_pair(t, end, i + 1) {
                Ok(((x, v), j)) => {
                    match expect_kw(t, end, j, TokKind::Tada, Expected::KeywordTada) {
                        Ok(j1) => {
                            match parse_stmt(t, end, j1) {
                                Ok((s1, j2)) => {
                                    match expect_kw(t, end, j2, TokKind::Ili, Expected::KeywordIli) {
                                        Ok(j3) => {
                                            match parse_stmt(t, end, j3) {
                                                Ok((s2, j4)) => Ok((
                                                    Statement::Condition(
                                                        x,
                                                        v,
                                                        Box::new(s1),
                                                        Box::new(s2),
                                                    ),
                                                    j4,
                                                )),
                                                Err(e) => Err(e),
                                            }
                                        },
                                        Err(e) => Err(e),
                                    }
                                },
                                Err(e) => Err(e),
                            }
                        },
                        Err(e) => Err(e),
                    }
                },
                Err(e) => Err(e),
            }
        },
        TokKind::Useki => {
            match expect_ident(t, end, i + 1) {
                Ok((n, j)) => {
                    match expect_kw(t, end, j, TokKind::Eto, Expected::KeywordEto) {
                        Ok(j1) => {
                            match parse_body(t, end, j1) {
                                Ok((ss, j2)) => Ok((Statement::Function(n, ss), j2)),
                                Err(e) => Err(e),
                            }
                        },
                        Err(e) => Err(e),
                    }
                },
                Err(e) => Err(e),
            }
        },
        _ => Err(SyntaxError { offset: tok.off, expected: Expected::Statement }),
    }
}

/// Parse a sequence of wrapped statements.
fn parse_body(t: &Vec<Token>, end: usize, i: usize) -> (r: Result<
    (Vec<Statement>, usize),
    SyntaxError,
>)
    requires
        i <= t@.len(),
    ensures
        r matches Ok((_, j)) ==> i <= j <= t@.len(),
        body_res_view(r) == sp_body(toks_view(t@), end as int, i as int),
    decreases t@.len() - i, 2int,
{
    if i < t.len() {
        let tok = &t[i];
        proof {
            assert(toks_view(t@)[i as int] == t@[i as int]@);
        }
        if classify(&tok.bytes) == TokKind::Cho {
            match parse_stmt(t, end, i + 1) {
                Ok((s, j)) => {
                    match expect_kw(t, end, j, TokKind::Yoba, Expected::KeywordYoba) {
                        Ok(j1) => {
                            match parse_body(t, end, j1) {
                                Ok((mut ss, k2)) => {
                                    let ghost pre = ss@;
                                    ss.insert(0, s);
                                    proof {
                                        lemma_stmts_view(ss@);
                                        lemma_stmts_view(pre);
                                        assert(stmts_view(ss@) =~= seq![stmt_view(s)] + stmts_view(
                                            pre,
                                        ));
                                    }
                                    Ok((ss, k2))
                                },
                                Err(e) => Err(e),
                            }
                        },
                        Err(e) => Err(e),
                    }
                },
                Err(e) => Err(e),
            }
        } else {
            proof {
                assert(stmts_view(Seq::<Statement>::empty()) =~= Seq::<StmtV>::empty());
            }
            Ok((Vec::new(), i))
        }
    } else {
        proof {
            assert(stmts_view(Seq::<Statement>::empty()) =~= Seq::<StmtV>::empty());
        }
        Ok((Vec::new(), i))
    }
}

/// Parse source text into a program: the sequence of its top-level
/// statements, or the first syntax error, with the byte offset where
/// matching failed and the rule expected there. The result is exactly
/// `sp_parse` of the input, so parsing is a pure function of the text.
pub fn parse_program(data: &[u8]) -> (r: Result<Vec<Statement>, SyntaxError>)
    ensures
        prog_res_view(r) == sp_parse(data@),
{
    let toks = tokenize(data);
    let end = data.len();
    match parse_body(&toks, end, 0) {
        Ok((ss, j)) => {
            if j == toks.len() {
                Ok(ss)
            } else {
                let tok = &toks[j];
                proof {
                    assert(toks_view(toks@)[j as int] == toks@[j as int]@);
                }
                Err(SyntaxError { offset: tok.off, expected: Expected::KeywordCho })
            }
        },
        Err(e) => Err(e),
    }
}

/// Parsing is pure: two parses of the same text yield equal results.
pub proof fn lemma_parse_program_pure(
    a: Result<Vec<Statement>, SyntaxError>,
    b: Result<Vec<Statement>, SyntaxError>,
    data: Seq<u8>,
)
    requires
        prog_res_view(a) == sp_parse(data),
        prog_res_view(b) == sp_parse(data),
    ensures
        prog_res_view(a) == prog_res_view(b),
{
}

} // verus!
