use vstd::prelude::*;
use crate::syntax::{Arg, Expr, Stmt, args_distinct, expr_wf, stmt_wf, lemma_args_wf, lemma_exprs_wf};

verus! {

/// A lexical token.
#[derive(Debug)]
pub enum Token {
    Number(i64),
    /// An identifier or a keyword.
    Word(Vec<u8>),
    /// A double-quoted text literal, without its quotes.
    Text(Vec<u8>),
    /// A document path: it starts with `.` or `/`.
    Path(Vec<u8>),
    /// One of `( ) [ ] , = ;`.
    Sym(u8),
}

/// A token and the byte offset where it starts.
#[derive(Debug)]
pub struct Tok {
    pub token: Token,
    pub pos: usize,
}

#[derive(Clone, Copy, Debug, PartialEq, Eq, Structural)]
pub enum ParseErrorKind {
    /// A byte that starts no token.
    BadToken,
    /// A number literal beyond the largest number.
    NumberTooLarge,
    /// The source ends inside a construct.
    UnexpectedEnd,
    /// A token that does not fit the construct around it.
    Unexpected,
    /// Two arguments of one call share a name.
    DuplicateArgument,
}

/// A parse failure and the byte offset where it was found.
#[derive(Clone, Copy, Debug, PartialEq, Eq, Structural)]
pub struct ParseError {
    pub kind: ParseErrorKind,
    pub position: usize,
}

pub open spec fn is_digit(b: u8) -> bool {
    48 <= b <= 57
}

pub open spec fn is_word_start(b: u8) -> bool {
    (65 <= b <= 90) || (97 <= b <= 122) || b == 95
}

pub open spec fn is_word_byte(b: u8) -> bool {
    is_word_start(b) || is_digit(b)
}

pub open spec fn is_path_byte(b: u8) -> bool {
    is_word_byte(b) || b == 46 || b == 47 || b == 45
}

pub open spec fn is_space(b: u8) -> bool {
    b == 32 || b == 9 || b == 10 || b == 13
}

pub open spec fn is_sym(b: u8) -> bool {
    b == 40 || b == 41 || b == 91 || b == 93 || b == 44 || b == 61 || b == 59
}

/// Tokens sit in the source in increasing order.
pub open spec fn toks_in(toks: Seq<Tok>, len: nat) -> bool {
    &&& forall|i: int| 0 <= i < toks.len() ==> (#[trigger] toks[i]).pos < len
    &&& forall|i: int, j: int| 0 <= i < j < toks.len() ==> toks[i].pos < toks[j].pos
}

/// A token with its bytes as mathematical sequences.
pub enum TokenModel {
    Number(i64),
    Word(Seq<u8>),
    Text(Seq<u8>),
    Path(Seq<u8>),
    Sym(u8),
}

pub open spec fn token_model(t: Token) -> TokenModel {
    match t {
        Token::Number(n) => TokenModel::Number(n),
        Token::Word(w) => TokenModel::Word(w@),
        Token::Text(t) => TokenModel::Text(t@),
        Token::Path(p) => TokenModel::Path(p@),
        Token::Sym(c) => TokenModel::Sym(c),
    }
}

/// The models of the tokens from index `a` up to, not including, `b`.
pub open spec fn span(toks: Seq<Tok>, a: int, b: int) -> Seq<TokenModel> {
    Seq::new((b - a) as nat, |i: int| token_model(toks[a + i].token))
}

pub open spec fn kw_true() -> Seq<u8> {
    seq![116u8, 114u8, 117u8, 101u8]
}

pub open spec fn kw_false() -> Seq<u8> {
    seq![102u8, 97u8, 108u8, 115u8, 101u8]
}

pub open spec fn kw_var() -> Seq<u8> {
    seq![118u8, 97u8, 114u8]
}

/// The tokens that spell an expression.
pub open spec fn expr_tokens(e: Expr) -> Seq<TokenModel>
    decreases e, 1nat,
{
    match e {
        Expr::Number(n) => seq![TokenModel::Number(n)],
        Expr::Boolean(b) => seq![TokenModel::Word(if b { kw_true() } else { kw_false() })],
        Expr::Text(t) => seq![TokenModel::Text(t@)],
        Expr::Ident(n) => seq![TokenModel::Word(n@)],
        Expr::List(items) => seq![TokenModel::Sym(91)] + items_tokens(items@, items@.len()) + seq![
            TokenModel::Sym(93),
        ],
        Expr::Call { name, args } => seq![TokenModel::Word(name@), TokenModel::Sym(40)] + args_tokens(
            args@,
            args@.len(),
        ) + seq![TokenModel::Sym(41)],
        Expr::Import { path, args } => seq![TokenModel::Path(path@), TokenModel::Sym(40)] + args_tokens(
            args@,
            args@.len(),
        ) + seq![TokenModel::Sym(41)],
    }
}

/// The tokens of the first `n` list items, separated by commas.
pub open spec fn items_tokens(s: Seq<Expr>, n: nat) -> Seq<TokenModel>
    decreases s, n,
{
    if n == 0 || n > s.len() {
        Seq::empty()
    } else if n == 1 {
        expr_tokens(s[0])
    } else {
        items_tokens(s, (n - 1) as nat) + seq![TokenModel::Sym(44)] + expr_tokens(s[n - 1])
    }
}

/// The tokens of the first `n` named arguments, separated by commas.
pub open spec fn args_tokens(s: Seq<Arg>, n: nat) -> Seq<TokenModel>
    decreases s, n,
{
    if n == 0 || n > s.len() {
        Seq::empty()
    } else if n == 1 {
        seq![TokenModel::Word(s[0].name@), TokenModel::Sym(61)] + expr_tokens(s[0].value)
    } else {
        args_tokens(s, (n - 1) as nat) + seq![TokenModel::Sym(44)] + seq![
            TokenModel::Word(s[n - 1].name@),
            TokenModel::Sym(61),
        ] + expr_tokens(s[n - 1].value)
    }
}

/// The tokens that spell a statement.
pub open spec fn stmt_tokens(st: Stmt) -> Seq<TokenModel> {
    match st {
        Stmt::Var { name, value } => seq![
            TokenModel::Word(kw_var()),
            TokenModel::Word(name@),
            TokenModel::Sym(61),
        ] + expr_tokens(value) + seq![TokenModel::Sym(59)],
        Stmt::Expr(value) => expr_tokens(value) + seq![TokenModel::Sym(59)],
    }
}

/// The tokens of the first `n` statements.
pub open spec fn stmts_tokens(s: Seq<Stmt>, n: nat) -> Seq<TokenModel>
    decreases n,
{
    if n == 0 || n > s.len() {
        Seq::empty()
    } else {
        stmts_tokens(s, (n - 1) as nat) + stmt_tokens(s[n - 1])
    }
}

proof fn lemma_items_prefix(s: Seq<Expr>, t: Seq<Expr>, n: nat)
    requires
        n <= s.len(),
        n <= t.len(),
        s.subrange(0, n as int) == t.subrange(0, n as int),
    ensures
        items_tokens(s, n) == items_tokens(t, n),
    decreases n,
{
    if n > 0 {
        assert(s[n - 1] == s.subrange(0, n as int)[n - 1]);
        assert(t[n - 1] == t.subrange(0, n as int)[n - 1]);
        if n > 1 {
            assert(s.subrange(0, n - 1) =~= s.subrange(0, n as int).subrange(0, n - 1));
            assert(t.subrange(0, n - 1) =~= t.subrange(0, n as int).subrange(0, n - 1));
            lemma_items_prefix(s, t, (n - 1) as nat);
        } else {
            assert(s[0] == t[0]);
        }
    }
}

proof fn lemma_args_prefix(s: Seq<Arg>, t: Seq<Arg>, n: nat)
    requires
        n <= s.len(),
        n <= t.len(),
        s.subrange(0, n as int) == t.subrange(0, n as int),
    ensures
        args_tokens(s, n) == args_tokens(t, n),
    decreases n,
{
    if n > 0 {
        assert(s[n - 1] == s.subrange(0, n as int)[n - 1]);
        assert(t[n - 1] == t.subrange(0, n as int)[n - 1]);
        if n > 1 {
            assert(s.subrange(0, n - 1) =~= s.subrange(0, n as int).subrange(0, n - 1));
            assert(t.subrange(0, n - 1) =~= t.subrange(0, n as int).subrange(0, n - 1));
            lemma_args_prefix(s, t, (n - 1) as nat);
        } else {
            assert(s[0] == t[0]);
        }
    }
}

proof fn lemma_stmts_prefix(s: Seq<Stmt>, t: Seq<Stmt>, n: nat)
    requires
        n <= s.len(),
        n <= t.len(),
        s.subrange(0, n as int) == t.subrange(0, n as int),
    ensures
        stmts_tokens(s, n) == stmts_tokens(t, n),
    decreases n,
{
    if n > 0 {
        assert(s[n - 1] == s.subrange(0, n as int)[n - 1]);
        assert(t[n - 1] == t.subrange(0, n as int)[n - 1]);
        assert(s.subrange(0, n - 1) =~= s.subrange(0, n as int).subrange(0, n - 1));
        assert(t.subrange(0, n - 1) =~= t.subrange(0, n as int).subrange(0, n - 1));
        lemma_stmts_prefix(s, t, (n - 1) as nat);
    }
}

proof fn lemma_span_join(toks: Seq<Tok>, a: int, b: int, c: int)
    requires
        0 <= a <= b <= c <= toks.len(),
    ensures
        span(toks, a, b) + span(toks, b, c) == span(toks, a, c),
{
    assert(span(toks, a, b) + span(toks, b, c) =~= span(toks, a, c));
}

/// A name that is no keyword.
pub open spec fn not_keyword(n: Seq<u8>) -> bool {
    n != kw_true() && n != kw_false() && n != kw_var()
}

/// An expression that the grammar can spell: calls have distinct argument
/// names, and no identifier or builtin name is a keyword.
pub open spec fn expr_ok(e: Expr) -> bool
    decreases e, 1nat,
{
    match e {
        Expr::Ident(n) => not_keyword(n@),
        Expr::List(items) => items_ok(items@, items@.len()),
        Expr::Call { name, args } => not_keyword(name@) && args_distinct(args@) && args_ok(args@, args@.len()),
        Expr::Import { args, .. } => args_distinct(args@) && args_ok(args@, args@.len()),
        _ => true,
    }
}

pub open spec fn items_ok(s: Seq<Expr>, n: nat) -> bool
    decreases s, n,
{
    if n == 0 || n > s.len() {
        true
    } else {
        items_ok(s, (n - 1) as nat) && expr_ok(s[n - 1])
    }
}

pub open spec fn args_ok(s: Seq<Arg>, n: nat) -> bool
    decreases s, n,
{
    if n == 0 || n > s.len() {
        true
    } else {
        args_ok(s, (n - 1) as nat) && expr_ok(s[n - 1].value)
    }
}

/// A statement that the grammar can spell.
pub open spec fn stmt_ok(st: Stmt) -> bool {
    match st {
        Stmt::Var { value, .. } => expr_ok(value),
        Stmt::Expr(value) => expr_ok(value),
    }
}

/// The tokens from `pos` on start with `t`.
pub open spec fn at(toks: Seq<Tok>, pos: int, t: Seq<TokenModel>) -> bool {
    0 <= pos && pos + t.len() <= toks.len() && span(toks, pos, pos + t.len()) == t
}

/// No `(` follows at `q`.
pub open spec fn not_open(toks: Seq<Tok>, q: int) -> bool {
    q >= toks.len() || token_model(toks[q].token) != TokenModel::Sym(40)
}

pub open spec fn arg_unit(a: Arg) -> Seq<TokenModel> {
    seq![TokenModel::Word(a.name@), TokenModel::Sym(61)] + expr_tokens(a.value)
}

/// The tokens of items `m..n`, each after a comma.
pub open spec fn items_tail(s: Seq<Expr>, m: nat, n: nat) -> Seq<TokenModel>
    decreases n,
{
    if n <= m || n > s.len() {
        Seq::empty()
    } else {
        items_tail(s, m, (n - 1) as nat) + seq![TokenModel::Sym(44)] + expr_tokens(s[n - 1])
    }
}

/// The tokens of arguments `m..n`, each after a comma.
pub open spec fn args_tail(s: Seq<Arg>, m: nat, n: nat) -> Seq<TokenModel>
    decreases n,
{
    if n <= m || n > s.len() {
        Seq::empty()
    } else {
        args_tail(s, m, (n - 1) as nat) + seq![TokenModel::Sym(44)] + arg_unit(s[n - 1])
    }
}

/// The tokens of statements `m..n`.
pub open spec fn stmts_tail(s: Seq<Stmt>, m: nat, n: nat) -> Seq<TokenModel>
    decreases n,
{
    if n <= m || n > s.len() {
        Seq::empty()
    } else {
        stmts_tail(s, m, (n - 1) as nat) + stmt_tokens(s[n - 1])
    }
}

proof fn lemma_at_split(toks: Seq<Tok>, pos: int, a: Seq<TokenModel>, b: Seq<TokenModel>)
    requires
        at(toks, pos, a + b),
    ensures
        at(toks, pos, a),
        at(toks, pos + a.len(), b),
{
    assert((a + b).subrange(0, a.len() as int) =~= a);
    assert((a + b).subrange(a.len() as int, (a + b).len() as int) =~= b);
    assert(span(toks, pos, pos + a.len()) =~= (a + b).subrange(0, a.len() as int));
    assert(span(toks, pos + a.len(), pos + a.len() + b.len()) =~= (a + b).subrange(a.len() as int, (a + b).len() as int));
}

proof fn lemma_at_first(toks: Seq<Tok>, pos: int, a: Seq<TokenModel>)
    requires
        at(toks, pos, a),
        a.len() >= 1,
    ensures
        pos < toks.len(),
        token_model(toks[pos].token) == a[0],
{
    assert(span(toks, pos, pos + a.len())[0] == a[0]);
}

proof fn lemma_items_front(s: Seq<Expr>, m: nat, n: nat)
    requires
        m < n <= s.len(),
    ensures
        items_tail(s, m, n) == seq![TokenModel::Sym(44)] + expr_tokens(s[m as int]) + items_tail(s, m + 1, n),
    decreases n,
{
    if n == m + 1 {
        assert(items_tail(s, m, n) =~= seq![TokenModel::Sym(44)] + expr_tokens(s[m as int]) + items_tail(s, m + 1, n));
    } else {
        lemma_items_front(s, m, (n - 1) as nat);
        assert(items_tail(s, m, n) == items_tail(s, m, (n - 1) as nat) + seq![TokenModel::Sym(44)] + expr_tokens(s[n - 1]));
        assert(items_tail(s, m + 1, n) == items_tail(s, m + 1, (n - 1) as nat) + seq![TokenModel::Sym(44)] + expr_tokens(s[n - 1]));
        assert(items_tail(s, m, n) =~= seq![TokenModel::Sym(44)] + expr_tokens(s[m as int]) + items_tail(s, m + 1, n));
    }
}

proof fn lemma_items_whole(s: Seq<Expr>, n: nat)
    requires
        1 <= n <= s.len(),
    ensures
        items_tokens(s, n) == expr_tokens(s[0]) + items_tail(s, 1, n),
    decreases n,
{
    if n > 1 {
        lemma_items_whole(s, (n - 1) as nat);
        assert(items_tokens(s, n) =~= expr_tokens(s[0]) + items_tail(s, 1, n));
    } else {
        assert(items_tokens(s, n) =~= expr_tokens(s[0]) + items_tail(s, 1, n));
    }
}

proof fn lemma_args_front(s: Seq<Arg>, m: nat, n: nat)
    requires
        m < n <= s.len(),
    ensures
        args_tail(s, m, n) == seq![TokenModel::Sym(44)] + arg_unit(s[m as int]) + args_tail(s, m + 1, n),
    decreases n,
{
    if n == m + 1 {
        assert(args_tail(s, m, n) =~= seq![TokenModel::Sym(44)] + arg_unit(s[m as int]) + args_tail(s, m + 1, n));
    } else {
        lemma_args_front(s, m, (n - 1) as nat);
        assert(args_tail(s, m, n) == args_tail(s, m, (n - 1) as nat) + seq![TokenModel::Sym(44)] + arg_unit(s[n - 1]));
        assert(args_tail(s, m + 1, n) == args_tail(s, m + 1, (n - 1) as nat) + seq![TokenModel::Sym(44)] + arg_unit(s[n - 1]));
        assert(args_tail(s, m, n) =~= seq![TokenModel::Sym(44)] + arg_unit(s[m as int]) + args_tail(s, m + 1, n));
    }
}

proof fn lemma_args_whole(s: Seq<Arg>, n: nat)
    requires
        1 <= n <= s.len(),
    ensures
        args_tokens(s, n) == arg_unit(s[0]) + args_tail(s, 1, n),
    decreases n,
{
    if n > 1 {
        lemma_args_whole(s, (n - 1) as nat);
        assert(args_tokens(s, n) =~= arg_unit(s[0]) + args_tail(s, 1, n));
    } else {
        assert(args_tokens(s, n) =~= arg_unit(s[0]) + args_tail(s, 1, n));
    }
}

proof fn lemma_stmts_front(s: Seq<Stmt>, m: nat, n: nat)
    requires
        m < n <= s.len(),
    ensures
        stmts_tail(s, m, n) == stmt_tokens(s[m as int]) + stmts_tail(s, m + 1, n),
    decreases n,
{
    if n == m + 1 {
        assert(stmts_tail(s, m, n) =~= stmt_tokens(s[m as int]) + stmts_tail(s, m + 1, n));
    } else {
        lemma_stmts_front(s, m, (n - 1) as nat);
        assert(stmts_tail(s, m, n) == stmts_tail(s, m, (n - 1) as nat) + stmt_tokens(s[n - 1]));
        assert(stmts_tail(s, m + 1, n) == stmts_tail(s, m + 1, (n - 1) as nat) + stmt_tokens(s[n - 1]));
        assert(stmts_tail(s, m, n) =~= stmt_tokens(s[m as int]) + stmts_tail(s, m + 1, n));
    }
}

proof fn lemma_stmts_whole(s: Seq<Stmt>, n: nat)
    requires
        n <= s.len(),
    ensures
        stmts_tokens(s, n) == stmts_tail(s, 0, n),
    decreases n,
{
    if n > 0 {
        lemma_stmts_whole(s, (n - 1) as nat);
    }
}

proof fn lemma_items_ok(s: Seq<Expr>, n: nat, k: int)
    requires
        items_ok(s, n),
        n <= s.len(),
        0 <= k < n,
    ensures
        expr_ok(s[k]),
    decreases n,
{
    if k < n - 1 {
        lemma_items_ok(s, (n - 1) as nat, k);
    }
}

proof fn lemma_args_ok(s: Seq<Arg>, n: nat, k: int)
    requires
        args_ok(s, n),
        n <= s.len(),
        0 <= k < n,
    ensures
        expr_ok(s[k].value),
    decreases n,
{
    if k < n - 1 {
        lemma_args_ok(s, (n - 1) as nat, k);
    }
}

/// The first token of an expression opens it: it is none of `) , ; = ]`.
proof fn lemma_expr_first(e: Expr)
    ensures
        expr_tokens(e).len() >= 1,
        expr_tokens(e)[0] != TokenModel::Sym(41),
        expr_tokens(e)[0] != TokenModel::Sym(44),
        expr_tokens(e)[0] != TokenModel::Sym(59),
        expr_tokens(e)[0] != TokenModel::Sym(61),
        expr_tokens(e)[0] != TokenModel::Sym(93),
        expr_tokens(e)[0] != TokenModel::Sym(40),
{
}

proof fn lemma_items_step(toks: Seq<Tok>, p: int, s: Seq<Expr>, k: nat)
    requires
        k < s.len(),
        at(toks, p, expr_tokens(s[k as int]) + items_tail(s, k + 1, s.len()) + seq![TokenModel::Sym(93)]),
    ensures
        at(toks, p, expr_tokens(s[k as int])),
        not_open(toks, p + expr_tokens(s[k as int]).len()),
        k + 1 == s.len() ==> p + expr_tokens(s[k as int]).len() < toks.len() && token_model(
            toks[p + expr_tokens(s[k as int]).len()].token,
        ) == TokenModel::Sym(93),
        k + 1 < s.len() ==> p + expr_tokens(s[k as int]).len() < toks.len() && token_model(
            toks[p + expr_tokens(s[k as int]).len()].token,
        ) == TokenModel::Sym(44) && at(
            toks,
            p + expr_tokens(s[k as int]).len() + 1,
            expr_tokens(s[k + 1 as int]) + items_tail(s, k + 2, s.len()) + seq![TokenModel::Sym(93)],
        ),
{
    let e = expr_tokens(s[k as int]);
    let rest = items_tail(s, k + 1, s.len()) + seq![TokenModel::Sym(93)];
    assert(e + items_tail(s, k + 1, s.len()) + seq![TokenModel::Sym(93)] =~= e + rest);
    lemma_at_split(toks, p, e, rest);
    let q = p + e.len();
    if k + 1 == s.len() {
        assert(rest =~= seq![TokenModel::Sym(93)]);
        lemma_at_first(toks, q, rest);
    } else {
        lemma_items_front(s, k + 1, s.len());
        let more = expr_tokens(s[k + 1 as int]) + items_tail(s, k + 2, s.len()) + seq![TokenModel::Sym(93)];
        assert(rest =~= seq![TokenModel::Sym(44)] + more);
        lemma_at_first(toks, q, rest);
        lemma_at_split(toks, q, seq![TokenModel::Sym(44)], more);
    }
}

proof fn lemma_args_step(toks: Seq<Tok>, p: int, s: Seq<Arg>, k: nat)
    requires
        k < s.len(),
        at(toks, p, arg_unit(s[k as int]) + args_tail(s, k + 1, s.len()) + seq![TokenModel::Sym(41)]),
    ensures
        p + 1 < toks.len(),
        token_model(toks[p].token) == TokenModel::Word(s[k as int].name@),
        token_model(toks[p + 1].token) == TokenModel::Sym(61),
        at(toks, p + 2, expr_tokens(s[k as int].value)),
        not_open(toks, p + 2 + expr_tokens(s[k as int].value).len()),
        k + 1 == s.len() ==> p + 2 + expr_tokens(s[k as int].value).len() < toks.len() && token_model(
            toks[p + 2 + expr_tokens(s[k as int].value).len()].token,
        ) == TokenModel::Sym(41),
        k + 1 < s.len() ==> p + 2 + expr_tokens(s[k as int].value).len() < toks.len() && token_model(
            toks[p + 2 + expr_tokens(s[k as int].value).len()].token,
        ) == TokenModel::Sym(44) && at(
            toks,
            p + 2 + expr_tokens(s[k as int].value).len() + 1,
            arg_unit(s[k + 1 as int]) + args_tail(s, k + 2, s.len()) + seq![TokenModel::Sym(41)],
        ),
{
    let head = seq![TokenModel::Word(s[k as int].name@), TokenModel::Sym(61)];
    let v = expr_tokens(s[k as int].value);
    let rest = args_tail(s, k + 1, s.len()) + seq![TokenModel::Sym(41)];
    assert(arg_unit(s[k as int]) + args_tail(s, k + 1, s.len()) + seq![TokenModel::Sym(41)] =~= head + (v + rest));
    lemma_at_split(toks, p, head, v + rest);
    lemma_at_first(toks, p, head);
    assert(head =~= seq![TokenModel::Word(s[k as int].name@)] + seq![TokenModel::Sym(61)]);
    lemma_at_split(toks, p, seq![TokenModel::Word(s[k as int].name@)], seq![TokenModel::Sym(61)]);
    lemma_at_first(toks, p + 1, seq![TokenModel::Sym(61)]);
    lemma_at_split(toks, p + 2, v, rest);
    let q = p + 2 + v.len();
    if k + 1 == s.len() {
        assert(rest =~= seq![TokenModel::Sym(41)]);
        lemma_at_first(toks, q, rest);
    } else {
        lemma_args_front(s, k + 1, s.len());
        let more = arg_unit(s[k + 1 as int]) + args_tail(s, k + 2, s.len()) + seq![TokenModel::Sym(41)];
        assert(rest =~= seq![TokenModel::Sym(44)] + more);
        lemma_at_first(toks, q, rest);
        lemma_at_split(toks, q, seq![TokenModel::Sym(44)], more);
    }
}

proof fn lemma_expr_shape(e: Expr)
    ensures
        expr_tokens(e).len() >= 1,
        e matches Expr::Number(n) ==> expr_tokens(e) == seq![TokenModel::Number(n)],
        e matches Expr::Text(t) ==> expr_tokens(e) == seq![TokenModel::Text(t@)],
        e matches Expr::Ident(n) ==> expr_tokens(e) == seq![TokenModel::Word(n@)],
        e matches Expr::Boolean(b) ==> expr_tokens(e) == seq![TokenModel::Word(if b { kw_true() } else { kw_false() })],
        e matches Expr::List(items) ==> expr_tokens(e)[0] == TokenModel::Sym(91) && expr_tokens(e) == seq![TokenModel::Sym(91)]
            + (items_tokens(items@, items@.len()) + seq![TokenModel::Sym(93)]),
        e matches Expr::Call { name, args } ==> expr_tokens(e)[0] == TokenModel::Word(name@) && expr_tokens(e).len() >= 2
            && expr_tokens(e)[1] == TokenModel::Sym(40) && expr_tokens(e) == seq![TokenModel::Word(name@), TokenModel::Sym(40)]
            + (args_tokens(args@, args@.len()) + seq![TokenModel::Sym(41)]),
        e matches Expr::Import { path, args } ==> expr_tokens(e)[0] == TokenModel::Path(path@) && expr_tokens(e).len() >= 2
            && expr_tokens(e)[1] == TokenModel::Sym(40) && expr_tokens(e) == seq![TokenModel::Path(path@), TokenModel::Sym(40)]
            + (args_tokens(args@, args@.len()) + seq![TokenModel::Sym(41)]),
{
    match e {
        Expr::List(items) => {
            assert(expr_tokens(e) =~= seq![TokenModel::Sym(91)] + (items_tokens(items@, items@.len()) + seq![TokenModel::Sym(93)]));
        },
        Expr::Call { name, args } => {
            assert(expr_tokens(e) =~= seq![TokenModel::Word(name@), TokenModel::Sym(40)] + (args_tokens(args@, args@.len()) + seq![TokenModel::Sym(41)]));
        },
        Expr::Import { path, args } => {
            assert(expr_tokens(e) =~= seq![TokenModel::Path(path@), TokenModel::Sym(40)] + (args_tokens(args@, args@.len()) + seq![TokenModel::Sym(41)]));
        },
        _ => {},
    }
}

/// What the first two tokens of a spelled expression show about it.
proof fn lemma_expr_at(toks: Seq<Tok>, pos: int, e: Expr)
    requires
        expr_ok(e),
        at(toks, pos, expr_tokens(e)),
        not_open(toks, pos + expr_tokens(e).len()),
    ensures
        pos < toks.len(),
        token_model(toks[pos].token) == expr_tokens(e)[0],
        e matches Expr::Call { .. } ==> pos + 1 < toks.len() && token_model(toks[pos + 1].token) == TokenModel::Sym(40),
        e matches Expr::Import { .. } ==> pos + 1 < toks.len() && token_model(toks[pos + 1].token) == TokenModel::Sym(40),
        e matches Expr::Ident(_) ==> !(pos + 1 < toks.len() && token_model(toks[pos + 1].token) == TokenModel::Sym(40)),
        e matches Expr::Call { args, .. } ==> at(toks, pos + 2, args_tokens(args@, args@.len()) + seq![TokenModel::Sym(41)]),
        e matches Expr::Import { args, .. } ==> at(toks, pos + 2, args_tokens(args@, args@.len()) + seq![TokenModel::Sym(41)]),
        e matches Expr::List(items) ==> at(toks, pos + 1, items_tokens(items@, items@.len()) + seq![TokenModel::Sym(93)]),
{
    lemma_expr_shape(e);
    lemma_at_first(toks, pos, expr_tokens(e));
    match e {
        Expr::Call { name, args } => {
            let h = seq![TokenModel::Word(name@), TokenModel::Sym(40)];
            lemma_at_split(toks, pos, h, args_tokens(args@, args@.len()) + seq![TokenModel::Sym(41)]);
            assert(h =~= seq![TokenModel::Word(name@)] + seq![TokenModel::Sym(40)]);
            lemma_at_split(toks, pos, seq![TokenModel::Word(name@)], seq![TokenModel::Sym(40)]);
            lemma_at_first(toks, pos + 1, seq![TokenModel::Sym(40)]);
        },
        Expr::Import { path, args } => {
            let h = seq![TokenModel::Path(path@), TokenModel::Sym(40)];
            lemma_at_split(toks, pos, h, args_tokens(args@, args@.len()) + seq![TokenModel::Sym(41)]);
            assert(h =~= seq![TokenModel::Path(path@)] + seq![TokenModel::Sym(40)]);
            lemma_at_split(toks, pos, seq![TokenModel::Path(path@)], seq![TokenModel::Sym(40)]);
            lemma_at_first(toks, pos + 1, seq![TokenModel::Sym(40)]);
        },
        Expr::List(items) => {
            lemma_at_split(toks, pos, seq![TokenModel::Sym(91)], items_tokens(items@, items@.len()) + seq![TokenModel::Sym(93)]);
        },
        _ => {},
    }
}

/// Every statement of `s` can be spelled.
pub open spec fn stmts_ok(s: Seq<Stmt>) -> bool {
    forall|i: int| 0 <= i < s.len() ==> #[trigger] stmt_ok(s[i])
}

/// Where the statement that the tokens at `p` spell ends, past its `;`.
pub open spec fn stmt_end(p: int, st: Stmt) -> int {
    p + stmt_tokens(st).len()
}

proof fn lemma_stmt_step(toks: Seq<Tok>, p: int, s: Seq<Stmt>, k: nat)
    requires
        k < s.len(),
        stmt_ok(s[k as int]),
        at(toks, p, stmts_tail(s, k, s.len())),
    ensures
        at(toks, stmt_end(p, s[k as int]), stmts_tail(s, k + 1, s.len())),
        stmt_end(p, s[k as int]) + stmts_tail(s, k + 1, s.len()).len() == p + stmts_tail(s, k, s.len()).len(),
        p < toks.len(),
        s[k as int] matches Stmt::Var { name, value } ==> p + 2 < toks.len() && token_model(toks[p].token)
            == TokenModel::Word(kw_var()) && token_model(toks[p + 1].token) == TokenModel::Word(name@)
            && token_model(toks[p + 2].token) == TokenModel::Sym(61) && at(toks, p + 3, expr_tokens(value))
            && not_open(toks, p + 3 + expr_tokens(value).len()) && p + 3 + expr_tokens(value).len() < toks.len()
            && token_model(toks[p + 3 + expr_tokens(value).len()].token) == TokenModel::Sym(59)
            && stmt_end(p, s[k as int]) == p + 3 + expr_tokens(value).len() + 1,
        s[k as int] matches Stmt::Expr(value) ==> token_model(toks[p].token) != TokenModel::Word(kw_var())
            && at(toks, p, expr_tokens(value)) && not_open(toks, p + expr_tokens(value).len())
            && p + expr_tokens(value).len() < toks.len() && token_model(toks[p + expr_tokens(value).len()].token)
            == TokenModel::Sym(59) && stmt_end(p, s[k as int]) == p + expr_tokens(value).len() + 1,
{
    lemma_stmts_front(s, k, s.len());
    let st = s[k as int];
    let rest = stmts_tail(s, k + 1, s.len());
    lemma_at_split(toks, p, stmt_tokens(st), rest);
    let semi = seq![TokenModel::Sym(59)];
    match st {
        Stmt::Var { name, value } => {
            let head = seq![TokenModel::Word(kw_var()), TokenModel::Word(name@), TokenModel::Sym(61)];
            let v = expr_tokens(value);
            assert(stmt_tokens(st) =~= head + (v + semi));
            lemma_at_split(toks, p, head, v + semi);
            lemma_at_split(toks, p + 3, v, semi);
            lemma_at_first(toks, p + 3 + v.len(), semi);
            assert(span(toks, p, p + 3)[0] == head[0]);
            assert(span(toks, p, p + 3)[1] == head[1]);
            assert(span(toks, p, p + 3)[2] == head[2]);
        },
        Stmt::Expr(value) => {
            let v = expr_tokens(value);
            lemma_at_split(toks, p, v, semi);
            lemma_at_first(toks, p + v.len(), semi);
            lemma_expr_shape(value);
            lemma_at_first(toks, p, v);
            assert(kw_true() != kw_var() && kw_false() != kw_var()) by {
                assert(kw_true().len() != kw_var().len());
                assert(kw_false().len() != kw_var().len());
            }
        },
    }
}

/// Argument `m` of `s` repeats the name of an earlier one, and the
/// arguments before it have distinct names.
pub open spec fn dup_at(s: Seq<Arg>, m: int) -> bool {
    &&& 0 < m < s.len()
    &&& args_distinct(s.subrange(0, m))
    &&& exists|i: int| 0 <= i < m && s[i].name@ == s[m].name@
}

/// Whether two byte strings are equal.
pub fn bytes_eq(a: &Vec<u8>, b: &Vec<u8>) -> (r: bool)
    ensures
        r == (a@ == b@),
{
    if a.len() != b.len() {
        return false;
    }
    let mut i: usize = 0;
    while i < a.len()
        invariant
            a@.len() == b@.len(),
            i <= a.len(),
            forall|j: int| 0 <= j < i ==> a@[j] == b@[j],
        decreases a.len() - i,
    {
        if a[i] != b[i] {
            return false;
        }
        i += 1;
    }
    assert(a@ =~= b@);
    true
}

fn is_digit_exec(b: u8) -> (r: bool)
    ensures
        r == is_digit(b),
{
    48 <= b && b <= 57
}

fn is_word_start_exec(b: u8) -> (r: bool)
    ensures
        r == is_word_start(b),
{
    (65 <= b && b <= 90) || (97 <= b && b <= 122) || b == 95
}

fn is_path_byte_exec(b: u8) -> (r: bool)
    ensures
        r == is_path_byte(b),
{
    is_word_start_exec(b) || is_digit_exec(b) || b == 46 || b == 47 || b == 45
}

fn copy_range(src: &Vec<u8>, from: usize, to: usize) -> (r: Vec<u8>)
    requires
        from <= to <= src.len(),
    ensures
        r@ == src@.subrange(from as int, to as int),
{
    let mut r: Vec<u8> = Vec::new();
    let mut i = from;
    while i < to
        invariant
            from <= i <= to <= src.len(),
            r@ == src@.subrange(from as int, i as int),
        decreases to - i,
    {
        r.push(src[i]);
        i += 1;
        assert(r@ =~= src@.subrange(from as int, i as int));
    }
    r
}

/// Whether byte `b` continues a run of class `class`: 0 for a word, 1 for
/// a path, 2 for a number, 3 for a comment (up to a newline), 4 for a text
/// literal (up to a double quote).
pub open spec fn in_class(b: u8, class: u8) -> bool {
    if class == 0 {
        is_word_byte(b)
    } else if class == 1 {
        is_path_byte(b)
    } else if class == 2 {
        is_digit(b)
    } else if class == 3 {
        b != 10
    } else {
        b != 34
    }
}

/// The end of the run of class `class` that starts at `i`.
pub open spec fn scan_end(src: Seq<u8>, i: int, class: u8) -> int
    decreases src.len() - i,
{
    if 0 <= i < src.len() && in_class(src[i], class) {
        scan_end(src, i + 1, class)
    } else {
        i
    }
}

proof fn lemma_scan_end(src: Seq<u8>, i: int, class: u8)
    requires
        0 <= i,
    ensures
        i <= scan_end(src, i, class),
        i <= src.len() ==> scan_end(src, i, class) <= src.len(),
        i < src.len() && in_class(src[i], class) ==> i < scan_end(src, i, class),
        forall|j: int| i <= j < scan_end(src, i, class) ==> in_class(#[trigger] src[j], class),
    decreases src.len() - i,
{
    if 0 <= i < src.len() && in_class(src[i], class) {
        lemma_scan_end(src, i + 1, class);
    }
}

/// The number that the decimal digits `src[a..b]` spell.
pub open spec fn digits_value(src: Seq<u8>, a: int, b: int) -> int
    decreases b - a,
{
    if b <= a {
        0
    } else {
        digits_value(src, a, b - 1) * 10 + (src[b - 1] - 48)
    }
}

proof fn lemma_digits_grow(src: Seq<u8>, a: int, b: int, c: int)
    requires
        a <= b <= c <= src.len(),
        forall|j: int| a <= j < c ==> is_digit(#[trigger] src[j]),
    ensures
        digits_value(src, a, b) <= digits_value(src, a, c),
        digits_value(src, a, b) >= 0,
    decreases c - a,
{
    if c > b {
        lemma_digits_grow(src, a, b, c - 1);
    } else if b > a {
        lemma_digits_grow(src, a, b - 1, b - 1);
    }
}

/// Why and where tokenizing fails.
pub type LexFailure = (ParseErrorKind, int);

/// `t` before the tokens of `r`, when `r` succeeds.
pub open spec fn prepend(t: Seq<TokenModel>, r: Result<Seq<TokenModel>, LexFailure>) -> Result<Seq<TokenModel>, LexFailure> {
    match r {
        Ok(s) => Ok(t + s),
        Err(u) => Err(u),
    }
}

/// The tokens of `src` from offset `i` on; an error, with the offset where
/// its token starts, for a byte that starts no token (`BadToken`), a number
/// beyond the largest (`NumberTooLarge`), or a text literal left open
/// (`UnexpectedEnd`).
pub open spec fn lex_from(src: Seq<u8>, i: int) -> Result<Seq<TokenModel>, LexFailure>
    decreases src.len() - i,
    via lex_from_decreases
{
    if i < 0 || i >= src.len() {
        Ok(Seq::empty())
    } else {
        let b = src[i];
        if is_space(b) {
            lex_from(src, i + 1)
        } else if b == 47 && i + 1 < src.len() && src[i + 1] == 47 {
            lex_from(src, scan_end(src, i + 1, 3))
        } else if is_digit(b) {
            let e = scan_end(src, i, 2);
            let v = digits_value(src, i, e);
            if v > i64::MAX {
                Err((ParseErrorKind::NumberTooLarge, i))
            } else {
                prepend(seq![TokenModel::Number(v as i64)], lex_from(src, e))
            }
        } else if is_word_start(b) {
            let e = scan_end(src, i, 0);
            prepend(seq![TokenModel::Word(src.subrange(i, e))], lex_from(src, e))
        } else if b == 46 || b == 47 {
            let e = scan_end(src, i + 1, 1);
            prepend(seq![TokenModel::Path(src.subrange(i, e))], lex_from(src, e))
        } else if b == 34 {
            let e = scan_end(src, i + 1, 4);
            if e >= src.len() {
                Err((ParseErrorKind::UnexpectedEnd, i))
            } else {
                prepend(seq![TokenModel::Text(src.subrange(i + 1, e))], lex_from(src, e + 1))
            }
        } else if is_sym(b) {
            prepend(seq![TokenModel::Sym(b)], lex_from(src, i + 1))
        } else {
            Err((ParseErrorKind::BadToken, i))
        }
    }
}

#[via_fn]
proof fn lex_from_decreases(src: Seq<u8>, i: int) {
    if 0 <= i < src.len() {
        lemma_scan_end(src, i, 0);
        lemma_scan_end(src, i, 2);
        lemma_scan_end(src, i + 1, 1);
        lemma_scan_end(src, i + 1, 3);
        lemma_scan_end(src, i + 1, 4);
    }
}

fn in_class_exec(b: u8, class: u8) -> (r: bool)
    ensures
        r == in_class(b, class),
{
    if class == 0 {
        is_word_start_exec(b) || is_digit_exec(b)
    } else if class == 1 {
        is_path_byte_exec(b)
    } else if class == 2 {
        is_digit_exec(b)
    } else if class == 3 {
        b != 10
    } else {
        b != 34
    }
}

fn scan(src: &Vec<u8>, start: usize, class: u8) -> (r: usize)
    requires
        start <= src.len(),
    ensures
        r == scan_end(src@, start as int, class),
        start <= r <= src.len(),
{
    proof {
        lemma_scan_end(src@, start as int, class);
    }
    let mut i = start;
    while i < src.len() && in_class_exec(src[i], class)
        invariant
            start <= i <= src.len(),
            scan_end(src@, start as int, class) == scan_end(src@, i as int, class),
        decreases src.len() - i,
    {
        i += 1;
    }
    i
}

/// Reads the digits at `start`; `None` when the number does not fit an `i64`.
fn scan_number(src: &Vec<u8>, start: usize) -> (r: Option<(i64, usize)>)
    requires
        start < src.len(),
    ensures
        r matches Some((v, e)) ==> e == scan_end(src@, start as int, 2) && v == digits_value(
            src@,
            start as int,
            e as int,
        ),
        r is None ==> digits_value(src@, start as int, scan_end(src@, start as int, 2)) > i64::MAX,
{
    let e = scan(src, start, 2);
    proof {
        lemma_scan_end(src@, start as int, 2);
    }
    let mut value: i64 = 0;
    let mut i = start;
    while i < e
        invariant
            start <= i <= e <= src.len(),
            e == scan_end(src@, start as int, 2),
            forall|j: int| start <= j < e ==> is_digit(#[trigger] src@[j]),
            value == digits_value(src@, start as int, i as int),
            value >= 0,
        decreases e - i,
    {
        let d = (src[i] - 48) as i128;
        let next: i128 = value as i128 * 10 + d;
        if next > i64::MAX as i128 {
            proof {
                lemma_digits_grow(src@, start as int, i + 1, e as int);
            }
            return None;
        }
        value = next as i64;
        i += 1;
    }
    Some((value, e))
}

proof fn lemma_prepend(a: Seq<TokenModel>, b: Seq<TokenModel>, r: Result<Seq<TokenModel>, LexFailure>)
    ensures
        prepend(a, prepend(b, r)) == prepend(a + b, r),
{
    if let Ok(s) = r {
        assert(a + (b + s) =~= (a + b) + s);
    }
}

/// Splits source text into tokens. Spaces separate tokens, and `//` starts a
/// comment that runs to the end of the line.
pub fn lex(src: &Vec<u8>) -> (r: Result<Vec<Tok>, ParseError>)
    ensures
        r matches Ok(toks) ==> toks_in(toks@, src@.len()) && lex_from(src@, 0) == Ok::<Seq<TokenModel>, LexFailure>(
            span(toks@, 0, toks@.len() as int),
        ),
        r is Err <==> lex_from(src@, 0) is Err,
        r matches Err(e) ==> e.position < src@.len() && lex_from(src@, 0) == Err::<Seq<TokenModel>, LexFailure>(
            (e.kind, e.position as int),
        ),
{
    let mut toks: Vec<Tok> = Vec::new();
    let mut i: usize = 0;
    assert(span(toks@, 0, 0) =~= Seq::<TokenModel>::empty());
    assert(lex_from(src@, 0) == prepend(Seq::empty(), lex_from(src@, 0))) by {
        if let Ok(s) = lex_from(src@, 0) {
            assert(Seq::<TokenModel>::empty() + s =~= s);
        }
    }
    while i < src.len()
        invariant
            i <= src.len(),
            toks_in(toks@, src@.len()),
            forall|j: int| 0 <= j < toks@.len() ==> (#[trigger] toks@[j]).pos < i,
            lex_from(src@, 0) == prepend(span(toks@, 0, toks@.len() as int), lex_from(src@, i as int)),
        decreases src.len() - i,
    {
        let b = src[i];
        let start = i;
        let ghost sp = span(toks@, 0, toks@.len() as int);
        let tok: Tok;
        if b == 32 || b == 9 || b == 10 || b == 13 {
            i += 1;
            continue;
        } else if b == 47 && i + 1 < src.len() && src[i + 1] == 47 {
            i = scan(src, i + 1, 3);
            continue;
        } else if is_digit_exec(b) {
            proof {
                lemma_scan_end(src@, i as int, 2);
            }
            match scan_number(src, i) {
                Some((value, e)) => {
                    i = e;
                    tok = Tok { token: Token::Number(value), pos: start };
                },
                None => {
                    return Err(ParseError { kind: ParseErrorKind::NumberTooLarge, position: start });
                },
            }
        } else if is_word_start_exec(b) {
            proof {
                lemma_scan_end(src@, i as int, 0);
            }
            i = scan(src, i, 0);
            let w = copy_range(src, start, i);
            tok = Tok { token: Token::Word(w), pos: start };
        } else if b == 46 || b == 47 {
            i = scan(src, i + 1, 1);
            let p = copy_range(src, start, i);
            tok = Tok { token: Token::Path(p), pos: start };
        } else if b == 34 {
            let e = scan(src, i + 1, 4);
            if e >= src.len() {
                return Err(ParseError { kind: ParseErrorKind::UnexpectedEnd, position: start });
            }
            let t = copy_range(src, start + 1, e);
            i = e + 1;
            tok = Tok { token: Token::Text(t), pos: start };
        } else if b == 40 || b == 41 || b == 91 || b == 93 || b == 44 || b == 61 || b == 59 {
            i += 1;
            tok = Tok { token: Token::Sym(b), pos: start };
        } else {
            return Err(ParseError { kind: ParseErrorKind::BadToken, position: start });
        }
        let ghost tm = token_model(tok.token);
        assert(lex_from(src@, start as int) == prepend(seq![tm], lex_from(src@, i as int)));
        toks.push(tok);
        proof {
            assert(span(toks@, 0, toks@.len() as int) =~= sp + seq![tm]);
            lemma_prepend(sp, seq![tm], lex_from(src@, i as int));
        }
    }
    assert(span(toks@, 0, toks@.len() as int) + Seq::<TokenModel>::empty() =~= span(toks@, 0, toks@.len() as int));
    Ok(toks)
}

fn is_sym_at(toks: &Vec<Tok>, pos: usize, c: u8) -> (r: bool)
    ensures
        r == (pos < toks@.len() && toks@[pos as int].token == Token::Sym(c)),
        r ==> pos < toks.len(),
{
    if pos < toks.len() {
        match &toks[pos].token {
            Token::Sym(b) => *b == c,
            _ => false,
        }
    } else {
        false
    }
}

fn error_at(toks: &Vec<Tok>, pos: usize, end: usize) -> (r: ParseError)
    requires
        toks_in(toks@, end as nat),
    ensures
        r.position <= end,
{
    if pos < toks.len() {
        ParseError { kind: ParseErrorKind::Unexpected, position: toks[pos].pos }
    } else {
        ParseError { kind: ParseErrorKind::UnexpectedEnd, position: end }
    }
}

fn word_is(w: &Vec<u8>, lit: Vec<u8>) -> (r: bool)
    ensures
        r == (w@ == lit@),
{
    bytes_eq(w, &lit)
}

/// Whether some argument in `args` is named `name`.
fn has_arg(args: &Vec<Arg>, name: &Vec<u8>) -> (r: bool)
    ensures
        r == exists|i: int| 0 <= i < args@.len() && (#[trigger] args@[i]).name@ == name@,
{
    let mut i: usize = 0;
    while i < args.len()
        invariant
            i <= args.len(),
            forall|j: int| 0 <= j < i ==> (#[trigger] args@[j]).name@ != name@,
        decreases args.len() - i,
    {
        if bytes_eq(&args[i].name, name) {
            return true;
        }
        i += 1;
    }
    false
}

/// Parses the named arguments of a call, from just after its `(` through its
/// `)`. Returns them and the position after the `)`.
fn parse_args(toks: &Vec<Tok>, pos: usize, end: usize) -> (r: Result<(Vec<Arg>, usize), ParseError>)
    requires
        toks_in(toks@, end as nat),
        pos <= toks@.len(),
    ensures
        r matches Ok((args, next)) ==> pos < next <= toks@.len() && args_distinct(args@)
            && (forall|i: int| 0 <= i < args@.len() ==> #[trigger] expr_wf(args@[i].value))
            && span(toks@, pos as int, next as int) == args_tokens(args@, args@.len()) + seq![TokenModel::Sym(41)],
        r matches Err(e) ==> e.position <= end,
        forall|s: Seq<Arg>|
                args_distinct(s) && args_ok(s, s.len()) && #[trigger] at(toks@, pos as int, args_tokens(s, s.len()) + seq![TokenModel::Sym(41)])
                ==> (r matches Ok((_, next)) && next == pos + args_tokens(s, s.len()).len() + 1),
        forall|s: Seq<Arg>, m: int|
                #![trigger at(toks@, pos as int, args_tokens(s, s.len()) + seq![TokenModel::Sym(41)]), dup_at(s, m)]
                args_ok(s, s.len()) && dup_at(s, m) && at(toks@, pos as int, args_tokens(s, s.len()) + seq![TokenModel::Sym(41)])
                ==> (r matches Err(e) && e.kind == ParseErrorKind::DuplicateArgument),
    decreases toks@.len() - pos, 2nat,
{
    let mut args: Vec<Arg> = Vec::new();
    if is_sym_at(toks, pos, 41) {
        assert(span(toks@, pos as int, pos + 1) =~= args_tokens(args@, args@.len()) + seq![TokenModel::Sym(41)]);
        assert forall|s: Seq<Arg>|
                args_distinct(s) && args_ok(s, s.len()) && #[trigger] at(toks@, pos as int, args_tokens(s, s.len()) + seq![TokenModel::Sym(41)])
                implies pos + 1 == pos + args_tokens(s, s.len()).len() + 1 by {
            if s.len() > 0 {
                lemma_args_whole(s, s.len());
                lemma_args_step(toks@, pos as int, s, 0);
            }
        }
        assert forall|s: Seq<Arg>, m: int|
                #![trigger at(toks@, pos as int, args_tokens(s, s.len()) + seq![TokenModel::Sym(41)]), dup_at(s, m)]
                args_ok(s, s.len()) && dup_at(s, m) && at(toks@, pos as int, args_tokens(s, s.len()) + seq![TokenModel::Sym(41)]) implies false by {
            lemma_args_whole(s, s.len());
            lemma_args_step(toks@, pos as int, s, 0);
        }
        return Ok((args, pos + 1));
    }
    assert forall|s: Seq<Arg>, m: int|
                #![trigger at(toks@, pos as int, args_tokens(s, s.len()) + seq![TokenModel::Sym(41)]), dup_at(s, m)]
                args_ok(s, s.len()) && dup_at(s, m) && at(toks@, pos as int, args_tokens(s, s.len()) + seq![TokenModel::Sym(41)])
            implies at(toks@, pos as int, arg_unit(s[0]) + args_tail(s, 1, s.len()) + seq![TokenModel::Sym(41)]) by {
        lemma_args_whole(s, s.len());
    }
    assert forall|s: Seq<Arg>|
                args_distinct(s) && args_ok(s, s.len()) && #[trigger] at(toks@, pos as int, args_tokens(s, s.len()) + seq![TokenModel::Sym(41)])
            implies s.len() > 0 && at(toks@, pos as int, arg_unit(s[0]) + args_tail(s, 1, s.len()) + seq![TokenModel::Sym(41)])
            && args_tokens(s, s.len()) == arg_unit(s[0]) + args_tail(s, 1, s.len()) by {
        if s.len() == 0 {
            assert(args_tokens(s, s.len()) + seq![TokenModel::Sym(41)] =~= seq![TokenModel::Sym(41)]);
            lemma_at_first(toks@, pos as int, args_tokens(s, s.len()) + seq![TokenModel::Sym(41)]);
        } else {
            lemma_args_whole(s, s.len());
        }
    }
    let mut p = pos;
    loop
        invariant
            toks_in(toks@, end as nat),
            pos <= p <= toks@.len(),
            args@.len() == 0 ==> p == pos,
            args@.len() > 0 ==> span(toks@, pos as int, p as int) == args_tokens(args@, args@.len()) + seq![TokenModel::Sym(44)],
            args_distinct(args@),
            forall|i: int| 0 <= i < args@.len() ==> #[trigger] expr_wf(args@[i].value),
            forall|s: Seq<Arg>|
                args_distinct(s) && args_ok(s, s.len()) && #[trigger] at(toks@, pos as int, args_tokens(s, s.len()) + seq![TokenModel::Sym(41)])
                ==> args@.len() < s.len() && at(toks@, p as int, (arg_unit(s[args@.len() as int]) + args_tail(s, args@.len() + 1, s.len()) + seq![TokenModel::Sym(41)]))
                && p + (arg_unit(s[args@.len() as int]) + args_tail(s, args@.len() + 1, s.len()) + seq![TokenModel::Sym(41)]).len() == pos + args_tokens(s, s.len()).len() + 1
                && forall|j: int| 0 <= j < args@.len() ==> (#[trigger] args@[j]).name@ == s[j].name@,
            forall|s: Seq<Arg>, m: int|
                #![trigger at(toks@, pos as int, args_tokens(s, s.len()) + seq![TokenModel::Sym(41)]), dup_at(s, m)]
                args_ok(s, s.len()) && dup_at(s, m) && at(toks@, pos as int, args_tokens(s, s.len()) + seq![TokenModel::Sym(41)])
                ==> args@.len() <= m && at(toks@, p as int, (arg_unit(s[args@.len() as int]) + args_tail(s, args@.len() + 1, s.len()) + seq![TokenModel::Sym(41)]))
                && forall|j: int| 0 <= j < args@.len() ==> (#[trigger] args@[j]).name@ == s[j].name@,
        decreases toks@.len() - p,
    {
        let ghost k = args@.len();
        proof {
            assert forall|s: Seq<Arg>|
                args_distinct(s) && args_ok(s, s.len()) && #[trigger] at(toks@, pos as int, args_tokens(s, s.len()) + seq![TokenModel::Sym(41)])
                implies p + 1 < toks@.len() && token_model(toks@[p as int].token) == TokenModel::Word(s[k as int].name@)
                && token_model(toks@[p + 1].token) == TokenModel::Sym(61)
                && forall|j: int| 0 <= j < k ==> (#[trigger] args@[j]).name@ != s[k as int].name@ by {
                lemma_args_step(toks@, p as int, s, k);
                assert forall|j: int| 0 <= j < k implies (#[trigger] args@[j]).name@ != s[k as int].name@ by {
                    assert(args@[j].name@ == s[j].name@);
                }
            }
            assert forall|s: Seq<Arg>, m: int|
                #![trigger at(toks@, pos as int, args_tokens(s, s.len()) + seq![TokenModel::Sym(41)]), dup_at(s, m)]
                args_ok(s, s.len()) && dup_at(s, m) && at(toks@, pos as int, args_tokens(s, s.len()) + seq![TokenModel::Sym(41)])
                implies p + 1 < toks@.len() && token_model(toks@[p as int].token) == TokenModel::Word(s[k as int].name@)
                && token_model(toks@[p + 1].token) == TokenModel::Sym(61)
                && (k < m ==> forall|j: int| 0 <= j < k ==> (#[trigger] args@[j]).name@ != s[k as int].name@)
                && (k == m ==> exists|j: int| 0 <= j < k && (#[trigger] args@[j]).name@ == s[k as int].name@) by {
                lemma_args_step(toks@, p as int, s, k);
                if k < m {
                    assert forall|j: int| 0 <= j < k implies (#[trigger] args@[j]).name@ != s[k as int].name@ by {
                        assert(args@[j].name@ == s[j].name@);
                        assert(s.subrange(0, m)[j] == s[j] && s.subrange(0, m)[k as int] == s[k as int]);
                    }
                } else {
                    let i = choose|i: int| 0 <= i < m && s[i].name@ == s[m].name@;
                    assert(args@[i].name@ == s[i].name@);
                }
            }
        }
        let name = if p < toks.len() {
            match &toks[p].token {
                Token::Word(w) => {
                    let n = w.clone();
                    assert(n@ =~= w@);
                    n
                },
                _ => return Err(error_at(toks, p, end)),
            }
        } else {
            return Err(error_at(toks, p, end));
        };
        assert(token_model(toks@[p as int].token) == TokenModel::Word(name@));
        if !is_sym_at(toks, p + 1, 61) {
            return Err(error_at(toks, p + 1, end));
        }
        if has_arg(&args, &name) {
            return Err(ParseError { kind: ParseErrorKind::DuplicateArgument, position: toks[p].pos });
        }
        let res = parse_expr(toks, p + 2, end);
        proof {
            assert forall|s: Seq<Arg>, m: int|
                #![trigger at(toks@, pos as int, args_tokens(s, s.len()) + seq![TokenModel::Sym(41)]), dup_at(s, m)]
                args_ok(s, s.len()) && dup_at(s, m) && at(toks@, pos as int, args_tokens(s, s.len()) + seq![TokenModel::Sym(41)])
                implies res matches Ok((_, q)) && q == p + 2 + expr_tokens(s[k as int].value).len() by {
                lemma_args_step(toks@, p as int, s, k);
                lemma_args_ok(s, s.len(), k as int);
            }
            assert forall|s: Seq<Arg>|
                args_distinct(s) && args_ok(s, s.len()) && #[trigger] at(toks@, pos as int, args_tokens(s, s.len()) + seq![TokenModel::Sym(41)])
                implies res matches Ok((_, q)) && q == p + 2 + expr_tokens(s[k as int].value).len() by {
                lemma_args_step(toks@, p as int, s, k);
                lemma_args_ok(s, s.len(), k as int);
            }
        }
        let (value, q) = match res {
            Ok(x) => x,
            Err(e) => return Err(e),
        };
        let ghost before = args@;
        let ghost vt = expr_tokens(value);
        let ghost nm = name@;
        args.push(Arg { name, value });
        proof {
            let n = before.len();
            lemma_span_join(toks@, p as int, p + 2, q as int);
            assert(span(toks@, p as int, p + 2) =~= seq![TokenModel::Word(nm), TokenModel::Sym(61)]);
            if n > 0 {
                assert(args@.subrange(0, n as int) =~= before.subrange(0, n as int));
                lemma_args_prefix(args@, before, n as nat);
                lemma_span_join(toks@, pos as int, p as int, q as int);
                assert(args_tokens(args@, args@.len()) =~= args_tokens(before, n as nat) + seq![TokenModel::Sym(44)]
                    + seq![TokenModel::Word(nm), TokenModel::Sym(61)] + vt);
            }
            assert(span(toks@, pos as int, q as int) == args_tokens(args@, args@.len()));
        }
        assert(args_distinct(args@)) by {
            assert forall|i: int, j: int| 0 <= i < j < args@.len() implies args@[i].name@
                != args@[j].name@ by {
                if j == args@.len() - 1 {
                    assert(args@[i] == before[i]);
                }
            }
        }
        if is_sym_at(toks, q, 41) {
            proof {
                lemma_span_join(toks@, pos as int, q as int, q + 1);
                assert(span(toks@, q as int, q + 1) =~= seq![TokenModel::Sym(41)]);
                assert forall|s: Seq<Arg>|
                args_distinct(s) && args_ok(s, s.len()) && #[trigger] at(toks@, pos as int, args_tokens(s, s.len()) + seq![TokenModel::Sym(41)])
                    implies q + 1 == pos + args_tokens(s, s.len()).len() + 1 by {
                    lemma_args_step(toks@, p as int, s, k);
                    if k + 1 == s.len() {
                        assert(args_tail(s, k + 1, s.len()) =~= Seq::<TokenModel>::empty());
                    }
                }
                assert forall|s: Seq<Arg>, m: int|
                #![trigger at(toks@, pos as int, args_tokens(s, s.len()) + seq![TokenModel::Sym(41)]), dup_at(s, m)]
                args_ok(s, s.len()) && dup_at(s, m) && at(toks@, pos as int, args_tokens(s, s.len()) + seq![TokenModel::Sym(41)])
                implies false by {
                    lemma_args_step(toks@, p as int, s, k);
            }
            }
            return Ok((args, q + 1));
        }
        if !is_sym_at(toks, q, 44) {
            proof {
                assert forall|s: Seq<Arg>|
                args_distinct(s) && args_ok(s, s.len()) && #[trigger] at(toks@, pos as int, args_tokens(s, s.len()) + seq![TokenModel::Sym(41)]) implies false by {
                    lemma_args_step(toks@, p as int, s, k);
                }
                assert forall|s: Seq<Arg>, m: int|
                #![trigger at(toks@, pos as int, args_tokens(s, s.len()) + seq![TokenModel::Sym(41)]), dup_at(s, m)]
                args_ok(s, s.len()) && dup_at(s, m) && at(toks@, pos as int, args_tokens(s, s.len()) + seq![TokenModel::Sym(41)])
                implies false by {
                    lemma_args_step(toks@, p as int, s, k);
            }
            }
            return Err(error_at(toks, q, end));
        }
        proof {
            lemma_span_join(toks@, pos as int, q as int, q + 1);
            assert(span(toks@, q as int, q + 1) =~= seq![TokenModel::Sym(44)]);
            assert forall|s: Seq<Arg>|
                args_distinct(s) && args_ok(s, s.len()) && #[trigger] at(toks@, pos as int, args_tokens(s, s.len()) + seq![TokenModel::Sym(41)])
                implies args@.len() < s.len() && at(toks@, q + 1, (arg_unit(s[args@.len() as int]) + args_tail(s, args@.len() + 1, s.len()) + seq![TokenModel::Sym(41)]))
                && q + 1 + (arg_unit(s[args@.len() as int]) + args_tail(s, args@.len() + 1, s.len()) + seq![TokenModel::Sym(41)]).len() == pos + args_tokens(s, s.len()).len() + 1
                && forall|j: int| 0 <= j < args@.len() ==> (#[trigger] args@[j]).name@ == s[j].name@ by {
                lemma_args_step(toks@, p as int, s, k);
                lemma_args_front(s, k + 1, s.len());
                assert forall|j: int| 0 <= j < args@.len() implies (#[trigger] args@[j]).name@ == s[j].name@ by {
                    if j < k {
                        assert(args@[j] == before[j]);
                    }
                }
            }
            assert forall|s: Seq<Arg>, m: int|
                #![trigger at(toks@, pos as int, args_tokens(s, s.len()) + seq![TokenModel::Sym(41)]), dup_at(s, m)]
                args_ok(s, s.len()) && dup_at(s, m) && at(toks@, pos as int, args_tokens(s, s.len()) + seq![TokenModel::Sym(41)])
                implies args@.len() <= m && at(toks@, q + 1, (arg_unit(s[args@.len() as int]) + args_tail(s, args@.len() + 1, s.len()) + seq![TokenModel::Sym(41)]))
                && forall|j: int| 0 <= j < args@.len() ==> (#[trigger] args@[j]).name@ == s[j].name@ by {
                lemma_args_step(toks@, p as int, s, k);
                lemma_args_front(s, k + 1, s.len());
                assert forall|j: int| 0 <= j < args@.len() implies (#[trigger] args@[j]).name@ == s[j].name@ by {
                    if j < k {
                        assert(args@[j] == before[j]);
                    }
                }
            }
        }
        p = q + 1;
    }
}

/// Parses the list items after a `[` through the closing `]`.
fn parse_items(toks: &Vec<Tok>, pos: usize, end: usize) -> (r: Result<(Vec<Expr>, usize), ParseError>)
    requires
        toks_in(toks@, end as nat),
        pos <= toks@.len(),
    ensures
        r matches Ok((items, next)) ==> pos < next <= toks@.len()
            && (forall|i: int| 0 <= i < items@.len() ==> #[trigger] expr_wf(items@[i]))
            && span(toks@, pos as int, next as int) == items_tokens(items@, items@.len()) + seq![TokenModel::Sym(93)],
        r matches Err(e) ==> e.position <= end,
        forall|s: Seq<Expr>|
            items_ok(s, s.len()) && #[trigger] at(toks@, pos as int, items_tokens(s, s.len()) + seq![TokenModel::Sym(93)])
                ==> (r matches Ok((_, next)) && next == pos + items_tokens(s, s.len()).len() + 1),
    decreases toks@.len() - pos, 2nat,
{
    let mut items: Vec<Expr> = Vec::new();
    if is_sym_at(toks, pos, 93) {
        assert(span(toks@, pos as int, pos + 1) =~= items_tokens(items@, items@.len()) + seq![TokenModel::Sym(93)]);
        assert forall|s: Seq<Expr>|
            items_ok(s, s.len()) && #[trigger] at(toks@, pos as int, items_tokens(s, s.len()) + seq![TokenModel::Sym(93)])
                implies pos + 1 == pos + items_tokens(s, s.len()).len() + 1 by {
            if s.len() > 0 {
                lemma_items_whole(s, s.len());
                lemma_expr_first(s[0]);
                assert((items_tokens(s, s.len()) + seq![TokenModel::Sym(93)])[0] == expr_tokens(s[0])[0]);
                lemma_at_first(toks@, pos as int, items_tokens(s, s.len()) + seq![TokenModel::Sym(93)]);
            }
        }
        return Ok((items, pos + 1));
    }
    assert forall|s: Seq<Expr>|
        items_ok(s, s.len()) && #[trigger] at(toks@, pos as int, items_tokens(s, s.len()) + seq![TokenModel::Sym(93)])
            implies s.len() > 0 && at(toks@, pos as int, expr_tokens(s[0]) + items_tail(s, 1, s.len()) + seq![TokenModel::Sym(93)])
            && items_tokens(s, s.len()) == expr_tokens(s[0]) + items_tail(s, 1, s.len()) by {
        if s.len() == 0 {
            assert(items_tokens(s, s.len()) + seq![TokenModel::Sym(93)] =~= seq![TokenModel::Sym(93)]);
            lemma_at_first(toks@, pos as int, items_tokens(s, s.len()) + seq![TokenModel::Sym(93)]);
        } else {
            lemma_items_whole(s, s.len());
        }
    }
    let mut p = pos;
    loop
        invariant
            toks_in(toks@, end as nat),
            pos <= p <= toks@.len(),
            items@.len() == 0 ==> p == pos,
            items@.len() > 0 ==> span(toks@, pos as int, p as int) == items_tokens(items@, items@.len()) + seq![TokenModel::Sym(44)],
            forall|i: int| 0 <= i < items@.len() ==> #[trigger] expr_wf(items@[i]),
            forall|s: Seq<Expr>|
                items_ok(s, s.len()) && #[trigger] at(toks@, pos as int, items_tokens(s, s.len()) + seq![TokenModel::Sym(93)])
                    ==> items@.len() < s.len() && at(
                    toks@,
                    p as int,
                    expr_tokens(s[items@.len() as int]) + items_tail(s, items@.len() + 1, s.len()) + seq![TokenModel::Sym(93)],
                ) && p + (expr_tokens(s[items@.len() as int]) + items_tail(s, items@.len() + 1, s.len()) + seq![TokenModel::Sym(93)]).len()
                    == pos + items_tokens(s, s.len()).len() + 1,
        decreases toks@.len() - p,
    {
        let ghost k = items@.len();
        let res = parse_expr(toks, p, end);
        proof {
            assert forall|s: Seq<Expr>|
                items_ok(s, s.len()) && #[trigger] at(toks@, pos as int, items_tokens(s, s.len()) + seq![TokenModel::Sym(93)])
                    implies res matches Ok((_, q)) && q == p + expr_tokens(s[k as int]).len() by {
                lemma_items_step(toks@, p as int, s, k);
                lemma_items_ok(s, s.len(), k as int);
            }
        }
        let (item, q) = match res {
            Ok(x) => x,
            Err(e) => return Err(e),
        };
        let ghost before = items@;
        let ghost it = expr_tokens(item);
        items.push(item);
        proof {
            let n = before.len();
            if n > 0 {
                assert(items@.subrange(0, n as int) =~= before.subrange(0, n as int));
                lemma_items_prefix(items@, before, n as nat);
                lemma_span_join(toks@, pos as int, p as int, q as int);
                assert(items_tokens(items@, items@.len()) =~= items_tokens(before, n as nat) + seq![TokenModel::Sym(44)] + it);
            }
            assert(span(toks@, pos as int, q as int) == items_tokens(items@, items@.len()));
        }
        if is_sym_at(toks, q, 93) {
            proof {
                lemma_span_join(toks@, pos as int, q as int, q + 1);
                assert(span(toks@, q as int, q + 1) =~= seq![TokenModel::Sym(93)]);
                assert forall|s: Seq<Expr>|
                    items_ok(s, s.len()) && #[trigger] at(toks@, pos as int, items_tokens(s, s.len()) + seq![TokenModel::Sym(93)])
                        implies q + 1 == pos + items_tokens(s, s.len()).len() + 1 by {
                    lemma_items_step(toks@, p as int, s, k);
                    if k + 1 < s.len() {
                    } else {
                        assert(items_tail(s, k + 1, s.len()) =~= Seq::<TokenModel>::empty());
                    }
                }
            }
            return Ok((items, q + 1));
        }
        if !is_sym_at(toks, q, 44) {
            proof {
                assert forall|s: Seq<Expr>|
                    items_ok(s, s.len()) && #[trigger] at(toks@, pos as int, items_tokens(s, s.len()) + seq![TokenModel::Sym(93)])
                        implies false by {
                    lemma_items_step(toks@, p as int, s, k);
                }
            }
            return Err(error_at(toks, q, end));
        }
        proof {
            lemma_span_join(toks@, pos as int, q as int, q + 1);
            assert(span(toks@, q as int, q + 1) =~= seq![TokenModel::Sym(44)]);
            assert forall|s: Seq<Expr>|
                items_ok(s, s.len()) && #[trigger] at(toks@, pos as int, items_tokens(s, s.len()) + seq![TokenModel::Sym(93)])
                    implies items@.len() < s.len() && at(
                    toks@,
                    q + 1,
                    expr_tokens(s[items@.len() as int]) + items_tail(s, items@.len() + 1, s.len()) + seq![TokenModel::Sym(93)],
                ) && q + 1 + (expr_tokens(s[items@.len() as int]) + items_tail(s, items@.len() + 1, s.len()) + seq![TokenModel::Sym(93)]).len()
                    == pos + items_tokens(s, s.len()).len() + 1 by {
                lemma_items_step(toks@, p as int, s, k);
                lemma_items_front(s, k + 1, s.len());
            }
        }
        p = q + 1;
    }
}

/// Parses one expression at `pos`. Returns it and the position after it.
#[verifier::rlimit(60)]
pub fn parse_expr(toks: &Vec<Tok>, pos: usize, end: usize) -> (r: Result<(Expr, usize), ParseError>)
    requires
        toks_in(toks@, end as nat),
        pos <= toks@.len(),
    ensures
        r matches Ok((e, next)) ==> pos < next <= toks@.len() && expr_wf(e) && span(
            toks@,
            pos as int,
            next as int,
        ) == expr_tokens(e),
        r matches Err(e) ==> e.position <= end,
        forall|e: Expr|
            expr_ok(e) && #[trigger] at(toks@, pos as int, expr_tokens(e)) && not_open(toks@, pos + expr_tokens(e).len())
                ==> (r matches Ok((_, next)) && next == pos + expr_tokens(e).len()),
    decreases toks@.len() - pos, 1nat,
{
    if pos >= toks.len() {
        proof {
            assert forall|e: Expr|
            expr_ok(e) && #[trigger] at(toks@, pos as int, expr_tokens(e)) && not_open(toks@, pos + expr_tokens(e).len())
                implies false by {
                lemma_expr_at(toks@, pos as int, e);
                
            }
        }
        return Err(error_at(toks, pos, end));
    }
    let ghost first = span(toks@, pos as int, pos + 1);
    assert(first =~= seq![token_model(toks@[pos as int].token)]);
    match &toks[pos].token {
        Token::Number(n) => {
            proof {
                assert forall|e: Expr|
            expr_ok(e) && #[trigger] at(toks@, pos as int, expr_tokens(e)) && not_open(toks@, pos + expr_tokens(e).len())
                    implies pos + 1 == pos + expr_tokens(e).len() by {
                    lemma_expr_at(toks@, pos as int, e);
                    lemma_expr_shape(e);
                }
            }
            Ok((Expr::Number(*n), pos + 1))
        },
        Token::Text(t) => {
            let c = t.clone();
            assert(c@ =~= t@);
            proof {
                assert forall|e: Expr|
            expr_ok(e) && #[trigger] at(toks@, pos as int, expr_tokens(e)) && not_open(toks@, pos + expr_tokens(e).len())
                    implies pos + 1 == pos + expr_tokens(e).len() by {
                    lemma_expr_at(toks@, pos as int, e);
                    lemma_expr_shape(e);
                }
            }
            Ok((Expr::Text(c), pos + 1))
        },
        Token::Word(w) => {
            if word_is(w, vec![116u8, 114u8, 117u8, 101u8]) {
                assert(w@ =~= kw_true());
                proof {
                    assert forall|e: Expr|
            expr_ok(e) && #[trigger] at(toks@, pos as int, expr_tokens(e)) && not_open(toks@, pos + expr_tokens(e).len())
                        implies pos + 1 == pos + expr_tokens(e).len() by {
                        lemma_expr_at(toks@, pos as int, e);
                        lemma_expr_shape(e);
                    }
                }
                Ok((Expr::Boolean(true), pos + 1))
            } else if word_is(w, vec![102u8, 97u8, 108u8, 115u8, 101u8]) {
                assert(w@ =~= kw_false());
                proof {
                    assert forall|e: Expr|
            expr_ok(e) && #[trigger] at(toks@, pos as int, expr_tokens(e)) && not_open(toks@, pos + expr_tokens(e).len())
                        implies pos + 1 == pos + expr_tokens(e).len() by {
                        lemma_expr_at(toks@, pos as int, e);
                        lemma_expr_shape(e);
                    }
                }
                Ok((Expr::Boolean(false), pos + 1))
            } else if is_sym_at(toks, pos + 1, 40) {
                let res = parse_args(toks, pos + 2, end);
                proof {
                    assert forall|e: Expr|
            expr_ok(e) && #[trigger] at(toks@, pos as int, expr_tokens(e)) && not_open(toks@, pos + expr_tokens(e).len())
                implies res matches Ok((_, next)) && next == pos + expr_tokens(e).len() by {
                lemma_expr_at(toks@, pos as int, e);
                lemma_expr_shape(e);
            }
                }
                match res {
                    Ok((args, next)) => {
                        let name = w.clone();
                        assert(name@ =~= w@);
                        proof {
                            lemma_args_wf(args@, args@.len());
                            lemma_span_join(toks@, pos as int, pos + 2, next as int);
                            assert(span(toks@, pos as int, pos + 2) =~= seq![TokenModel::Word(name@), TokenModel::Sym(40)]);
                            assert(span(toks@, pos as int, next as int) =~= seq![TokenModel::Word(name@), TokenModel::Sym(40)]
                                + args_tokens(args@, args@.len()) + seq![TokenModel::Sym(41)]);
                        }
                        Ok((Expr::Call { name, args }, next))
                    },
                    Err(e) => Err(e),
                }
            } else {
                let name = w.clone();
                assert(name@ =~= w@);
                proof {
                    assert forall|e: Expr|
            expr_ok(e) && #[trigger] at(toks@, pos as int, expr_tokens(e)) && not_open(toks@, pos + expr_tokens(e).len())
                        implies pos + 1 == pos + expr_tokens(e).len() by {
                        lemma_expr_at(toks@, pos as int, e);
                        lemma_expr_shape(e);
                    }
                }
                Ok((Expr::Ident(name), pos + 1))
            }
        },
        Token::Path(p) => {
            if is_sym_at(toks, pos + 1, 40) {
                let res = parse_args(toks, pos + 2, end);
                proof {
                    assert forall|e: Expr|
            expr_ok(e) && #[trigger] at(toks@, pos as int, expr_tokens(e)) && not_open(toks@, pos + expr_tokens(e).len())
                implies res matches Ok((_, next)) && next == pos + expr_tokens(e).len() by {
                lemma_expr_at(toks@, pos as int, e);
                lemma_expr_shape(e);
            }
                }
                match res {
                    Ok((args, next)) => {
                        let path = p.clone();
                        assert(path@ =~= p@);
                        proof {
                            lemma_args_wf(args@, args@.len());
                            lemma_span_join(toks@, pos as int, pos + 2, next as int);
                            assert(span(toks@, pos as int, pos + 2) =~= seq![TokenModel::Path(path@), TokenModel::Sym(40)]);
                            assert(span(toks@, pos as int, next as int) =~= seq![TokenModel::Path(path@), TokenModel::Sym(40)]
                                + args_tokens(args@, args@.len()) + seq![TokenModel::Sym(41)]);
                        }
                        Ok((Expr::Import { path, args }, next))
                    },
                    Err(e) => Err(e),
                }
            } else {
                proof {
                    assert forall|e: Expr|
            expr_ok(e) && #[trigger] at(toks@, pos as int, expr_tokens(e)) && not_open(toks@, pos + expr_tokens(e).len())
                        implies false by {
                        lemma_expr_at(toks@, pos as int, e);
                        lemma_expr_shape(e);
                    }
                }
                Err(error_at(toks, pos + 1, end))
            }
        },
        Token::Sym(c) => {
            if *c == 91 {
                let res = parse_items(toks, pos + 1, end);
                proof {
                    assert forall|e: Expr|
            expr_ok(e) && #[trigger] at(toks@, pos as int, expr_tokens(e)) && not_open(toks@, pos + expr_tokens(e).len())
                implies res matches Ok((_, next)) && next == pos + expr_tokens(e).len() by {
                lemma_expr_at(toks@, pos as int, e);
                lemma_expr_shape(e);
            }
                }
                match res {
                    Ok((items, next)) => {
                        proof {
                            lemma_exprs_wf(items@, items@.len());
                            lemma_span_join(toks@, pos as int, pos + 1, next as int);
                            assert(span(toks@, pos as int, next as int) =~= seq![TokenModel::Sym(91)]
                                + items_tokens(items@, items@.len()) + seq![TokenModel::Sym(93)]);
                        }
                        Ok((Expr::List(items), next))
                    },
                    Err(e) => Err(e),
                }
            } else {
                proof {
                    assert forall|e: Expr|
            expr_ok(e) && #[trigger] at(toks@, pos as int, expr_tokens(e)) && not_open(toks@, pos + expr_tokens(e).len())
                        implies false by {
                        lemma_expr_at(toks@, pos as int, e);
                        lemma_expr_shape(e);
                    }
                }
                Err(error_at(toks, pos, end))
            }
        },
    }
}

/// Parses the statements `var name = value;` and `value;` that the tokens
/// spell, one after another.
#[verifier::rlimit(60)]
pub fn parse_tokens(toks: &Vec<Tok>, end: usize) -> (r: Result<Vec<Stmt>, ParseError>)
    requires
        toks_in(toks@, end as nat),
    ensures
        r matches Ok(stmts) ==> (forall|i: int| 0 <= i < stmts@.len() ==> #[trigger] stmt_wf(stmts@[i]))
            && span(toks@, 0, toks@.len() as int) == stmts_tokens(stmts@, stmts@.len()),
        r matches Err(e) ==> e.position <= end,
        forall|s: Seq<Stmt>|
            stmts_ok(s) && #[trigger] stmts_tokens(s, s.len()) == span(toks@, 0, toks@.len() as int)
                ==> r is Ok,
{
    let mut stmts: Vec<Stmt> = Vec::new();
    let mut p: usize = 0;
    assert(span(toks@, 0, 0) =~= stmts_tokens(stmts@, 0));
    assert forall|s: Seq<Stmt>|
            stmts_ok(s) && #[trigger] stmts_tokens(s, s.len()) == span(toks@, 0, toks@.len() as int)
        implies at(toks@, 0, stmts_tail(s, 0, s.len())) && stmts_tail(s, 0, s.len()).len() == toks@.len() by {
        lemma_stmts_whole(s, s.len());
    }
    while p < toks.len()
        invariant
            toks_in(toks@, end as nat),
            p <= toks@.len(),
            forall|i: int| 0 <= i < stmts@.len() ==> #[trigger] stmt_wf(stmts@[i]),
            span(toks@, 0, p as int) == stmts_tokens(stmts@, stmts@.len()),
            forall|s: Seq<Stmt>|
            stmts_ok(s) && #[trigger] stmts_tokens(s, s.len()) == span(toks@, 0, toks@.len() as int)
                ==> stmts@.len() <= s.len() && at(toks@, p as int, stmts_tail(s, stmts@.len(), s.len()))
                && p + stmts_tail(s, stmts@.len(), s.len()).len() == toks@.len(),
        decreases toks@.len() - p,
    {
        let start = p;
        let ghost k = stmts@.len();
        proof {
            assert forall|s: Seq<Stmt>|
            stmts_ok(s) && #[trigger] stmts_tokens(s, s.len()) == span(toks@, 0, toks@.len() as int)
                implies k < s.len() && stmt_ok(s[k as int]) by {
                if k == s.len() {
                    assert(stmts_tail(s, k, s.len()) =~= Seq::<TokenModel>::empty());
                }
            }
        }
        let var_name = match &toks[p].token {
            Token::Word(w) => {
                if word_is(w, vec![118u8, 97u8, 114u8]) {
                    assert(w@ =~= kw_var());
                    match if p + 1 < toks.len() { Some(&toks[p + 1].token) } else { None } {
                        Some(Token::Word(n)) => {
                            let name = n.clone();
                            assert(name@ =~= n@);
                            Some(name)
                        },
                        _ => {
                            proof {
                                assert forall|s: Seq<Stmt>|
            stmts_ok(s) && #[trigger] stmts_tokens(s, s.len()) == span(toks@, 0, toks@.len() as int)
                                    implies false by {
                                    lemma_stmt_step(toks@, p as int, s, k);
                                }
                            }
                            return Err(error_at(toks, p + 1, end));
                        },
                    }
                } else {
                    None
                }
            },
            _ => None,
        };
        let stmt;
        match var_name {
            Some(name) => {
                if !is_sym_at(toks, p + 2, 61) {
                    proof {
                        assert forall|s: Seq<Stmt>|
            stmts_ok(s) && #[trigger] stmts_tokens(s, s.len()) == span(toks@, 0, toks@.len() as int)
                            implies false by {
                            lemma_stmt_step(toks@, p as int, s, k);
                        }
                    }
                    return Err(error_at(toks, p + 2, end));
                }
                let res = parse_expr(toks, p + 3, end);
                proof {
                    assert forall|s: Seq<Stmt>|
            stmts_ok(s) && #[trigger] stmts_tokens(s, s.len()) == span(toks@, 0, toks@.len() as int)
                        implies s[k as int] is Var && (res matches Ok((_, q)) && q + 1 == stmt_end(p as int, s[k as int])) by {
                        lemma_stmt_step(toks@, p as int, s, k);
                    }
                }
                let (value, q) = match res {
                    Ok(x) => x,
                    Err(e) => return Err(e),
                };
                proof {
                    lemma_span_join(toks@, start as int, start + 3, q as int);
                    assert(span(toks@, start as int, start + 3) =~= seq![
                        TokenModel::Word(kw_var()),
                        TokenModel::Word(name@),
                        TokenModel::Sym(61),
                    ]);
                }
                stmt = Stmt::Var { name, value };
                p = q;
            },
            None => {
                let res = parse_expr(toks, p, end);
                proof {
                    assert forall|s: Seq<Stmt>|
            stmts_ok(s) && #[trigger] stmts_tokens(s, s.len()) == span(toks@, 0, toks@.len() as int)
                        implies s[k as int] is Expr && (res matches Ok((_, q)) && q + 1 == stmt_end(p as int, s[k as int])) by {
                        lemma_stmt_step(toks@, p as int, s, k);
                    }
                }
                let (value, q) = match res {
                    Ok(x) => x,
                    Err(e) => return Err(e),
                };
                stmt = Stmt::Expr(value);
                p = q;
            },
        }
        if !is_sym_at(toks, p, 59) {
            proof {
                assert forall|s: Seq<Stmt>|
            stmts_ok(s) && #[trigger] stmts_tokens(s, s.len()) == span(toks@, 0, toks@.len() as int)
                    implies false by {
                    lemma_stmt_step(toks@, start as int, s, k);
                }
            }
            return Err(error_at(toks, p, end));
        }
        proof {
            lemma_span_join(toks@, start as int, p as int, p + 1);
            assert(span(toks@, p as int, p + 1) =~= seq![TokenModel::Sym(59)]);
            assert(span(toks@, start as int, p + 1) == stmt_tokens(stmt));
            lemma_span_join(toks@, 0, start as int, p + 1);
        }
        let ghost before = stmts@;
        stmts.push(stmt);
        proof {
            assert(stmts@.subrange(0, before.len() as int) =~= before.subrange(0, before.len() as int));
            lemma_stmts_prefix(stmts@, before, before.len() as nat);
        }
        proof {
            assert forall|s: Seq<Stmt>|
            stmts_ok(s) && #[trigger] stmts_tokens(s, s.len()) == span(toks@, 0, toks@.len() as int)
                implies stmts@.len() <= s.len() && at(toks@, p + 1, stmts_tail(s, stmts@.len(), s.len()))
                && p + 1 + stmts_tail(s, stmts@.len(), s.len()).len() == toks@.len() by {
                lemma_stmt_step(toks@, start as int, s, k);
            }
        }
        p = p + 1;
    }
    Ok(stmts)
}

/// Parses a whole document: its statements spell exactly its tokens.
pub fn parse_document(src: &Vec<u8>) -> (r: Result<Vec<Stmt>, ParseError>)
    ensures
        r matches Ok(stmts) ==> (forall|i: int| 0 <= i < stmts@.len() ==> #[trigger] stmt_wf(stmts@[i]))
            && lex_from(src@, 0) == Ok::<Seq<TokenModel>, LexFailure>(stmts_tokens(stmts@, stmts@.len())),
        lex_from(src@, 0) matches Err((kind, position)) ==> r matches Err(e) && e.kind == kind
            && e.position == position,
        forall|s: Seq<Stmt>|
            stmts_ok(s) && lex_from(src@, 0) == Ok::<Seq<TokenModel>, LexFailure>(#[trigger] stmts_tokens(s, s.len()))
                ==> r is Ok,
        r matches Err(e) ==> e.position <= src@.len(),
{
    let toks = match lex(src) {
        Ok(t) => t,
        Err(e) => return Err(e),
    };
    parse_tokens(&toks, src.len())
}

} // verus!
