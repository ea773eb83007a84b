use vstd::prelude::*;

verus! {

/// An expression of the scripting language.
#[derive(Debug)]
pub enum Expr {
    Number(i64),
    Boolean(bool),
    Text(Vec<u8>),
    List(Vec<Expr>),
    /// A reference to a bound identifier.
    Ident(Vec<u8>),
    /// A call of a builtin by name, with named arguments.
    Call { name: Vec<u8>, args: Vec<Arg> },
    /// A call of another document, named by its path, with named arguments.
    Import { path: Vec<u8>, args: Vec<Arg> },
}

/// A named argument `name=value` of a call.
#[derive(Debug)]
pub struct Arg {
    pub name: Vec<u8>,
    pub value: Expr,
}

/// A top-level statement of a document.
#[derive(Debug)]
pub enum Stmt {
    /// `var name = value;`
    Var { name: Vec<u8>, value: Expr },
    /// `value;`
    Expr(Expr),
}

/// No two arguments of one call share a name.
pub open spec fn args_distinct(args: Seq<Arg>) -> bool {
    forall|i: int, j: int| 0 <= i < j < args.len() ==> args[i].name@ != args[j].name@
}

/// Every call in the expression has distinct argument names.
pub open spec fn expr_wf(e: Expr) -> bool
    decreases e, 1nat,
{
    match e {
        Expr::List(items) => exprs_wf(items@, items@.len()),
        Expr::Call { name, args } => args_distinct(args@) && args_wf(args@, args@.len()),
        Expr::Import { path, args } => args_distinct(args@) && args_wf(args@, args@.len()),
        _ => true,
    }
}

/// The first `n` expressions of `s` are well formed.
pub open spec fn exprs_wf(s: Seq<Expr>, n: nat) -> bool
    decreases s, n,
{
    if n == 0 || n > s.len() {
        true
    } else {
        exprs_wf(s, (n - 1) as nat) && expr_wf(s[n - 1])
    }
}

/// The values of the first `n` arguments of `s` are well formed.
pub open spec fn args_wf(s: Seq<Arg>, n: nat) -> bool
    decreases s, n,
{
    if n == 0 || n > s.len() {
        true
    } else {
        args_wf(s, (n - 1) as nat) && expr_wf(s[n - 1].value)
    }
}

pub open spec fn stmt_wf(s: Stmt) -> bool {
    match s {
        Stmt::Var { value, .. } => expr_wf(value),
        Stmt::Expr(value) => expr_wf(value),
    }
}

pub proof fn lemma_exprs_wf(s: Seq<Expr>, n: nat)
    requires
        n <= s.len(),
        forall|i: int| 0 <= i < n ==> #[trigger] expr_wf(s[i]),
    ensures
        exprs_wf(s, n),
    decreases n,
{
    if n > 0 {
        lemma_exprs_wf(s, (n - 1) as nat);
        assert(expr_wf(s[n - 1]));
    }
}

pub proof fn lemma_args_wf(s: Seq<Arg>, n: nat)
    requires
        n <= s.len(),
        forall|i: int| 0 <= i < n ==> #[trigger] expr_wf(s[i].value),
    ensures
        args_wf(s, n),
    decreases n,
{
    if n > 0 {
        lemma_args_wf(s, (n - 1) as nat);
        assert(expr_wf(s[n - 1].value));
    }
}

} // verus!
