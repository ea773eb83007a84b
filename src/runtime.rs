use vstd::prelude::*;
use crate::library::{
    Binding, BindingsModel, ErrorModel, RuntimeError, bindings_model, builtin, call_builtin,
    find_binding, lookup, result_model,
};
use crate::parser::bytes_eq;
use crate::syntax::{Arg, Expr, Stmt};
use crate::value::{Value, ValueModel, copy_value, lemma_models_agree, models_of};

verus! {

/// A document path as written in a call, and the index of the document
/// that it resolves to.
#[derive(Debug)]
pub struct Link {
    pub written: Vec<u8>,
    pub target: usize,
}

/// One parsed document.
#[derive(Debug)]
pub struct Document {
    /// Its normalized path.
    pub path: Vec<u8>,
    /// Its text, as read.
    pub source: Vec<u8>,
    pub stmts: Vec<Stmt>,
    /// The documents that its calls name.
    pub links: Vec<Link>,
}

/// The index of the link written as `path`, if any.
pub open spec fn link_from(links: Seq<Link>, path: Seq<u8>, i: int) -> Option<usize>
    decreases links.len() - i,
{
    if i < 0 || i >= links.len() {
        None
    } else if links[i].written@ == path {
        Some(links[i].target)
    } else {
        link_from(links, path, i + 1)
    }
}

/// What the evaluation of the statements of a document has built so far:
/// its bindings, the names that its `var`s bound, and the last value.
pub type StmtState = (BindingsModel, Seq<Seq<u8>>, Option<ValueModel>);

pub open spec fn eval_expr_spec(
    g: Seq<Document>,
    d: int,
    env: BindingsModel,
    e: Expr,
    depth: nat,
) -> Result<ValueModel, ErrorModel>
    decreases depth, 0nat, e, 0nat,
{
    match e {
        Expr::Number(n) => Ok(ValueModel::Number(n)),
        Expr::Boolean(b) => Ok(ValueModel::Boolean(b)),
        Expr::Text(t) => Ok(ValueModel::Text(t@)),
        Expr::List(items) => match eval_items_spec(g, d, env, items@, items@.len(), depth) {
            Ok(vs) => Ok(ValueModel::List(vs)),
            Err(err) => Err(err),
        },
        Expr::Ident(n) => match lookup(env, n@) {
            Some(v) => Ok(v),
            None => Err(ErrorModel::UnknownIdentifier(n@)),
        },
        Expr::Call { name, args } => match eval_args_spec(g, d, env, args@, args@.len(), depth) {
            Ok(bound) => builtin(name@, bound),
            Err(err) => Err(err),
        },
        Expr::Import { path, args } => match eval_args_spec(g, d, env, args@, args@.len(), depth) {
            Err(err) => Err(err),
            Ok(bound) => if 0 <= d < g.len() {
                match link_from(g[d].links@, path@, 0) {
                    None => Err(ErrorModel::UnknownDocument(path@)),
                    Some(t) => if depth == 0 {
                        Err(ErrorModel::DepthExceeded)
                    } else if t < g.len() {
                        let r = eval_stmts_spec(
                            g,
                            t as int,
                            bound,
                            g[t as int].stmts@,
                            g[t as int].stmts@.len(),
                            (depth - 1) as nat,
                        );
                        doc_result(r)
                    } else {
                        Err(ErrorModel::UnknownDocument(path@))
                    },
                }
            } else {
                Err(ErrorModel::UnknownDocument(path@))
            },
        },
    }
}

/// The value of a document from the state after its statements.
pub open spec fn doc_result(r: Result<StmtState, ErrorModel>) -> Result<ValueModel, ErrorModel> {
    match r {
        Err(err) => Err(err),
        Ok((_, _, None)) => Err(ErrorModel::EmptyDocument),
        Ok((_, _, Some(v))) => Ok(v),
    }
}

/// The values of the first `n` list items.
pub open spec fn eval_items_spec(
    g: Seq<Document>,
    d: int,
    env: BindingsModel,
    s: Seq<Expr>,
    n: nat,
    depth: nat,
) -> Result<Seq<ValueModel>, ErrorModel>
    decreases depth, 0nat, s, n,
{
    if n == 0 || n > s.len() {
        Ok(Seq::empty())
    } else {
        match eval_items_spec(g, d, env, s, (n - 1) as nat, depth) {
            Err(err) => Err(err),
            Ok(vs) => match eval_expr_spec(g, d, env, s[n - 1], depth) {
                Err(err) => Err(err),
                Ok(v) => Ok(vs.push(v)),
            },
        }
    }
}

/// The bindings of the first `n` named arguments.
pub open spec fn eval_args_spec(
    g: Seq<Document>,
    d: int,
    env: BindingsModel,
    s: Seq<Arg>,
    n: nat,
    depth: nat,
) -> Result<BindingsModel, ErrorModel>
    decreases depth, 0nat, s, n,
{
    if n == 0 || n > s.len() {
        Ok(Seq::empty())
    } else {
        match eval_args_spec(g, d, env, s, (n - 1) as nat, depth) {
            Err(err) => Err(err),
            Ok(bs) => match eval_expr_spec(g, d, env, s[n - 1].value, depth) {
                Err(err) => Err(err),
                Ok(v) => Ok(bs.push((s[n - 1].name@, v))),
            },
        }
    }
}

/// The state after the first `n` statements of document `d`, called with
/// the arguments `args`.
pub open spec fn eval_stmts_spec(
    g: Seq<Document>,
    d: int,
    args: BindingsModel,
    s: Seq<Stmt>,
    n: nat,
    depth: nat,
) -> Result<StmtState, ErrorModel>
    decreases depth, 1nat, s, n,
{
    if n == 0 || n > s.len() {
        Ok((args, Seq::empty(), None))
    } else {
        match eval_stmts_spec(g, d, args, s, (n - 1) as nat, depth) {
            Err(err) => Err(err),
            Ok((env, locals, last)) => match s[n - 1] {
                Stmt::Var { name, value } => if locals.contains(name@) {
                    Err(ErrorModel::Rebound(name@))
                } else {
                    match lookup(args, name@) {
                        Some(v) => Ok((env, locals.push(name@), Some(v))),
                        None => match eval_expr_spec(g, d, env, value, depth) {
                            Err(err) => Err(err),
                            Ok(v) => Ok((env.push((name@, v)), locals.push(name@), Some(v))),
                        },
                    }
                },
                Stmt::Expr(value) => match eval_expr_spec(g, d, env, value, depth) {
                    Err(err) => Err(err),
                    Ok(v) => Ok((env, locals, Some(v))),
                },
            },
        }
    }
}

/// The value of document `d` called with `args`, with document calls nested
/// at most `depth` deep.
pub open spec fn eval_doc_spec(
    g: Seq<Document>,
    d: int,
    args: BindingsModel,
    depth: nat,
) -> Result<ValueModel, ErrorModel> {
    doc_result(eval_stmts_spec(g, d, args, g[d].stmts@, g[d].stmts@.len(), depth))
}

proof fn lemma_items_err(g: Seq<Document>, d: int, env: BindingsModel, s: Seq<Expr>, k: nat, n: nat, depth: nat)
    requires
        k <= n <= s.len(),
        eval_items_spec(g, d, env, s, k, depth) is Err,
    ensures
        eval_items_spec(g, d, env, s, n, depth) == eval_items_spec(g, d, env, s, k, depth),
    decreases n - k,
{
    if n > k {
        lemma_items_err(g, d, env, s, k, (n - 1) as nat, depth);
    }
}

proof fn lemma_args_err(g: Seq<Document>, d: int, env: BindingsModel, s: Seq<Arg>, k: nat, n: nat, depth: nat)
    requires
        k <= n <= s.len(),
        eval_args_spec(g, d, env, s, k, depth) is Err,
    ensures
        eval_args_spec(g, d, env, s, n, depth) == eval_args_spec(g, d, env, s, k, depth),
    decreases n - k,
{
    if n > k {
        lemma_args_err(g, d, env, s, k, (n - 1) as nat, depth);
    }
}

proof fn lemma_stmts_err(g: Seq<Document>, d: int, args: BindingsModel, s: Seq<Stmt>, k: nat, n: nat, depth: nat)
    requires
        k <= n <= s.len(),
        eval_stmts_spec(g, d, args, s, k, depth) is Err,
    ensures
        eval_stmts_spec(g, d, args, s, n, depth) == eval_stmts_spec(g, d, args, s, k, depth),
    decreases n - k,
{
    if n > k {
        lemma_stmts_err(g, d, args, s, k, (n - 1) as nat, depth);
    }
}

pub open spec fn names_model(s: Seq<Vec<u8>>) -> Seq<Seq<u8>> {
    Seq::new(s.len(), |i: int| s[i]@)
}

pub open spec fn last_model(v: Option<Value>) -> Option<ValueModel> {
    match v {
        Some(v) => Some(v@),
        None => None,
    }
}

fn find_link(links: &Vec<Link>, path: &Vec<u8>) -> (r: Option<usize>)
    ensures
        r == link_from(links@, path@, 0),
{
    let mut i: usize = 0;
    while i < links.len()
        invariant
            i <= links.len(),
            link_from(links@, path@, 0) == link_from(links@, path@, i as int),
        decreases links.len() - i,
    {
        if bytes_eq(&links[i].written, path) {
            return Some(links[i].target);
        }
        i += 1;
    }
    None
}

fn contains_name(names: &Vec<Vec<u8>>, name: &Vec<u8>) -> (r: bool)
    ensures
        r == names_model(names@).contains(name@),
{
    let mut i: usize = 0;
    while i < names.len()
        invariant
            i <= names.len(),
            forall|j: int| 0 <= j < i ==> names@[j]@ != name@,
        decreases names.len() - i,
    {
        if bytes_eq(&names[i], name) {
            assert(names_model(names@)[i as int] == name@);
            return true;
        }
        i += 1;
    }
    assert(!names_model(names@).contains(name@)) by {
        if names_model(names@).contains(name@) {
            let k = choose|k: int| 0 <= k < names_model(names@).len() && names_model(names@)[k] == name@;
            assert(names@[k]@ == name@);
        }
    }
    false
}

/// An independent copy of a list of bindings.
pub fn copy_bindings(s: &Vec<Binding>) -> (r: Vec<Binding>)
    ensures
        bindings_model(r@) == bindings_model(s@),
{
    let mut r: Vec<Binding> = Vec::new();
    let mut i: usize = 0;
    while i < s.len()
        invariant
            i <= s.len(),
            r@.len() == i,
            forall|j: int| 0 <= j < i ==> (#[trigger] r@[j]).name@ == s@[j].name@ && r@[j].value@ == s@[j].value@,
        decreases s.len() - i,
    {
        let name = s[i].name.clone();
        assert(name@ =~= s@[i as int].name@);
        let b = Binding { name, value: copy_value(&s[i].value) };
        r.push(b);
        i += 1;
    }
    assert(bindings_model(r@) =~= bindings_model(s@));
    r
}

fn eval_items(g: &Vec<Document>, d: usize, env: &Vec<Binding>, items: &Vec<Expr>, depth: u32) -> (r: Result<Vec<Value>, RuntimeError>)
    requires
        d < g@.len(),
    ensures
        match (r, eval_items_spec(g@, d as int, bindings_model(env@), items@, items@.len(), depth as nat)) {
            (Ok(vs), Ok(ms)) => models_of(vs@, vs@.len()) == ms,
            (Err(a), Err(b)) => a@ == b,
            _ => false,
        },
    decreases depth, 0nat, items@, items@.len() + 1,
{
    let ghost m = bindings_model(env@);
    let mut out: Vec<Value> = Vec::new();
    let mut i: usize = 0;
    while i < items.len()
        invariant
            d < g@.len(),
            m == bindings_model(env@),
            i <= items.len(),
            out@.len() == i,
            eval_items_spec(g@, d as int, m, items@, i as nat, depth as nat) == Ok::<Seq<ValueModel>, ErrorModel>(models_of(out@, i as nat)),
        decreases items.len() - i,
    {
        proof {
            assert(decreases_to!(items@ => items@[i as int]));
        }
        let v = match eval_expr(g, d, env, &items[i], depth) {
            Ok(v) => v,
            Err(e) => {
                proof {
                    lemma_items_err(g@, d as int, m, items@, (i + 1) as nat, items@.len(), depth as nat);
                }
                return Err(e);
            },
        };
        let ghost before = out@;
        out.push(v);
        proof {
            lemma_models_agree(out@, before, i as nat);
        }
        i += 1;
    }
    Ok(out)
}

fn eval_args(g: &Vec<Document>, d: usize, env: &Vec<Binding>, args: &Vec<Arg>, depth: u32) -> (r: Result<Vec<Binding>, RuntimeError>)
    requires
        d < g@.len(),
    ensures
        match (r, eval_args_spec(g@, d as int, bindings_model(env@), args@, args@.len(), depth as nat)) {
            (Ok(bs), Ok(ms)) => bindings_model(bs@) == ms,
            (Err(a), Err(b)) => a@ == b,
            _ => false,
        },
    decreases depth, 0nat, args@, args@.len() + 1,
{
    let ghost m = bindings_model(env@);
    let mut out: Vec<Binding> = Vec::new();
    assert(bindings_model(out@) =~= Seq::<(Seq<u8>, ValueModel)>::empty());
    let mut i: usize = 0;
    while i < args.len()
        invariant
            d < g@.len(),
            m == bindings_model(env@),
            i <= args.len(),
            eval_args_spec(g@, d as int, m, args@, i as nat, depth as nat) == Ok::<BindingsModel, ErrorModel>(bindings_model(out@)),
        decreases args.len() - i,
    {
        proof {
            assert(decreases_to!(args@ => args@[i as int]));
            assert(decreases_to!(args@[i as int] => args@[i as int].value));
        }
        let v = match eval_expr(g, d, env, &args[i].value, depth) {
            Ok(v) => v,
            Err(e) => {
                proof {
                    lemma_args_err(g@, d as int, m, args@, (i + 1) as nat, args@.len(), depth as nat);
                }
                return Err(e);
            },
        };
        let ghost before = out@;
        out.push(Binding { name: args[i].name.clone(), value: v });
        assert(bindings_model(out@) =~= bindings_model(before).push((args@[i as int].name@, v@)));
        i += 1;
    }
    Ok(out)
}

/// Evaluates an expression of document `d` in the bindings `env`, with
/// document calls nested at most `depth` deep.
pub fn eval_expr(g: &Vec<Document>, d: usize, env: &Vec<Binding>, e: &Expr, depth: u32) -> (r: Result<Value, RuntimeError>)
    requires
        d < g@.len(),
    ensures
        result_model(r) == eval_expr_spec(g@, d as int, bindings_model(env@), *e, depth as nat),
    decreases depth, 0nat, *e, 0nat,
{
    match e {
        Expr::Number(n) => Ok(Value::Number(*n)),
        Expr::Boolean(b) => Ok(Value::Boolean(*b)),
        Expr::Text(t) => Ok(Value::Text(t.clone())),
        Expr::List(items) => {
            proof {
                assert(decreases_to!(*e => e->List_0));
                assert(decreases_to!(e->List_0 => e->List_0@));
            }
            match eval_items(g, d, env, items, depth) {
                Ok(vs) => Ok(Value::List(vs)),
                Err(err) => Err(err),
            }
        },
        Expr::Ident(n) => match find_binding(env, n) {
            Some(i) => Ok(copy_value(&env[i].value)),
            None => Err(RuntimeError::UnknownIdentifier(n.clone())),
        },
        Expr::Call { name, args } => {
            proof {
                assert(decreases_to!(*e => e->Call_args));
                assert(decreases_to!(e->Call_args => e->Call_args@));
            }
            match eval_args(g, d, env, args, depth) {
                Ok(bound) => call_builtin(name, &bound),
                Err(err) => Err(err),
            }
        },
        Expr::Import { path, args } => {
            proof {
                assert(decreases_to!(*e => e->Import_args));
                assert(decreases_to!(e->Import_args => e->Import_args@));
            }
            let bound = match eval_args(g, d, env, args, depth) {
                Ok(bound) => bound,
                Err(err) => return Err(err),
            };
            match find_link(&g[d].links, path) {
                None => Err(RuntimeError::UnknownDocument(path.clone())),
                Some(t) => {
                    if depth == 0 {
                        Err(RuntimeError::DepthExceeded)
                    } else if t < g.len() {
                        eval_doc(g, t, &bound, depth - 1)
                    } else {
                        Err(RuntimeError::UnknownDocument(path.clone()))
                    }
                },
            }
        },
    }
}

/// Evaluates document `d` called with the named arguments `args`: each
/// `var` binds its name unless the call supplied it, and the value of the
/// last statement is the document's value.
pub fn eval_doc(g: &Vec<Document>, d: usize, args: &Vec<Binding>, depth: u32) -> (r: Result<Value, RuntimeError>)
    requires
        d < g@.len(),
    ensures
        result_model(r) == eval_doc_spec(g@, d as int, bindings_model(args@), depth as nat),
    decreases depth, 1nat,
{
    let ghost am = bindings_model(args@);
    let stmts = &g[d].stmts;
    let mut env = copy_bindings(args);
    let mut locals: Vec<Vec<u8>> = Vec::new();
    let mut last: Option<Value> = None;
    assert(names_model(locals@) =~= Seq::<Seq<u8>>::empty());
    let mut i: usize = 0;
    while i < stmts.len()
        invariant
            d < g@.len(),
            *stmts == g@[d as int].stmts,
            am == bindings_model(args@),
            i <= stmts.len(),
            eval_stmts_spec(g@, d as int, am, stmts@, i as nat, depth as nat) == Ok::<StmtState, ErrorModel>(
                (bindings_model(env@), names_model(locals@), last_model(last)),
            ),
        decreases stmts.len() - i,
    {
        match &stmts[i] {
            Stmt::Var { name, value } => {
                if contains_name(&locals, name) {
                    proof {
                        lemma_stmts_err(g@, d as int, am, stmts@, (i + 1) as nat, stmts@.len(), depth as nat);
                    }
                    return Err(RuntimeError::Rebound(name.clone()));
                }
                let v = match find_binding(args, name) {
                    Some(k) => copy_value(&args[k].value),
                    None => {
                        let v = match eval_expr(g, d, &env, value, depth) {
                            Ok(v) => v,
                            Err(err) => {
                                proof {
                                    lemma_stmts_err(g@, d as int, am, stmts@, (i + 1) as nat, stmts@.len(), depth as nat);
                                }
                                return Err(err);
                            },
                        };
                        let ghost before = env@;
                        env.push(Binding { name: name.clone(), value: copy_value(&v) });
                        assert(bindings_model(env@) =~= bindings_model(before).push((name@, v@)));
                        v
                    },
                };
                let ghost lbefore = locals@;
                locals.push(name.clone());
                assert(names_model(locals@) =~= names_model(lbefore).push(name@));
                last = Some(v);
            },
            Stmt::Expr(value) => {
                let v = match eval_expr(g, d, &env, value, depth) {
                    Ok(v) => v,
                    Err(err) => {
                        proof {
                            lemma_stmts_err(g@, d as int, am, stmts@, (i + 1) as nat, stmts@.len(), depth as nat);
                        }
                        return Err(err);
                    },
                };
                last = Some(v);
            },
        }
        i += 1;
    }
    match last {
        Some(v) => Ok(v),
        None => Err(RuntimeError::EmptyDocument),
    }
}

} // verus!
