use vstd::prelude::*;
use crate::parser::{LexFailure, ParseError, TokenModel, bytes_eq, lex_from, parse_document, stmts_ok, stmts_tokens};
use crate::runtime::{Document, Link, link_from, names_model};
use crate::syntax::{Arg, Expr, Stmt, stmt_wf};

verus! {

/// The most documents that one resolution takes in.
pub const MAX_DOCUMENTS: usize = 4096;

/// Reads documents and normalizes their paths.
pub trait Reader {
    /// The text of the document at `path`, or a message saying why it
    /// cannot be read.
    fn read(&self, path: &Vec<u8>) -> Result<Vec<u8>, Vec<u8>>;

    /// The canonical form of `path`, the same for every spelling of one file.
    fn normalize(&self, path: &Vec<u8>) -> Vec<u8>;
}

/// A failure while resolving the documents of a script.
#[derive(Debug)]
pub enum ResolutionError {
    /// A document that the reader could not read.
    Read { path: Vec<u8>, message: Vec<u8> },
    /// A document that does not parse.
    Parse { path: Vec<u8>, error: ParseError },
    /// A document that imports itself, directly or through others.
    CyclicImport { path: Vec<u8> },
    /// More documents than one resolution takes in.
    TooManyDocuments,
}

/// The parsed documents of a script; the root is the first.
#[derive(Debug)]
pub struct Ast {
    pub documents: Vec<Document>,
}

/// The directory part of a path: everything through its last `/`.
pub open spec fn dir_of(p: Seq<u8>) -> Seq<u8>
    decreases p.len(),
{
    if p.len() == 0 {
        p
    } else if p.last() == 47 {
        p
    } else {
        dir_of(p.drop_last())
    }
}

/// A path written in a document at `base`, before normalization: an
/// absolute path as it stands, a relative one after the base's directory.
pub open spec fn joined(base: Seq<u8>, written: Seq<u8>) -> Seq<u8> {
    if written.len() > 0 && written[0] == 47 {
        written
    } else {
        dir_of(base) + written
    }
}

/// No two documents share a path.
pub open spec fn paths_unique(docs: Seq<Document>) -> bool {
    forall|i: int, j: int| 0 <= i < j < docs.len() ==> docs[i].path@ != docs[j].path@
}

/// Every link of every document names a document of the graph.
pub open spec fn links_closed(docs: Seq<Document>) -> bool {
    forall|i: int, k: int|
        0 <= i < docs.len() && 0 <= k < docs[i].links@.len() ==> #[trigger] docs[i].links@[k].target
            < docs.len()
}

/// Document `j` is linked from a document before it.
pub open spec fn linked_before(docs: Seq<Document>, j: int) -> bool {
    exists|i: int, k: int|
        0 <= i < j && i < docs.len() && 0 <= k < docs[i].links@.len() && #[trigger] docs[i].links@[k].target == j
}

/// Every document but the root is linked from an earlier one.
pub open spec fn reached(docs: Seq<Document>) -> bool {
    forall|j: int| 0 < j < docs.len() ==> #[trigger] linked_before(docs, j)
}

/// The statements of each document spell exactly the tokens of its text.
pub open spec fn docs_parsed(docs: Seq<Document>) -> bool {
    forall|i: int|
        0 <= i < docs.len() ==> lex_from((#[trigger] docs[i]).source@, 0) == Ok::<Seq<TokenModel>, crate::parser::LexFailure>(
            stmts_tokens(docs[i].stmts@, docs[i].stmts@.len()),
        )
}

/// The well-formed document graphs.
pub open spec fn graph_wf(docs: Seq<Document>) -> bool {
    &&& docs.len() >= 1
    &&& paths_unique(docs)
    &&& links_closed(docs)
    &&& reached(docs)
    &&& acyclic(docs)
    &&& imports_linked(docs)
    &&& links_match(docs)
    &&& docs_parsed(docs)
    &&& forall|i: int, s: int|
        0 <= i < docs.len() && 0 <= s < docs[i].stmts@.len() ==> #[trigger] stmt_wf(docs[i].stmts@[s])
}

impl Ast {
    pub open spec fn wf(&self) -> bool {
        graph_wf(self.documents@)
    }
}

fn dir_len(p: &Vec<u8>) -> (r: usize)
    ensures
        r <= p@.len(),
        p@.subrange(0, r as int) == dir_of(p@),
{
    let mut n = p.len();
    assert(p@.subrange(0, n as int) =~= p@);
    while n > 0 && p[n - 1] != 47
        invariant
            n <= p@.len(),
            dir_of(p@) == dir_of(p@.subrange(0, n as int)),
        decreases n,
    {
        assert(p@.subrange(0, n as int).drop_last() =~= p@.subrange(0, n - 1));
        n -= 1;
    }
    n
}

/// The path that `written`, found in the document at `base`, names before
/// normalization.
pub fn join_path(base: &Vec<u8>, written: &Vec<u8>) -> (r: Vec<u8>)
    ensures
        r@ == joined(base@, written@),
{
    if written.len() > 0 && written[0] == 47 {
        return written.clone();
    }
    let n = dir_len(base);
    let mut r: Vec<u8> = Vec::new();
    let mut i: usize = 0;
    while i < n
        invariant
            n <= base@.len(),
            i <= n,
            r@ == base@.subrange(0, i as int),
        decreases n - i,
    {
        r.push(base[i]);
        i += 1;
        assert(r@ =~= base@.subrange(0, i as int));
    }
    let mut j: usize = 0;
    while j < written.len()
        invariant
            j <= written@.len(),
            r@ == dir_of(base@) + written@.subrange(0, j as int),
        decreases written.len() - j,
    {
        r.push(written[j]);
        j += 1;
        assert(r@ =~= dir_of(base@) + written@.subrange(0, j as int));
    }
    assert(written@.subrange(0, written@.len() as int) =~= written@);
    r
}

/// The paths of the document calls in an expression, in order.
pub open spec fn expr_imports(e: Expr) -> Seq<Seq<u8>>
    decreases e, 1nat,
{
    match e {
        Expr::List(items) => items_imports(items@, items@.len()),
        Expr::Call { args, .. } => args_imports(args@, args@.len()),
        Expr::Import { path, args } => seq![path@] + args_imports(args@, args@.len()),
        _ => Seq::empty(),
    }
}

pub open spec fn items_imports(s: Seq<Expr>, n: nat) -> Seq<Seq<u8>>
    decreases s, n,
{
    if n == 0 || n > s.len() {
        Seq::empty()
    } else {
        items_imports(s, (n - 1) as nat) + expr_imports(s[n - 1])
    }
}

pub open spec fn args_imports(s: Seq<Arg>, n: nat) -> Seq<Seq<u8>>
    decreases s, n,
{
    if n == 0 || n > s.len() {
        Seq::empty()
    } else {
        args_imports(s, (n - 1) as nat) + expr_imports(s[n - 1].value)
    }
}

pub open spec fn stmt_value(st: Stmt) -> Expr {
    match st {
        Stmt::Var { value, .. } => value,
        Stmt::Expr(value) => value,
    }
}

/// The paths of the document calls in the first `n` statements.
pub open spec fn stmts_imports(s: Seq<Stmt>, n: nat) -> Seq<Seq<u8>>
    decreases n,
{
    if n == 0 || n > s.len() {
        Seq::empty()
    } else {
        stmts_imports(s, (n - 1) as nat) + expr_imports(stmt_value(s[n - 1]))
    }
}

/// Every document call of every document has a link.
pub open spec fn imports_linked(docs: Seq<Document>) -> bool {
    forall|i: int, j: int|
        0 <= i < docs.len() && 0 <= j < stmts_imports(docs[i].stmts@, docs[i].stmts@.len()).len()
            ==> link_from(docs[i].links@, #[trigger] stmts_imports(docs[i].stmts@, docs[i].stmts@.len())[j], 0) is Some
}

/// The links of each document are its document calls, in order.
pub open spec fn links_match(docs: Seq<Document>) -> bool {
    forall|i: int|
        0 <= i < docs.len() ==> (#[trigger] docs[i]).links@.len() == stmts_imports(docs[i].stmts@, docs[i].stmts@.len()).len()
            && forall|k: int| 0 <= k < docs[i].links@.len() ==> (#[trigger] docs[i].links@[k]).written@
                == stmts_imports(docs[i].stmts@, docs[i].stmts@.len())[k]
}

proof fn lemma_link_found(links: Seq<Link>, path: Seq<u8>, i: int, k: int)
    requires
        0 <= i <= k < links.len(),
        links[k].written@ == path,
    ensures
        link_from(links, path, i) is Some,
    decreases k - i,
{
    if links[i].written@ != path {
        lemma_link_found(links, path, i + 1, k);
    }
}

/// Appends the paths of the document calls in `e` to `out`, in order.
fn collect_imports(e: &Expr, out: &mut Vec<Vec<u8>>)
    ensures
        names_model(final(out)@) == names_model(old(out)@) + expr_imports(*e),
    decreases *e,
{
    match e {
        Expr::List(items) => {
            let mut i: usize = 0;
            assert(names_model(out@) =~= names_model(old(out)@) + items_imports(items@, 0));
            while i < items.len()
                invariant
                    *e == Expr::List(*items),
                    i <= items.len(),
                    names_model(out@) == names_model(old(out)@) + items_imports(items@, i as nat),
                decreases items.len() - i,
            {
                proof {
                    vstd::std_specs::vec::axiom_vec_index_decreases(*items, i as int);
                    assert(decreases_to!(*e => e->List_0));
                    assert(decreases_to!(*e => items[i as int]));
                }
                collect_imports(&items[i], out);
                assert(names_model(out@) =~= names_model(old(out)@) + items_imports(items@, (i + 1) as nat));
                i += 1;
            }
        },
        Expr::Call { args, .. } => {
            collect_arg_imports(e, args, out);
        },
        Expr::Import { path, args } => {
            let ghost before = names_model(out@);
            out.push(path.clone());
            assert(names_model(out@) =~= before + seq![path@]);
            collect_arg_imports(e, args, out);
            assert(names_model(out@) =~= before + expr_imports(*e));
        },
        _ => {
            assert(names_model(out@) =~= names_model(old(out)@) + expr_imports(*e));
        },
    }
}

fn collect_arg_imports(e: &Expr, args: &Vec<Arg>, out: &mut Vec<Vec<u8>>)
    requires
        (*e matches Expr::Call { args: a, .. } && a == *args) || (*e matches Expr::Import { args: a, .. } && a == *args),
    ensures
        names_model(final(out)@) == names_model(old(out)@) + args_imports(args@, args@.len()),
    decreases *e, 1nat,
{
    let mut i: usize = 0;
    assert(names_model(out@) =~= names_model(old(out)@) + args_imports(args@, 0));
    while i < args.len()
        invariant
            (*e matches Expr::Call { args: a, .. } && a == *args) || (*e matches Expr::Import { args: a, .. } && a == *args),
            i <= args.len(),
            names_model(out@) == names_model(old(out)@) + args_imports(args@, i as nat),
        decreases args.len() - i,
    {
        proof {
            vstd::std_specs::vec::axiom_vec_index_decreases(*args, i as int);
            if *e is Call {
                assert(decreases_to!(*e => e->Call_args));
            } else {
                assert(decreases_to!(*e => e->Import_args));
            }
            assert(decreases_to!(args[i as int] => args[i as int].value));
            assert(decreases_to!(*e => args[i as int].value));
        }
        collect_imports(&args[i].value, out);
        assert(names_model(out@) =~= names_model(old(out)@) + args_imports(args@, (i + 1) as nat));
        i += 1;
    }
}

/// The index of `path` among `paths`, if any.
fn index_of(paths: &Vec<Vec<u8>>, path: &Vec<u8>) -> (r: Option<usize>)
    ensures
        r matches Some(i) ==> i < paths@.len() && paths@[i as int]@ == path@,
        r is None ==> forall|i: int| 0 <= i < paths@.len() ==> paths@[i]@ != path@,
{
    let mut i: usize = 0;
    while i < paths.len()
        invariant
            i <= paths.len(),
            forall|j: int| 0 <= j < i ==> paths@[j]@ != path@,
        decreases paths.len() - i,
    {
        if bytes_eq(&paths[i], path) {
            return Some(i);
        }
        i += 1;
    }
    None
}

/// Some link of `links` names document `j`.
pub open spec fn linked_in(links: Seq<Link>, j: int) -> bool {
    exists|k: int| 0 <= k < links.len() && (#[trigger] links[k]).target == j
}

/// The index of the canonical path `full` among the known `paths`, adding
/// it at the end when it is new. Fails with `TooManyDocuments` exactly when
/// `full` is new and `MAX_DOCUMENTS` paths are already known.
pub fn intern_path(paths: &mut Vec<Vec<u8>>, full: Vec<u8>) -> (r: Result<usize, ResolutionError>)
    requires
        names_unique(old(paths)@),
        old(paths)@.len() <= MAX_DOCUMENTS,
    ensures
        names_unique(final(paths)@),
        final(paths)@.len() <= MAX_DOCUMENTS,
        (exists|i: int| 0 <= i < old(paths)@.len() && old(paths)@[i]@ == full@) ==> (r matches Ok(t) && t
            < old(paths)@.len() && old(paths)@[t as int]@ == full@ && final(paths)@ == old(paths)@),
        (forall|i: int| 0 <= i < old(paths)@.len() ==> old(paths)@[i]@ != full@) ==> if old(paths)@.len()
            < MAX_DOCUMENTS {
            (r matches Ok(t) && t == old(paths)@.len()) && final(paths)@ == old(paths)@.push(full)
        } else {
            r matches Err(ResolutionError::TooManyDocuments) && final(paths)@ == old(paths)@
        },
{
    match index_of(paths, &full) {
        Some(t) => Ok(t),
        None => {
            if paths.len() >= MAX_DOCUMENTS {
                return Err(ResolutionError::TooManyDocuments);
            }
            let ghost before = paths@;
            let ghost f = full@;
            paths.push(full);
            assert(names_unique(paths@)) by {
                assert forall|i: int, j: int| 0 <= i < j < paths@.len() implies paths@[i]@ != paths@[j]@ by {
                    if j == before.len() {
                        assert(paths@[i] == before[i]);
                    } else {
                        assert(paths@[i] == before[i] && paths@[j] == before[j]);
                    }
                }
            }
            Ok(paths.len() - 1)
        },
    }
}

/// The document paths are pairwise distinct.
pub open spec fn names_unique(paths: Seq<Vec<u8>>) -> bool {
    forall|i: int, j: int| 0 <= i < j < paths.len() ==> paths[i]@ != paths[j]@
}

/// `known` after adding, in order, each of the first `n` paths of `t` that
/// it does not hold yet.
pub open spec fn interned(known: Seq<Seq<u8>>, t: Seq<Seq<u8>>, n: nat) -> Seq<Seq<u8>>
    decreases n,
{
    if n == 0 || n > t.len() {
        known
    } else {
        let q = interned(known, t, (n - 1) as nat);
        if q.contains(t[n - 1]) {
            q
        } else {
            q.push(t[n - 1])
        }
    }
}

proof fn lemma_interned_grows(known: Seq<Seq<u8>>, t: Seq<Seq<u8>>, m: nat, n: nat)
    requires
        m <= n <= t.len(),
    ensures
        interned(known, t, m).len() <= interned(known, t, n).len(),
    decreases n - m,
{
    if m < n {
        lemma_interned_grows(known, t, m, (n - 1) as nat);
    }
}

/// The invariant of a resolution in progress: distinct canonical paths in
/// the order met, one parsed document for each of the first of them, every
/// document call linked, and every path after the root linked from a
/// document before it.
pub open spec fn resolving(paths: Seq<Vec<u8>>, docs: Seq<Document>) -> bool {
    &&& docs.len() <= paths.len() <= MAX_DOCUMENTS
    &&& paths.len() >= 1
    &&& names_unique(paths)
    &&& forall|i: int| 0 <= i < docs.len() ==> (#[trigger] docs[i]).path@ == paths[i]@
    &&& forall|i: int, k: int|
        0 <= i < docs.len() && 0 <= k < docs[i].links@.len() ==> #[trigger] docs[i].links@[k].target < paths.len()
    &&& forall|j: int| 0 < j < paths.len() ==> #[trigger] linked_before(docs, j)
    &&& imports_linked(docs)
    &&& links_match(docs)
    &&& docs_parsed(docs)
    &&& forall|i: int, s: int|
        0 <= i < docs.len() && 0 <= s < docs[i].stmts@.len() ==> #[trigger] stmt_wf(docs[i].stmts@[s])
}

/// A resolution in progress: the canonical paths met so far, in order, and
/// a document for each of the first of them. The next path to read is the
/// first without a document.
pub struct Resolver {
    pub paths: Vec<Vec<u8>>,
    pub docs: Vec<Document>,
}

impl Resolver {
    pub open spec fn wf(&self) -> bool {
        resolving(self.paths@, self.docs@)
    }

    /// A resolution that starts at the canonical root path `root`.
    pub fn new(root: Vec<u8>) -> (r: Resolver)
        ensures
            r.wf(),
            names_model(r.paths@) == seq![root@],
            r.docs@.len() == 0,
    {
        let ghost rv = root@;
        let mut paths: Vec<Vec<u8>> = Vec::new();
        paths.push(root);
        let docs: Vec<Document> = Vec::new();
        let r = Resolver { paths, docs };
        assert(names_model(r.paths@) =~= seq![rv]);
        assert(imports_linked(r.docs@) && links_match(r.docs@) && docs_parsed(r.docs@));
        r
    }

    /// The canonical path to read next, if any is left.
    pub fn next_path(&self) -> (r: Option<Vec<u8>>)
        requires
            self.wf(),
        ensures
            r matches Some(p) ==> self.docs@.len() < self.paths@.len() && p@ == self.paths@[self.docs@.len() as int]@,
            r is None ==> self.docs@.len() == self.paths@.len(),
    {
        if self.docs.len() < self.paths.len() {
            let p = self.paths[self.docs.len()].clone();
            assert(p@ =~= self.paths@[self.docs@.len() as int]@);
            Some(p)
        } else {
            None
        }
    }

    /// Parses `text`, the text read for the next path, and lists the paths
    /// of its document calls, in order. Fails with `Parse`, tagged with that
    /// path, exactly as `parse_document` fails on the text.
    pub fn read_document(&self, text: &Vec<u8>) -> (r: Result<(Vec<Stmt>, Vec<Vec<u8>>), ResolutionError>)
        requires
            self.wf(),
            self.docs@.len() < self.paths@.len(),
        ensures
            r matches Err(e) ==> (e matches ResolutionError::Parse { path, error } && path@ == self.paths@[self.docs@.len() as int]@
                && (lex_from(text@, 0) matches Err((kind, position)) ==> error.kind == kind && error.position == position)),
            lex_from(text@, 0) is Err ==> r is Err,
            forall|s: Seq<Stmt>|
                stmts_ok(s) && lex_from(text@, 0) == Ok::<Seq<TokenModel>, LexFailure>(#[trigger] stmts_tokens(s, s.len()))
                    ==> r is Ok,
            r matches Ok((stmts, written)) ==> lex_from(text@, 0) == Ok::<Seq<TokenModel>, LexFailure>(
                stmts_tokens(stmts@, stmts@.len()),
            ) && (forall|s: int| 0 <= s < stmts@.len() ==> #[trigger] stmt_wf(stmts@[s])) && names_model(written@)
                == stmts_imports(stmts@, stmts@.len()),
    {
        let stmts = match parse_document(text) {
            Ok(s) => s,
            Err(error) => {
                let path = self.paths[self.docs.len()].clone();
                assert(path@ =~= self.paths@[self.docs@.len() as int]@);
                return Err(ResolutionError::Parse { path, error });
            },
        };
        let mut written: Vec<Vec<u8>> = Vec::new();
        let mut s: usize = 0;
        assert(names_model(written@) =~= stmts_imports(stmts@, 0));
        while s < stmts.len()
            invariant
                s <= stmts.len(),
                names_model(written@) == stmts_imports(stmts@, s as nat),
            decreases stmts.len() - s,
        {
            match &stmts[s] {
                Stmt::Var { value, .. } => collect_imports(value, &mut written),
                Stmt::Expr(value) => collect_imports(value, &mut written),
            }
            s += 1;
        }
        Ok((stmts, written))
    }

    /// Adds the document for the next path: its text, its statements, the
    /// paths of its document calls as written, and the canonical paths
    /// `targets` that they resolve to. New targets join the paths in order.
    /// Fails with `TooManyDocuments` exactly when the paths would then
    /// number more than `MAX_DOCUMENTS`.
    pub fn add_document(&mut self, text: Vec<u8>, stmts: Vec<Stmt>, written: Vec<Vec<u8>>, targets: Vec<Vec<u8>>) -> (r: Result<(), ResolutionError>)
        requires
            old(self).wf(),
            old(self).docs@.len() < old(self).paths@.len(),
            lex_from(text@, 0) == Ok::<Seq<TokenModel>, LexFailure>(stmts_tokens(stmts@, stmts@.len())),
            forall|s: int| 0 <= s < stmts@.len() ==> #[trigger] stmt_wf(stmts@[s]),
            names_model(written@) == stmts_imports(stmts@, stmts@.len()),
            targets@.len() == written@.len(),
        ensures
            r is Err <==> interned(names_model(old(self).paths@), names_model(targets@), targets@.len()).len() > MAX_DOCUMENTS,
            r is Err ==> r matches Err(ResolutionError::TooManyDocuments),
            r is Ok ==> final(self).wf() && names_model(final(self).paths@) == interned(
                names_model(old(self).paths@),
                names_model(targets@),
                targets@.len(),
            ) && final(self).docs@.len() == old(self).docs@.len() + 1 && final(self).docs@.subrange(
                0,
                old(self).docs@.len() as int,
            ) == old(self).docs@ && final(self).docs@.last().source@ == text@ && final(self).docs@.last().stmts
                == stmts && final(self).docs@.last().links@.len() == written@.len() && forall|k: int|
                0 <= k < written@.len() ==> (#[trigger] final(self).docs@.last().links@[k]).written@ == written@[k]@
                    && final(self).paths@[final(self).docs@.last().links@[k].target as int]@ == targets@[k]@,
    {
        let ghost known = names_model(self.paths@);
        let ghost tm = names_model(targets@);
        let i = self.docs.len();
        let path = self.paths[i].clone();
        assert(path@ =~= self.paths@[i as int]@);
        let ghost n0 = self.paths@.len();
        let ghost docs0 = self.docs@;
        let mut links: Vec<Link> = Vec::new();
        let mut w: usize = 0;
        assert(names_model(self.paths@) == interned(known, tm, 0));
        while w < written.len()
            invariant
                i == self.docs@.len(),
                self.docs@ == docs0,
                i < n0 <= self.paths@.len() <= MAX_DOCUMENTS,
                known == names_model(old(self).paths@),
                n0 == old(self).paths@.len(),
                tm == names_model(targets@),
                targets@.len() == written@.len(),
                names_model(self.paths@) == interned(known, tm, w as nat),
                self.paths@.subrange(0, n0 as int) == old(self).paths@,
                forall|k: int| 0 <= k < links@.len() ==> self.paths@[(#[trigger] links@[k]).target as int]@ == targets@[k]@,
                path@ == self.paths@[i as int]@,
                names_unique(self.paths@),
                forall|j: int| 0 <= j < self.docs@.len() ==> (#[trigger] self.docs@[j]).path@ == self.paths@[j]@,
                forall|j: int, k: int|
                    0 <= j < self.docs@.len() && 0 <= k < self.docs@[j].links@.len() ==> #[trigger] self.docs@[j].links@[k].target
                        < self.paths@.len(),
                forall|j: int| 0 < j < n0 ==> #[trigger] linked_before(self.docs@, j),
                forall|k: int| 0 <= k < links@.len() ==> (#[trigger] links@[k]).target < self.paths@.len(),
                forall|j: int| n0 <= j < self.paths@.len() ==> #[trigger] linked_in(links@, j),
                w <= written.len(),
                links@.len() == w,
                forall|k: int| 0 <= k < w ==> (#[trigger] links@[k]).written@ == written@[k]@,
                imports_linked(self.docs@),
                links_match(self.docs@),
                docs_parsed(self.docs@),
                forall|a: int, s: int|
                    0 <= a < self.docs@.len() && 0 <= s < self.docs@[a].stmts@.len() ==> #[trigger] stmt_wf(self.docs@[a].stmts@[s]),
            decreases written.len() - w,
        {
            let full = targets[w].clone();
            assert(full@ =~= targets@[w as int]@);
            let ghost pbefore = self.paths@;
            let res = intern_path(&mut self.paths, full);
            proof {
                let q = interned(known, tm, w as nat);
                assert(names_model(pbefore) == q);
                assert(tm[w as int] == targets@[w as int]@);
                if q.contains(tm[w as int]) {
                    let j = choose|j: int| 0 <= j < q.len() && q[j] == tm[w as int];
                    assert(pbefore[j]@ == full@);
                } else {
                    assert forall|j: int| 0 <= j < pbefore.len() implies pbefore[j]@ != full@ by {
                        assert(q[j] == pbefore[j]@);
                    }
                }
            }
            let target = match res {
                Ok(t) => t,
                Err(e) => {
                    proof {
                        lemma_interned_grows(known, tm, (w + 1) as nat, tm.len());
                        assert(!interned(known, tm, w as nat).contains(tm[w as int]));
                    }
                    return Err(e);
                },
            };
            proof {
                assert(names_model(self.paths@) =~= interned(known, tm, (w + 1) as nat)) by {
                    let q = interned(known, tm, w as nat);
                    if q.contains(tm[w as int]) {
                    } else {
                        assert(names_model(self.paths@) =~= q.push(tm[w as int]));
                    }
                }
                assert(self.paths@.subrange(0, n0 as int) =~= old(self).paths@) by {
                    assert(pbefore.subrange(0, n0 as int) == old(self).paths@);
                }
            }
            let ghost before = links@;
            let wc = written[w].clone();
            assert(wc@ =~= written@[w as int]@);
            links.push(Link { written: wc, target });
            assert forall|k: int| 0 <= k < links@.len() implies self.paths@[(#[trigger] links@[k]).target as int]@ == targets@[k]@ by {
                if k < before.len() {
                    assert(links@[k] == before[k]);
                    assert(self.paths@[before[k].target as int] == pbefore[before[k].target as int]);
                }
            }
            assert forall|j: int| n0 <= j < self.paths@.len() implies #[trigger] linked_in(links@, j) by {
                if j == target {
                    assert(links@[links@.len() - 1].target == j);
                } else {
                    assert(linked_in(before, j));
                    let k = choose|k: int| 0 <= k < before.len() && (#[trigger] before[k]).target == j;
                    assert(links@[k] == before[k]);
                }
            }
            w += 1;
        }
        proof {
            assert forall|j: int| 0 <= j < stmts_imports(stmts@, stmts@.len()).len() implies link_from(
                links@,
                #[trigger] stmts_imports(stmts@, stmts@.len())[j],
                0,
            ) is Some by {
                assert(names_model(written@)[j] == written@[j]@);
                lemma_link_found(links@, stmts_imports(stmts@, stmts@.len())[j], 0, j);
            }
        }
        let ghost lk = links@;
        self.docs.push(Document { path, source: text, stmts, links });
        let ghost dbefore = docs0;
        proof {
            assert(self.docs@.subrange(0, i as int) =~= docs0);
            assert(self.docs@.last().links@ == lk);
        }
        assert(imports_linked(self.docs@)) by {
            assert forall|a: int, j: int|
                0 <= a < self.docs@.len() && 0 <= j < stmts_imports(self.docs@[a].stmts@, self.docs@[a].stmts@.len()).len()
                implies link_from(self.docs@[a].links@, #[trigger] stmts_imports(self.docs@[a].stmts@, self.docs@[a].stmts@.len())[j], 0) is Some by {
                if a < dbefore.len() {
                    assert(self.docs@[a] == dbefore[a]);
                }
            }
        }
        assert(docs_parsed(self.docs@)) by {
            assert forall|a: int| 0 <= a < self.docs@.len() implies lex_from((#[trigger] self.docs@[a]).source@, 0) == Ok::<
                Seq<TokenModel>,
                LexFailure,
            >(stmts_tokens(self.docs@[a].stmts@, self.docs@[a].stmts@.len())) by {
                if a < dbefore.len() {
                    assert(self.docs@[a] == dbefore[a]);
                }
            }
        }
        assert(links_match(self.docs@)) by {
            assert forall|a: int| 0 <= a < self.docs@.len() implies (#[trigger] self.docs@[a]).links@.len() == stmts_imports(
                self.docs@[a].stmts@,
                self.docs@[a].stmts@.len(),
            ).len() && forall|k: int| 0 <= k < self.docs@[a].links@.len() ==> (#[trigger] self.docs@[a].links@[k]).written@
                == stmts_imports(self.docs@[a].stmts@, self.docs@[a].stmts@.len())[k] by {
                if a < dbefore.len() {
                    assert(self.docs@[a] == dbefore[a]);
                } else {
                    assert forall|k: int| 0 <= k < self.docs@[a].links@.len() implies (#[trigger] self.docs@[a].links@[k]).written@
                        == stmts_imports(self.docs@[a].stmts@, self.docs@[a].stmts@.len())[k] by {
                        assert(names_model(written@)[k] == written@[k]@);
                    }
                }
            }
        }
        assert forall|j: int| 0 < j < self.paths@.len() implies #[trigger] linked_before(self.docs@, j) by {
            if j < n0 {
                assert(linked_before(dbefore, j));
                let (a, k) = choose|a: int, k: int|
                    0 <= a < j && a < dbefore.len() && 0 <= k < dbefore[a].links@.len() && #[trigger] dbefore[a].links@[k].target == j;
                assert(self.docs@[a] == dbefore[a]);
            } else {
                assert(linked_in(lk, j));
                let k = choose|k: int| 0 <= k < lk.len() && (#[trigger] lk[k]).target == j;
                assert(self.docs@[i as int].links@[k].target == j);
            }
        }
        assert forall|a: int| 0 <= a < self.docs@.len() implies (#[trigger] self.docs@[a]).path@ == self.paths@[a]@ by {
            if a < dbefore.len() {
                assert(self.docs@[a] == dbefore[a]);
            }
        }
        assert forall|a: int, k: int|
            0 <= a < self.docs@.len() && 0 <= k < self.docs@[a].links@.len() implies #[trigger] self.docs@[a].links@[k].target
                < self.paths@.len() by {
            if a < dbefore.len() {
                assert(self.docs@[a] == dbefore[a]);
            }
        }
        assert forall|a: int, s: int|
            0 <= a < self.docs@.len() && 0 <= s < self.docs@[a].stmts@.len() implies #[trigger] stmt_wf(self.docs@[a].stmts@[s]) by {
            if a < dbefore.len() {
                assert(self.docs@[a] == dbefore[a]);
            }
        }
        Ok(())
    }

    /// The document graph, once every path has its document. Fails with
    /// `CyclicImport`, naming a document on or behind a cycle, exactly when
    /// the links form a cycle.
    pub fn finish(self) -> (r: Result<Ast, ResolutionError>)
        requires
            self.wf(),
            self.docs@.len() == self.paths@.len(),
        ensures
            r is Ok <==> acyclic(self.docs@),
            r matches Ok(ast) ==> ast.documents == self.docs && ast.wf(),
            r matches Err(e) ==> (e matches ResolutionError::CyclicImport { path } && exists|i: int|
                0 <= i < self.docs@.len() && behind_cycle(self.docs@, i) && #[trigger] self.docs@[i].path@ == path@),
    {
        assert(links_closed(self.docs@));
        match find_cycle(&self.docs) {
            Some(i) => {
                let path = self.docs[i].path.clone();
                assert(path@ =~= self.docs@[i as int].path@);
                Err(ResolutionError::CyclicImport { path })
            },
            None => {
                assert(paths_unique(self.docs@)) by {
                    assert forall|a: int, b: int| 0 <= a < b < self.docs@.len() implies self.docs@[a].path@ != self.docs@[b].path@ by {
                        assert(self.docs@[a].path@ == self.paths@[a]@);
                        assert(self.docs@[b].path@ == self.paths@[b]@);
                    }
                }
                assert(reached(self.docs@));
                Ok(Ast { documents: self.docs })
            },
        }
    }
}

/// Reads and parses the document at `root` and, transitively, every
/// document that its calls name, through a `Resolver`: each canonical path
/// is read once, when it is the resolver's next path, and what comes back
/// goes to the resolver's steps, whose contracts say what follows from it.
/// The first failure ends the resolution: `Read` when the reader cannot
/// read a path (tagged with it), then `Parse`, `TooManyDocuments` and
/// `CyclicImport` as the steps state.
pub fn parse<R: Reader>(root: &Vec<u8>, reader: &R) -> (r: Result<Ast, ResolutionError>)
    ensures
        r matches Ok(ast) ==> ast.wf(),
{
    let mut res = Resolver::new(reader.normalize(root));
    loop
        invariant
            res.wf(),
        ensures
            res.wf(),
            res.docs@.len() == res.paths@.len(),
        decreases MAX_DOCUMENTS - res.docs@.len(),
    {
        let path = match res.next_path() {
            Some(p) => p,
            None => break,
        };
        let text = match reader.read(&path) {
            Ok(t) => t,
            Err(message) => return Err(ResolutionError::Read { path, message }),
        };
        let (stmts, written) = match res.read_document(&text) {
            Ok(x) => x,
            Err(e) => return Err(e),
        };
        let mut targets: Vec<Vec<u8>> = Vec::new();
        let mut w: usize = 0;
        while w < written.len()
            invariant
                w <= written.len(),
                targets@.len() == w,
            decreases written.len() - w,
        {
            targets.push(reader.normalize(&join_path(&path, &written[w])));
            w += 1;
        }
        match res.add_document(text, stmts, written, targets) {
            Ok(()) => {},
            Err(e) => return Err(e),
        }
    }
    res.finish()
}

/// The target of the first link of `links` that names a document not `done`.
fn open_link(links: &Vec<Link>, done: &Vec<bool>) -> (r: Option<usize>)
    requires
        forall|k: int| 0 <= k < links@.len() ==> (#[trigger] links@[k]).target < done@.len(),
    ensures
        r matches Some(t) ==> t < done@.len() && !done@[t as int],
{
    let mut k: usize = 0;
    while k < links.len()
        invariant
            forall|j: int| 0 <= j < links@.len() ==> (#[trigger] links@[j]).target < done@.len(),
            k <= links.len(),
        decreases links.len() - k,
    {
        if !done[links[k].target] {
            return Some(links[k].target);
        }
        k += 1;
    }
    None
}

/// `rank` decreases along every link.
pub open spec fn ranked(docs: Seq<Document>, rank: Seq<nat>) -> bool {
    &&& rank.len() == docs.len()
    &&& forall|i: int, k: int|
        0 <= i < docs.len() && 0 <= k < docs[i].links@.len() ==> rank[#[trigger] docs[i].links@[k].target as int]
            < rank[i]
}

/// No chain of links leads from a document back to itself.
pub open spec fn acyclic(docs: Seq<Document>) -> bool {
    exists|rank: Seq<nat>| ranked(docs, rank)
}

/// Every document that is not `done` links to one that is not.
pub open spec fn stuck(docs: Seq<Document>, done: Seq<bool>) -> bool {
    forall|i: int|
        0 <= i < docs.len() && !done[i] ==> exists|k: int|
            0 <= k < docs[i].links@.len() && !done[#[trigger] docs[i].links@[k].target as int]
}

proof fn lemma_stuck_unranked(docs: Seq<Document>, done: Seq<bool>, rank: Seq<nat>, v: nat)
    requires
        links_closed(docs),
        done.len() == docs.len(),
        stuck(docs, done),
        ranked(docs, rank),
    ensures
        forall|i: int| 0 <= i < docs.len() && !done[i] ==> rank[i] > v,
    decreases v,
{
    if v > 0 {
        lemma_stuck_unranked(docs, done, rank, (v - 1) as nat);
    }
    assert forall|i: int| 0 <= i < docs.len() && !done[i] implies rank[i] > v by {
        let k = choose|k: int| 0 <= k < docs[i].links@.len() && !done[#[trigger] docs[i].links@[k].target as int];
        let t = docs[i].links@[k].target as int;
        assert(rank[t] < rank[i]);
        if v > 0 {
            assert(rank[t] > v - 1);
        }
    }
}

/// Whether every link of `links` names a `done` document.
fn links_done(links: &Vec<Link>, done: &Vec<bool>) -> (r: bool)
    requires
        forall|k: int| 0 <= k < links@.len() ==> (#[trigger] links@[k]).target < done@.len(),
    ensures
        r == forall|k: int| 0 <= k < links@.len() ==> done@[(#[trigger] links@[k]).target as int],
{
    let mut k: usize = 0;
    while k < links.len()
        invariant
            forall|j: int| 0 <= j < links@.len() ==> (#[trigger] links@[j]).target < done@.len(),
            k <= links.len(),
            forall|j: int| 0 <= j < k ==> done@[(#[trigger] links@[j]).target as int],
        decreases links.len() - k,
    {
        if !done[links[k].target] {
            return false;
        }
        k += 1;
    }
    true
}

/// How many entries of `s` are true.
pub open spec fn count_true(s: Seq<bool>) -> nat
    decreases s.len(),
{
    if s.len() == 0 {
        0
    } else {
        count_true(s.drop_last()) + if s.last() { 1nat } else { 0nat }
    }
}

proof fn lemma_count_bound(s: Seq<bool>)
    ensures
        count_true(s) <= s.len(),
    decreases s.len(),
{
    if s.len() > 0 {
        lemma_count_bound(s.drop_last());
    }
}

proof fn lemma_count_set(s: Seq<bool>, i: int)
    requires
        0 <= i < s.len(),
        !s[i],
    ensures
        count_true(s.update(i, true)) == count_true(s) + 1,
    decreases s.len(),
{
    let t = s.update(i, true);
    if i == s.len() - 1 {
        assert(t.drop_last() =~= s.drop_last());
    } else {
        lemma_count_set(s.drop_last(), i);
        assert(t.drop_last() =~= s.drop_last().update(i, true));
    }
}

/// Every link of a `done` document names a `done` document of lower rank.
pub open spec fn done_ranked(docs: Seq<Document>, done: Seq<bool>, rank: Seq<nat>) -> bool {
    forall|a: int, k: int|
        0 <= a < docs.len() && done[a] && 0 <= k < docs[a].links@.len() ==> done[#[trigger] docs[a].links@[k].target as int]
            && rank[docs[a].links@[k].target as int] < rank[a]
}

/// The documents marked in `open` each link to a marked document, so from
/// each of them links lead on forever: a marked document lies on a cycle of
/// links or behind one.
pub open spec fn trapped(docs: Seq<Document>, open: Seq<bool>) -> bool {
    &&& open.len() == docs.len()
    &&& forall|j: int|
        0 <= j < docs.len() && open[j] ==> exists|k: int|
            0 <= k < docs[j].links@.len() && open[#[trigger] docs[j].links@[k].target as int]
}

proof fn lemma_stuck_trapped(docs: Seq<Document>, done: Seq<bool>)
    requires
        links_closed(docs),
        done.len() == docs.len(),
        stuck(docs, done),
    ensures
        trapped(docs, done.map_values(|b: bool| !b)),
{
    let open = done.map_values(|b: bool| !b);
    assert forall|j: int| 0 <= j < docs.len() && open[j] implies exists|k: int|
        0 <= k < docs[j].links@.len() && open[#[trigger] docs[j].links@[k].target as int] by {
        assert(!done[j]);
        let k = choose|k: int| 0 <= k < docs[j].links@.len() && !done[#[trigger] docs[j].links@[k].target as int];
        assert(open[docs[j].links@[k].target as int]);
    }
}

/// The first index that is not `done`, if any.
fn find_open(done: &Vec<bool>) -> (r: Option<usize>)
    ensures
        r matches Some(i) ==> i < done@.len() && !done@[i as int],
        r is None ==> forall|a: int| 0 <= a < done@.len() ==> done@[a],
{
    let mut i: usize = 0;
    while i < done.len()
        invariant
            i <= done@.len(),
            forall|a: int| 0 <= a < i ==> done@[a],
        decreases done.len() - i,
    {
        if !done[i] {
            return Some(i);
        }
        i += 1;
    }
    None
}

/// Follows links from the document `i`, which is not `done`, through
/// documents that are not, for as many steps as there are documents, so as
/// to land on a cycle.
fn walk_open(docs: &Vec<Document>, done: &Vec<bool>, i: usize) -> (r: usize)
    requires
        links_closed(docs@),
        done@.len() == docs@.len(),
        i < docs@.len(),
        !done@[i as int],
    ensures
        r < docs@.len(),
        !done@[r as int],
{
    let n = docs.len();
    let mut at = i;
    let mut steps: usize = 0;
    while steps < n
        invariant
            n == docs@.len(),
            links_closed(docs@),
            done@.len() == n,
            at < n,
            !done@[at as int],
        decreases n - steps,
    {
        match open_link(&docs[at].links, done) {
            Some(t) => at = t,
            None => break,
        }
        steps += 1;
    }
    at
}

/// Document `i` lies on a cycle of links or behind one.
#[verifier::opaque]
pub open spec fn behind_cycle(docs: Seq<Document>, i: int) -> bool {
    exists|open: Seq<bool>| trapped(docs, open) && open[i]
}

/// The index of a document on or behind a cycle of links, if any.
#[verifier::rlimit(60)]
pub fn find_cycle(docs: &Vec<Document>) -> (r: Option<usize>)
    requires
        links_closed(docs@),
    ensures
        r is None <==> acyclic(docs@),
        r matches Some(i) ==> i < docs@.len() && behind_cycle(docs@, i as int),
{
    let n = docs.len();
    let mut done: Vec<bool> = Vec::new();
    let mut j: usize = 0;
    while j < n
        invariant
            n == docs@.len(),
            j <= n,
            done@.len() == j,
            forall|i: int| 0 <= i < j ==> !done@[i],
            count_true(done@) == 0,
        decreases n - j,
    {
        let ghost before = done@;
        done.push(false);
        assert(done@.drop_last() =~= before);
        j += 1;
    }
    let ghost mut rank: Seq<nat> = Seq::new(n as nat, |i: int| 0nat);
    let mut count: usize = 0;
    loop
        invariant
            n == docs@.len(),
            links_closed(docs@),
            done@.len() == n,
            rank.len() == n,
            count == count_true(done@),
            done_ranked(docs@, done@, rank),
            forall|a: int| 0 <= a < n && done@[a] ==> rank[a] < count,
        ensures
            done@.len() == n,
            rank.len() == n,
            done_ranked(docs@, done@, rank),
            stuck(docs@, done@),
        decreases n - count,
    {
        proof {
            lemma_count_bound(done@);
        }
        let ghost count0 = count;
        let mut progress = false;
        let mut i: usize = 0;
        while i < n
            invariant
                n == docs@.len(),
                links_closed(docs@),
                done@.len() == n,
                rank.len() == n,
                count == count_true(done@),
                count0 <= count,
                progress == (count > count0),
                i <= n,
                done_ranked(docs@, done@, rank),
                forall|a: int| 0 <= a < n && done@[a] ==> rank[a] < count,
                !progress ==> forall|a: int|
                    0 <= a < i && !done@[a] ==> exists|k: int|
                        0 <= k < docs@[a].links@.len() && !done@[#[trigger] docs@[a].links@[k].target as int],
            decreases n - i,
        {
            if !done[i] {
                let all = links_done(&docs[i].links, &done);
                if all {
                    proof {
                        lemma_count_set(done@, i as int);
                        lemma_count_bound(done@.update(i as int, true));
                    }
                    done.set(i, true);
                    proof {
                        rank = rank.update(i as int, count as nat);
                    }
                    count += 1;
                    progress = true;
                } else {
                    assert(!forall|k: int| 0 <= k < docs@[i as int].links@.len() ==> done@[(#[trigger] docs@[i as int].links@[k]).target as int]);
                }
            }
            i += 1;
        }
        proof {
            lemma_count_bound(done@);
        }
        if !progress {
            break;
        }
    }
    assert(stuck(docs@, done@));
    match find_open(&done) {
        Some(i) => {
            proof {
                if acyclic(docs@) {
                    let r = choose|r: Seq<nat>| ranked(docs@, r);
                    lemma_stuck_unranked(docs@, done@, r, r[i as int]);
                }
            }
            let at = walk_open(docs, &done, i);
            proof {
                lemma_stuck_trapped(docs@, done@);
                let open = done@.map_values(|b: bool| !b);
                assert(open[at as int]);
                assert(trapped(docs@, open) && open[at as int]);
                reveal(behind_cycle);
                assert(behind_cycle(docs@, at as int));
            }
            Some(at)
        },
        None => {
            assert(ranked(docs@, rank));
            None
        },
    }
}

} // verus!
