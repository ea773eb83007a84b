use vstd::prelude::*;
use crate::library::{
    BindingsModel, ErrorModel, arg_center, arg_end, arg_left, arg_right, arg_start, arg_x, arg_y,
    builtin, is_arith, lookup, name_arc, name_line, name_point, numeric_spec, result_model,
};
use crate::resolver::{acyclic, graph_wf, interned, ranked, stmts_imports};
use crate::runtime::{Document, eval_doc_spec};
use crate::value::{PartModel, Shape, Value, ValueModel, models_of, part_of};

verus! {

/// A document graph whose root calls no other document holds that one
/// document.
pub proof fn lemma_single_document(docs: Seq<Document>)
    requires
        graph_wf(docs),
        stmts_imports(docs[0].stmts@, docs[0].stmts@.len()).len() == 0,
    ensures
        docs.len() == 1,
{
    assert(docs[0].links@.len() == 0);
    if docs.len() > 1 {
        assert(crate::resolver::linked_before(docs, 1));
    }
}

proof fn lemma_models_len(s: Seq<Value>, n: nat)
    requires
        n <= s.len(),
    ensures
        models_of(s, n).len() == n,
    decreases n,
{
    if n > 0 {
        lemma_models_len(s, (n - 1) as nat);
    }
}

/// Two values with one model project to one part.
pub proof fn lemma_same_model_same_part(a: Value, b: Value)
    requires
        a@ == b@,
    ensures
        part_of(a) == part_of(b),
{
    match (a, b) {
        (Value::List(x), Value::List(y)) => {
            lemma_models_len(x@, x@.len());
            lemma_models_len(y@, y@.len());
        },
        _ => {},
    }
}

/// Evaluating one document graph twice with the same arguments gives the
/// same value, and so the same part.
pub proof fn lemma_eval_deterministic(
    docs: Seq<Document>,
    d: int,
    args: BindingsModel,
    depth: nat,
    first: Value,
    second: Value,
)
    requires
        result_model(Ok(first)) == eval_doc_spec(docs, d, args, depth),
        result_model(Ok(second)) == eval_doc_spec(docs, d, args, depth),
    ensures
        first@ == second@,
        part_of(first) == part_of(second),
{
    lemma_same_model_same_part(first, second);
}

/// A call of a name that is no builtin fails with an unknown-function error
/// that names it.
pub proof fn lemma_unknown_function(f: Seq<u8>, args: BindingsModel)
    requires
        !is_arith(f),
        f != name_point(),
        f != name_line(),
        f != name_arc(),
    ensures
        builtin(f, args) == Err::<ValueModel, ErrorModel>(ErrorModel::UnknownFunction(f)),
{
}

/// The arguments that builtin `f` requires.
pub open spec fn required(f: Seq<u8>) -> Seq<Seq<u8>> {
    if is_arith(f) {
        seq![arg_left(), arg_right()]
    } else if f == name_point() {
        seq![arg_x(), arg_y()]
    } else if f == name_line() {
        seq![arg_start(), arg_end()]
    } else if f == name_arc() {
        seq![arg_start(), arg_center(), arg_end()]
    } else {
        seq![]
    }
}

/// `v` is of the kind that the required arguments of `f` take.
pub open spec fn fits(f: Seq<u8>, v: ValueModel) -> bool {
    if is_arith(f) || f == name_point() {
        v is Number
    } else {
        v is Point
    }
}

/// A builtin call that lacks one required argument, and whose other
/// required arguments are of the right kind, fails with a missing-argument
/// error that names the function and the missing argument.
pub proof fn lemma_missing_argument(f: Seq<u8>, args: BindingsModel, a: Seq<u8>)
    requires
        required(f).contains(a),
        lookup(args, a) is None,
        forall|i: int|
            0 <= i < required(f).len() && required(f)[i] != a ==> (lookup(args, #[trigger] required(f)[i]) matches Some(v)
                && fits(f, v)),
    ensures
        builtin(f, args) == Err::<ValueModel, ErrorModel>(ErrorModel::MissingArgument { function: f, argument: a }),
{
    let r = required(f);
    if is_arith(f) {
        assert(r[0] == arg_left() && r[1] == arg_right());
        if a != arg_left() {
            assert(r[0] != a);
        }
        if a != arg_right() {
            assert(r[1] != a);
        }
    } else if f == name_point() {
        assert(r[0] == arg_x() && r[1] == arg_y());
        if a != arg_x() {
            assert(r[0] != a);
        }
        if a != arg_y() {
            assert(r[1] != a);
        }
    } else if f == name_line() {
        assert(r[0] == arg_start() && r[1] == arg_end());
        if a != arg_start() {
            assert(r[0] != a);
        }
        if a != arg_end() {
            assert(r[1] != a);
        }
    } else {
        assert(r[0] == arg_start() && r[1] == arg_center() && r[2] == arg_end());
        if a != arg_start() {
            assert(r[0] != a);
        }
        if a != arg_center() {
            assert(r[1] != a);
        }
        if a != arg_end() {
            assert(r[2] != a);
        }
    }
}

/// A shape holds the mesh that the kernel computed for it once; projecting
/// it only reads that mesh, so every projection gives the same part, whose
/// triangles and normals are the mesh's faces, pair by pair, in order.
pub proof fn lemma_shape_projection(s: Shape, first: PartModel, second: PartModel)
    requires
        first == part_of(Value::Shape(s)),
        second == part_of(Value::Shape(s)),
    ensures
        first == second,
        first matches PartModel::Object { triangles, normals, .. } && triangles.len() == s.mesh.faces@.len()
            && normals.len() == s.mesh.faces@.len() && forall|i: int|
            0 <= i < s.mesh.faces@.len() ==> triangles[i] == (#[trigger] s.mesh.faces@[i]).0 && normals[i]
                == s.mesh.faces@[i].1,
{
}

/// An arithmetic builtin called without `left` fails with a missing-argument
/// error that names the function and `left`.
pub proof fn lemma_numeric_missing_left(f: Seq<u8>, args: BindingsModel)
    requires
        is_arith(f),
        lookup(args, arg_left()) is None,
    ensures
        numeric_spec(f, args) == Err::<ValueModel, ErrorModel>(
            ErrorModel::MissingArgument { function: f, argument: arg_left() },
        ),
{
}

/// A graph of one document that calls no other has no cycle, so a
/// resolution of it finishes with that one document.
pub proof fn lemma_single_document_acyclic(docs: Seq<Document>)
    requires
        docs.len() == 1,
        docs[0].links@.len() == 0,
    ensures
        acyclic(docs),
{
    let rank = seq![0nat];
    assert(ranked(docs, rank));
}

/// Adding canonical paths to a list without repeats keeps it without
/// repeats: a path that several documents call is read once.
pub proof fn lemma_interned_unique(known: Seq<Seq<u8>>, t: Seq<Seq<u8>>, n: nat)
    requires
        n <= t.len(),
        forall|i: int, j: int| 0 <= i < j < known.len() ==> known[i] != known[j],
    ensures
        forall|i: int, j: int|
            0 <= i < j < interned(known, t, n).len() ==> interned(known, t, n)[i] != interned(known, t, n)[j],
    decreases n,
{
    if n > 0 {
        lemma_interned_unique(known, t, (n - 1) as nat);
        let q = interned(known, t, (n - 1) as nat);
        if !q.contains(t[n - 1]) {
            let r = q.push(t[n - 1]);
            assert forall|i: int, j: int| 0 <= i < j < r.len() implies #[trigger] r[i] != #[trigger] r[j] by {
                assert(r[i] == q[i]);
                if j < q.len() {
                    assert(r[j] == q[j]);
                }
            }
        }
    }
}

} // verus!
