use vstd::prelude::*;
use crate::value::{Point, Value, ValueModel, Wire};

verus! {

/// A failure while evaluating a script.
#[derive(Debug, PartialEq, Eq)]
pub enum RuntimeError {
    /// An identifier that no binding introduced.
    UnknownIdentifier(Vec<u8>),
    /// A call of a name that is no builtin.
    UnknownFunction(Vec<u8>),
    /// A call without an argument that the function requires.
    MissingArgument { function: Vec<u8>, argument: Vec<u8> },
    /// An argument of the wrong kind of value.
    WrongArgumentType { function: Vec<u8>, argument: Vec<u8> },
    /// A result beyond the range of numbers.
    Overflow(Vec<u8>),
    /// A division by zero.
    DivisionByZero(Vec<u8>),
    /// A second `var` of a name in one document.
    Rebound(Vec<u8>),
    /// A document path that the document graph does not link.
    UnknownDocument(Vec<u8>),
    /// A document with no statement.
    EmptyDocument,
    /// Document calls nested beyond the depth limit.
    DepthExceeded,
}

/// A `RuntimeError` with its names as mathematical sequences.
pub enum ErrorModel {
    UnknownIdentifier(Seq<u8>),
    UnknownFunction(Seq<u8>),
    MissingArgument { function: Seq<u8>, argument: Seq<u8> },
    WrongArgumentType { function: Seq<u8>, argument: Seq<u8> },
    Overflow(Seq<u8>),
    DivisionByZero(Seq<u8>),
    Rebound(Seq<u8>),
    UnknownDocument(Seq<u8>),
    EmptyDocument,
    DepthExceeded,
}

impl View for RuntimeError {
    type V = ErrorModel;

    open spec fn view(&self) -> ErrorModel {
        match self {
            RuntimeError::UnknownIdentifier(n) => ErrorModel::UnknownIdentifier(n@),
            RuntimeError::UnknownFunction(n) => ErrorModel::UnknownFunction(n@),
            RuntimeError::MissingArgument { function, argument } => ErrorModel::MissingArgument {
                function: function@,
                argument: argument@,
            },
            RuntimeError::WrongArgumentType { function, argument } => ErrorModel::WrongArgumentType {
                function: function@,
                argument: argument@,
            },
            RuntimeError::Overflow(n) => ErrorModel::Overflow(n@),
            RuntimeError::DivisionByZero(n) => ErrorModel::DivisionByZero(n@),
            RuntimeError::Rebound(n) => ErrorModel::Rebound(n@),
            RuntimeError::UnknownDocument(n) => ErrorModel::UnknownDocument(n@),
            RuntimeError::EmptyDocument => ErrorModel::EmptyDocument,
            RuntimeError::DepthExceeded => ErrorModel::DepthExceeded,
        }
    }
}

/// A name bound to a value: a named argument or a variable.
#[derive(Debug)]
pub struct Binding {
    pub name: Vec<u8>,
    pub value: Value,
}

/// Bindings as pairs of a name and a value model.
pub type BindingsModel = Seq<(Seq<u8>, ValueModel)>;

pub open spec fn bindings_model(s: Seq<Binding>) -> BindingsModel {
    Seq::new(s.len(), |i: int| (s[i].name@, s[i].value@))
}

/// The value of the first binding of `name` at or after index `i`.
pub open spec fn find_from(s: BindingsModel, name: Seq<u8>, i: int) -> Option<ValueModel>
    decreases s.len() - i,
{
    if i < 0 || i >= s.len() {
        None
    } else if s[i].0 == name {
        Some(s[i].1)
    } else {
        find_from(s, name, i + 1)
    }
}

pub open spec fn lookup(s: BindingsModel, name: Seq<u8>) -> Option<ValueModel> {
    find_from(s, name, 0)
}

/// The index of the first binding of `name`, if any.
pub fn find_binding(s: &Vec<Binding>, name: &Vec<u8>) -> (r: Option<usize>)
    ensures
        r matches Some(i) ==> i < s@.len() && lookup(bindings_model(s@), name@) == Some(
            s@[i as int].value@,
        ) && s@[i as int].name@ == name@,
        r is None ==> lookup(bindings_model(s@), name@) is None,
{
    let ghost m = bindings_model(s@);
    let mut i: usize = 0;
    while i < s.len()
        invariant
            i <= s.len(),
            m == bindings_model(s@),
            lookup(m, name@) == find_from(m, name@, i as int),
        decreases s.len() - i,
    {
        if crate::parser::bytes_eq(&s[i].name, name) {
            return Some(i);
        }
        i += 1;
    }
    None
}

pub open spec fn name_add() -> Seq<u8> {
    seq![97u8, 100u8, 100u8]
}

pub open spec fn name_subtract() -> Seq<u8> {
    seq![115u8, 117u8, 98u8, 116u8, 114u8, 97u8, 99u8, 116u8]
}

pub open spec fn name_multiply() -> Seq<u8> {
    seq![109u8, 117u8, 108u8, 116u8, 105u8, 112u8, 108u8, 121u8]
}

pub open spec fn name_divide() -> Seq<u8> {
    seq![100u8, 105u8, 118u8, 105u8, 100u8, 101u8]
}

pub open spec fn name_point() -> Seq<u8> {
    seq![112u8, 111u8, 105u8, 110u8, 116u8]
}

pub open spec fn name_line() -> Seq<u8> {
    seq![108u8, 105u8, 110u8, 101u8]
}

pub open spec fn name_arc() -> Seq<u8> {
    seq![97u8, 114u8, 99u8]
}

pub open spec fn arg_left() -> Seq<u8> {
    seq![108u8, 101u8, 102u8, 116u8]
}

pub open spec fn arg_right() -> Seq<u8> {
    seq![114u8, 105u8, 103u8, 104u8, 116u8]
}

pub open spec fn arg_x() -> Seq<u8> {
    seq![120u8]
}

pub open spec fn arg_y() -> Seq<u8> {
    seq![121u8]
}

pub open spec fn arg_z() -> Seq<u8> {
    seq![122u8]
}

pub open spec fn arg_start() -> Seq<u8> {
    seq![115u8, 116u8, 97u8, 114u8, 116u8]
}

pub open spec fn arg_end() -> Seq<u8> {
    seq![101u8, 110u8, 100u8]
}

pub open spec fn arg_center() -> Seq<u8> {
    seq![99u8, 101u8, 110u8, 116u8, 101u8, 114u8]
}

/// The number argument `arg` of a call of `f`.
pub open spec fn number_arg(f: Seq<u8>, args: BindingsModel, arg: Seq<u8>) -> Result<i64, ErrorModel> {
    match lookup(args, arg) {
        None => Err(ErrorModel::MissingArgument { function: f, argument: arg }),
        Some(ValueModel::Number(n)) => Ok(n),
        Some(_) => Err(ErrorModel::WrongArgumentType { function: f, argument: arg }),
    }
}

/// The point argument `arg` of a call of `f`.
pub open spec fn point_arg(f: Seq<u8>, args: BindingsModel, arg: Seq<u8>) -> Result<Point, ErrorModel> {
    match lookup(args, arg) {
        None => Err(ErrorModel::MissingArgument { function: f, argument: arg }),
        Some(ValueModel::Point(p)) => Ok(p),
        Some(_) => Err(ErrorModel::WrongArgumentType { function: f, argument: arg }),
    }
}

/// Division that rounds toward zero.
pub open spec fn trunc_div(l: int, r: int) -> int {
    let q = (if l < 0 { -l } else { l }) / (if r < 0 { -r } else { r });
    if (l < 0) == (r < 0) { q } else { -q }
}

pub open spec fn in_range(n: int) -> bool {
    i64::MIN <= n <= i64::MAX
}

/// The number that an arithmetic builtin computes, or its failure.
pub open spec fn arith(f: Seq<u8>, l: i64, r: i64) -> Result<ValueModel, ErrorModel> {
    let v = if f == name_add() {
        l + r
    } else if f == name_subtract() {
        l - r
    } else if f == name_multiply() {
        l * r
    } else {
        trunc_div(l as int, r as int)
    };
    if f == name_divide() && r == 0 {
        Err(ErrorModel::DivisionByZero(f))
    } else if !in_range(v) {
        Err(ErrorModel::Overflow(f))
    } else {
        Ok(ValueModel::Number(v as i64))
    }
}

pub open spec fn is_arith(f: Seq<u8>) -> bool {
    f == name_add() || f == name_subtract() || f == name_multiply() || f == name_divide()
}

/// What a call of the builtin `f` with named arguments `args` returns.
pub open spec fn builtin(f: Seq<u8>, args: BindingsModel) -> Result<ValueModel, ErrorModel> {
    if is_arith(f) {
        numeric_spec(f, args)
    } else if f == name_point() {
        match number_arg(f, args, arg_x()) {
            Err(e) => Err(e),
            Ok(x) => match number_arg(f, args, arg_y()) {
                Err(e) => Err(e),
                Ok(y) => match lookup(args, arg_z()) {
                    None => Ok(ValueModel::Point(Point { x, y, z: 0 })),
                    Some(ValueModel::Number(z)) => Ok(ValueModel::Point(Point { x, y, z })),
                    Some(_) => Err(ErrorModel::WrongArgumentType { function: f, argument: arg_z() }),
                },
            },
        }
    } else if f == name_line() {
        match point_arg(f, args, arg_start()) {
            Err(e) => Err(e),
            Ok(start) => match point_arg(f, args, arg_end()) {
                Err(e) => Err(e),
                Ok(end) => Ok(ValueModel::Wire(Wire::Line { start, end })),
            },
        }
    } else if f == name_arc() {
        match point_arg(f, args, arg_start()) {
            Err(e) => Err(e),
            Ok(start) => match point_arg(f, args, arg_center()) {
                Err(e) => Err(e),
                Ok(center) => match point_arg(f, args, arg_end()) {
                    Err(e) => Err(e),
                    Ok(end) => Ok(ValueModel::Wire(Wire::Arc { start, center, end })),
                },
            },
        }
    } else {
        Err(ErrorModel::UnknownFunction(f))
    }
}

/// A result as models.
pub open spec fn result_model(r: Result<Value, RuntimeError>) -> Result<ValueModel, ErrorModel> {
    match r {
        Ok(v) => Ok(v@),
        Err(e) => Err(e@),
    }
}

proof fn lemma_mul_fits(l: int, r: int)
    requires
        -0x8000_0000_0000_0000 <= l <= 0x8000_0000_0000_0000,
        -0x8000_0000_0000_0000 <= r <= 0x8000_0000_0000_0000,
    ensures
        -0x4000_0000_0000_0000_0000_0000_0000_0000 <= l * r <= 0x4000_0000_0000_0000_0000_0000_0000_0000,
{
    let b: int = 0x8000_0000_0000_0000;
    let la = if l < 0 { -l } else { l };
    let ra = if r < 0 { -r } else { r };
    assert(la * ra <= b * b) by (nonlinear_arith)
        requires
            0 <= la <= b,
            0 <= ra <= b,
    ;
    assert(l * r == la * ra || l * r == -(la * ra)) by (nonlinear_arith)
        requires
            la == (if l < 0 { -l } else { l }),
            ra == (if r < 0 { -r } else { r }),
    ;
}

fn bytes_eq_lit(a: &Vec<u8>, b: &[u8]) -> (r: bool)
    ensures
        r == (a@ == b@),
{
    if a.len() != b.len() {
        return false;
    }
    let mut i: usize = 0;
    while i < a.len()
        invariant
            a@.len() == b@.len(),
            i <= a.len(),
            forall|j: int| 0 <= j < i ==> a@[j] == b@[j],
        decreases a.len() - i,
    {
        if a[i] != b[i] {
            return false;
        }
        i += 1;
    }
    assert(a@ =~= b@);
    true
}

fn bytes(b: &[u8]) -> (r: Vec<u8>)
    ensures
        r@ == b@,
{
    let mut r: Vec<u8> = Vec::new();
    let mut i: usize = 0;
    while i < b.len()
        invariant
            i <= b.len(),
            r@ == b@.subrange(0, i as int),
        decreases b.len() - i,
    {
        r.push(b[i]);
        i += 1;
        assert(r@ =~= b@.subrange(0, i as int));
    }
    assert(r@ =~= b@);
    r
}

fn number_arg_exec(f: &Vec<u8>, args: &Vec<Binding>, arg: Vec<u8>) -> (r: Result<i64, RuntimeError>)
    ensures
        match (r, number_arg(f@, bindings_model(args@), arg@)) {
            (Ok(a), Ok(b)) => a == b,
            (Err(a), Err(b)) => a@ == b,
            _ => false,
        },
{
    match find_binding(args, &arg) {
        None => Err(RuntimeError::MissingArgument { function: f.clone(), argument: arg }),
        Some(i) => match &args[i].value {
            Value::Number(n) => Ok(*n),
            _ => Err(RuntimeError::WrongArgumentType { function: f.clone(), argument: arg }),
        },
    }
}

fn point_arg_exec(f: &Vec<u8>, args: &Vec<Binding>, arg: Vec<u8>) -> (r: Result<Point, RuntimeError>)
    ensures
        match (r, point_arg(f@, bindings_model(args@), arg@)) {
            (Ok(a), Ok(b)) => a == b,
            (Err(a), Err(b)) => a@ == b,
            _ => false,
        },
{
    match find_binding(args, &arg) {
        None => Err(RuntimeError::MissingArgument { function: f.clone(), argument: arg }),
        Some(i) => match &args[i].value {
            Value::Point(p) => Ok(*p),
            _ => Err(RuntimeError::WrongArgumentType { function: f.clone(), argument: arg }),
        },
    }
}

fn arith_exec(f: &Vec<u8>, l: i64, r: i64) -> (res: Result<Value, RuntimeError>)
    requires
        is_arith(f@),
    ensures
        result_model(res) == arith(f@, l, r),
{
    let (v, is_div): (i128, bool) = if bytes_eq_lit(f, &[97u8, 100u8, 100u8]) {
        (l as i128 + r as i128, false)
    } else if bytes_eq_lit(f, &[115u8, 117u8, 98u8, 116u8, 114u8, 97u8, 99u8, 116u8]) {
        (l as i128 - r as i128, false)
    } else if bytes_eq_lit(f, &[109u8, 117u8, 108u8, 116u8, 105u8, 112u8, 108u8, 121u8]) {
        proof {
            lemma_mul_fits(l as int, r as int);
        }
        (l as i128 * r as i128, false)
    } else {
        if r == 0 {
            return Err(RuntimeError::DivisionByZero(f.clone()));
        }
        let la: u128 = if l < 0 { (-(l as i128)) as u128 } else { l as u128 };
        let ra: u128 = if r < 0 { (-(r as i128)) as u128 } else { r as u128 };
        let q = (la / ra) as i128;
        (if (l < 0) == (r < 0) { q } else { -q }, true)
    };
    if v < i64::MIN as i128 || v > i64::MAX as i128 {
        Err(RuntimeError::Overflow(f.clone()))
    } else {
        Ok(Value::Number(v as i64))
    }
}

/// What the arithmetic builtin `f` computes from the numbers `left` and
/// `right` among `args`.
pub open spec fn numeric_spec(f: Seq<u8>, args: BindingsModel) -> Result<ValueModel, ErrorModel> {
    match number_arg(f, args, arg_left()) {
        Err(e) => Err(e),
        Ok(l) => match number_arg(f, args, arg_right()) {
            Err(e) => Err(e),
            Ok(r) => arith(f, l, r),
        },
    }
}

/// Applies the arithmetic builtin `f` to its number arguments `left` and
/// `right`.
pub fn numeric(f: &Vec<u8>, args: &Vec<Binding>) -> (r: Result<Value, RuntimeError>)
    requires
        is_arith(f@),
    ensures
        result_model(r) == numeric_spec(f@, bindings_model(args@)),
{
    let l = match number_arg_exec(f, args, bytes(&[108u8, 101u8, 102u8, 116u8])) {
        Ok(l) => l,
        Err(e) => return Err(e),
    };
    let r = match number_arg_exec(f, args, bytes(&[114u8, 105u8, 103u8, 104u8, 116u8])) {
        Ok(r) => r,
        Err(e) => return Err(e),
    };
    arith_exec(f, l, r)
}

/// Calls the builtin named `f` with the named arguments `args`.
pub fn call_builtin(f: &Vec<u8>, args: &Vec<Binding>) -> (r: Result<Value, RuntimeError>)
    ensures
        result_model(r) == builtin(f@, bindings_model(args@)),
{
    let ghost m = bindings_model(args@);
    if bytes_eq_lit(f, &[97u8, 100u8, 100u8])
        || bytes_eq_lit(f, &[115u8, 117u8, 98u8, 116u8, 114u8, 97u8, 99u8, 116u8])
        || bytes_eq_lit(f, &[109u8, 117u8, 108u8, 116u8, 105u8, 112u8, 108u8, 121u8])
        || bytes_eq_lit(f, &[100u8, 105u8, 118u8, 105u8, 100u8, 101u8]) {
        numeric(f, args)
    } else if bytes_eq_lit(f, &[112u8, 111u8, 105u8, 110u8, 116u8]) {
        assert(!is_arith(f@));
        assert(f@ == name_point());
        let xname = bytes(&[120u8]);
        assert(xname@ == arg_x());
        let x = match number_arg_exec(f, args, xname) {
            Ok(x) => x,
            Err(e) => return Err(e),
        };
        let yname = bytes(&[121u8]);
        assert(yname@ == arg_y());
        let y = match number_arg_exec(f, args, yname) {
            Ok(y) => y,
            Err(e) => return Err(e),
        };
        let zname = bytes(&[122u8]);
        assert(zname@ == arg_z());
        match find_binding(args, &zname) {
            None => Ok(Value::Point(Point { x, y, z: 0 })),
            Some(i) => match &args[i].value {
                Value::Number(z) => Ok(Value::Point(Point { x, y, z: *z })),
                _ => Err(RuntimeError::WrongArgumentType { function: f.clone(), argument: zname }),
            },
        }
    } else if bytes_eq_lit(f, &[108u8, 105u8, 110u8, 101u8]) {
        let start = match point_arg_exec(f, args, bytes(&[115u8, 116u8, 97u8, 114u8, 116u8])) {
            Ok(p) => p,
            Err(e) => return Err(e),
        };
        let end = match point_arg_exec(f, args, bytes(&[101u8, 110u8, 100u8])) {
            Ok(p) => p,
            Err(e) => return Err(e),
        };
        Ok(Value::Wire(Wire::Line { start, end }))
    } else if bytes_eq_lit(f, &[97u8, 114u8, 99u8]) {
        let start = match point_arg_exec(f, args, bytes(&[115u8, 116u8, 97u8, 114u8, 116u8])) {
            Ok(p) => p,
            Err(e) => return Err(e),
        };
        let center = match point_arg_exec(f, args, bytes(&[99u8, 101u8, 110u8, 116u8, 101u8, 114u8])) {
            Ok(p) => p,
            Err(e) => return Err(e),
        };
        let end = match point_arg_exec(f, args, bytes(&[101u8, 110u8, 100u8])) {
            Ok(p) => p,
            Err(e) => return Err(e),
        };
        Ok(Value::Wire(Wire::Arc { start, center, end }))
    } else {
        Err(RuntimeError::UnknownFunction(f.clone()))
    }
}

} // verus!
