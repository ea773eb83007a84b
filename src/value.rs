use vstd::prelude::*;

verus! {

/// A coordinate triple.
pub type Coord = (i64, i64, i64);

/// A point handle of the geometry model.
#[derive(Clone, Copy, Debug, PartialEq, Eq, Structural)]
pub struct Point {
    pub x: i64,
    pub y: i64,
    pub z: i64,
}

/// A wire: a single straight or circular edge.
#[derive(Clone, Copy, Debug, PartialEq, Eq, Structural)]
pub enum Wire {
    Line { start: Point, end: Point },
    Arc { start: Point, center: Point, end: Point },
}

/// A triangle mesh as the geometry kernel delivers it: vertices, and each
/// triangle (three vertex indices) paired with its normal, in kernel order.
#[derive(Debug)]
pub struct Mesh {
    pub vertices: Vec<Coord>,
    pub faces: Vec<((usize, usize, usize), Coord)>,
}

/// A solid shape handle, holding what the geometry kernel computed for it
/// once: its boundary points, its edges as point sequences, and its mesh.
#[derive(Debug)]
pub struct Shape {
    pub points: Vec<Coord>,
    pub lines: Vec<Vec<Coord>>,
    pub mesh: Mesh,
}

/// Point sequences as mathematical sequences.
pub open spec fn lines_model(lines: Seq<Vec<Coord>>) -> Seq<Seq<Coord>> {
    Seq::new(lines.len(), |i: int| lines[i]@)
}

/// What a shape holds, as mathematical sequences.
pub struct ShapeModel {
    pub points: Seq<Coord>,
    pub lines: Seq<Seq<Coord>>,
    pub vertices: Seq<Coord>,
    pub faces: Seq<((usize, usize, usize), Coord)>,
}

impl View for Shape {
    type V = ShapeModel;

    open spec fn view(&self) -> ShapeModel {
        ShapeModel {
            points: self.points@,
            lines: lines_model(self.lines@),
            vertices: self.mesh.vertices@,
            faces: self.mesh.faces@,
        }
    }
}

/// A runtime value of the scripting language. Numbers are 64-bit integers:
/// the library holds no floating-point values, so arithmetic is exact,
/// division rounds toward zero, and a result out of range is an error.
#[derive(Debug)]
pub enum Value {
    Number(i64),
    Boolean(bool),
    Text(Vec<u8>),
    List(Vec<Value>),
    Point(Point),
    Wire(Wire),
    Shape(Shape),
}

/// What a value holds, with its sequences as mathematical sequences.
pub enum ValueModel {
    Number(i64),
    Boolean(bool),
    Text(Seq<u8>),
    List(Seq<ValueModel>),
    Point(Point),
    Wire(Wire),
    Shape(ShapeModel),
}

pub open spec fn model_of(v: Value) -> ValueModel
    decreases v, 1nat,
{
    match v {
        Value::Number(n) => ValueModel::Number(n),
        Value::Boolean(b) => ValueModel::Boolean(b),
        Value::Text(t) => ValueModel::Text(t@),
        Value::List(items) => ValueModel::List(models_of(items@, items@.len())),
        Value::Point(p) => ValueModel::Point(p),
        Value::Wire(w) => ValueModel::Wire(w),
        Value::Shape(s) => ValueModel::Shape(s@),
    }
}

/// The models of the first `n` values of `s`.
pub open spec fn models_of(s: Seq<Value>, n: nat) -> Seq<ValueModel>
    decreases s, n,
{
    if n == 0 || n > s.len() {
        Seq::empty()
    } else {
        models_of(s, (n - 1) as nat).push(model_of(s[n - 1]))
    }
}

impl View for Value {
    type V = ValueModel;

    open spec fn view(&self) -> ValueModel {
        model_of(*self)
    }
}

/// The renderer-neutral projection of a value.
#[derive(Clone, Debug, PartialEq, Eq)]
pub enum Part {
    Data { text: Vec<u8> },
    Planar { points: Vec<Coord>, lines: Vec<Vec<Coord>> },
    Object {
        points: Vec<Coord>,
        lines: Vec<Vec<Coord>>,
        vertices: Vec<Coord>,
        triangles: Vec<(usize, usize, usize)>,
        normals: Vec<Coord>,
    },
}

/// What a `Part` holds, as mathematical sequences.
pub enum PartModel {
    Data { text: Seq<u8> },
    Planar { points: Seq<Coord>, lines: Seq<Seq<Coord>> },
    Object {
        points: Seq<Coord>,
        lines: Seq<Seq<Coord>>,
        vertices: Seq<Coord>,
        triangles: Seq<(usize, usize, usize)>,
        normals: Seq<Coord>,
    },
}

pub open spec fn coord_of(p: Point) -> Coord {
    (p.x, p.y, p.z)
}

/// The decimal digits of `n`, most significant first.
pub open spec fn digits(n: nat) -> Seq<u8>
    decreases n,
{
    if n < 10 {
        seq![(48 + n) as u8]
    } else {
        digits(n / 10).push((48 + n % 10) as u8)
    }
}

/// The decimal text of an integer, with a leading `-` when negative.
pub open spec fn decimal(n: int) -> Seq<u8> {
    if n < 0 {
        seq![45u8] + digits((-n) as nat)
    } else {
        digits(n as nat)
    }
}

pub open spec fn bool_text(b: bool) -> Seq<u8> {
    if b {
        seq![116u8, 114u8, 117u8, 101u8]
    } else {
        seq![102u8, 97u8, 108u8, 115u8, 101u8]
    }
}

pub open spec fn wire_start(w: Wire) -> Point {
    match w {
        Wire::Line { start, .. } => start,
        Wire::Arc { start, .. } => start,
    }
}

pub open spec fn wire_end(w: Wire) -> Point {
    match w {
        Wire::Line { end, .. } => end,
        Wire::Arc { end, .. } => end,
    }
}

/// The point sequences that trace a wire: the segment between its ends for
/// a line. An arc's trace is the geometry kernel's to compute, and the
/// library holds none, so an arc has no trace.
pub open spec fn wire_lines(w: Wire) -> Seq<Seq<Coord>> {
    match w {
        Wire::Line { start, end } => seq![seq![coord_of(start), coord_of(end)]],
        Wire::Arc { .. } => seq![],
    }
}

impl Part {
    pub open spec fn model(&self) -> PartModel {
        match self {
            Part::Data { text } => PartModel::Data { text: text@ },
            Part::Planar { points, lines } => PartModel::Planar {
                points: points@,
                lines: lines_model(lines@),
            },
            Part::Object { points, lines, vertices, triangles, normals } => PartModel::Object {
                points: points@,
                lines: lines_model(lines@),
                vertices: vertices@,
                triangles: triangles@,
                normals: normals@,
            },
        }
    }
}

/// The part that a value projects to.
pub open spec fn part_of(v: Value) -> PartModel {
    match v {
        Value::Number(n) => PartModel::Data { text: decimal(n as int) },
        Value::Boolean(b) => PartModel::Data { text: bool_text(b) },
        Value::Text(t) => PartModel::Data { text: t@ },
        Value::List(items) => PartModel::Data {
            text: seq![91u8] + decimal(items@.len() as int) + seq![93u8],
        },
        Value::Point(p) => PartModel::Planar { points: seq![coord_of(p)], lines: seq![] },
        Value::Wire(w) => PartModel::Planar {
            points: seq![coord_of(wire_start(w)), coord_of(wire_end(w))],
            lines: wire_lines(w),
        },
        Value::Shape(s) => PartModel::Object {
            points: s.points@,
            lines: lines_model(s.lines@),
            vertices: s.mesh.vertices@,
            triangles: s.mesh.faces@.map_values(|f: ((usize, usize, usize), Coord)| f.0),
            normals: s.mesh.faces@.map_values(|f: ((usize, usize, usize), Coord)| f.1),
        },
    }
}

/// Appends the decimal digits of `n` to `out`.
fn push_digits(n: u64, out: &mut Vec<u8>)
    ensures
        final(out)@ == old(out)@ + digits(n as nat),
    decreases n,
{
    if n < 10 {
        out.push((48 + n) as u8);
        assert(final(out)@ =~= old(out)@ + digits(n as nat));
    } else {
        push_digits(n / 10, out);
        out.push((48 + n % 10) as u8);
        assert(out@ =~= old(out)@ + digits(n as nat));
    }
}

/// Appends the decimal text of `n` to `out`.
pub fn push_decimal(n: i64, out: &mut Vec<u8>)
    ensures
        final(out)@ == old(out)@ + decimal(n as int),
{
    if n < 0 {
        out.push(45u8);
        let m: u64 = (-(n as i128)) as u64;
        push_digits(m, out);
        assert(out@ =~= old(out)@ + decimal(n as int));
    } else {
        push_digits(n as u64, out);
    }
}

pub fn bool_bytes(b: bool) -> (r: Vec<u8>)
    ensures
        r@ == bool_text(b),
{
    let r = if b {
        vec![116u8, 114u8, 117u8, 101u8]
    } else {
        vec![102u8, 97u8, 108u8, 115u8, 101u8]
    };
    assert(r@ =~= bool_text(b));
    r
}

impl Point {
    pub fn coord(&self) -> (r: Coord)
        ensures
            r == coord_of(*self),
    {
        (self.x, self.y, self.z)
    }
}

impl Wire {
    /// The wire's first point.
    pub fn start(&self) -> (r: Point)
        ensures
            r == wire_start(*self),
    {
        match self {
            Wire::Line { start, .. } => *start,
            Wire::Arc { start, .. } => *start,
        }
    }

    /// The wire's last point.
    pub fn end(&self) -> (r: Point)
        ensures
            r == wire_end(*self),
    {
        match self {
            Wire::Line { end, .. } => *end,
            Wire::Arc { end, .. } => *end,
        }
    }

    /// The point sequences that trace the wire.
    pub fn lines(&self) -> (r: Vec<Vec<Coord>>)
        ensures
            lines_model(r@) == wire_lines(*self),
    {
        let r = match self {
            Wire::Line { start, end } => vec![vec![start.coord(), end.coord()]],
            Wire::Arc { .. } => Vec::new(),
        };
        assert(lines_model(r@) =~= wire_lines(*self));
        r
    }
}

pub proof fn lemma_models_agree(a: Seq<Value>, b: Seq<Value>, n: nat)
    requires
        n <= a.len(),
        n <= b.len(),
        forall|j: int| 0 <= j < n ==> (#[trigger] a[j])@ == b[j]@,
    ensures
        models_of(a, n) == models_of(b, n),
    decreases n,
{
    if n > 0 {
        lemma_models_agree(a, b, (n - 1) as nat);
        assert(a[n - 1]@ == b[n - 1]@);
    }
}

/// An independent copy of a value.
pub fn copy_value(v: &Value) -> (r: Value)
    ensures
        r@ == v@,
    decreases *v,
{
    match v {
        Value::Number(n) => Value::Number(*n),
        Value::Boolean(b) => Value::Boolean(*b),
        Value::Text(t) => Value::Text(t.clone()),
        Value::List(items) => {
            let mut out: Vec<Value> = Vec::new();
            let mut i: usize = 0;
            while i < items.len()
                invariant
                    *v == Value::List(*items),
                    i <= items.len(),
                    out@.len() == i,
                    forall|j: int| 0 <= j < i ==> (#[trigger] out@[j])@ == items@[j]@,
                decreases items.len() - i,
            {
                proof {
                    vstd::std_specs::vec::axiom_vec_index_decreases(*items, i as int);
                    assert(decreases_to!(*v => v->List_0));
                    assert(decreases_to!(*v => items[i as int]));
                }
                let c = copy_value(&items[i]);
                out.push(c);
                i += 1;
            }
            proof {
                lemma_models_agree(out@, items@, items@.len());
            }
            Value::List(out)
        },
        Value::Point(p) => Value::Point(*p),
        Value::Wire(w) => Value::Wire(*w),
        Value::Shape(sh) => Value::Shape(copy_shape(sh)),
    }
}

/// An independent copy of a sequence of plain values.
pub fn copy_seq<T: Copy>(v: &Vec<T>) -> (r: Vec<T>)
    ensures
        r@ == v@,
{
    let mut r: Vec<T> = Vec::new();
    let mut i: usize = 0;
    while i < v.len()
        invariant
            i <= v.len(),
            r@ == v@.subrange(0, i as int),
        decreases v.len() - i,
    {
        r.push(v[i]);
        i += 1;
        assert(r@ =~= v@.subrange(0, i as int));
    }
    assert(r@ =~= v@);
    r
}

/// An independent copy of a list of point sequences.
pub fn copy_lines(v: &Vec<Vec<Coord>>) -> (r: Vec<Vec<Coord>>)
    ensures
        lines_model(r@) == lines_model(v@),
{
    let mut r: Vec<Vec<Coord>> = Vec::new();
    let mut i: usize = 0;
    while i < v.len()
        invariant
            i <= v.len(),
            r@.len() == i,
            forall|j: int| 0 <= j < i ==> (#[trigger] r@[j])@ == v@[j]@,
        decreases v.len() - i,
    {
        r.push(copy_seq(&v[i]));
        i += 1;
    }
    assert(lines_model(r@) =~= lines_model(v@));
    r
}

/// An independent copy of a shape.
pub fn copy_shape(s: &Shape) -> (r: Shape)
    ensures
        r@ == s@,
{
    Shape {
        points: copy_seq(&s.points),
        lines: copy_lines(&s.lines),
        mesh: Mesh { vertices: copy_seq(&s.mesh.vertices), faces: copy_seq(&s.mesh.faces) },
    }
}

/// Projection of a value into a part.
pub trait IntoPart {
    fn into_part(&self) -> Part;
}

impl IntoPart for Value {
    fn into_part(&self) -> (r: Part)
        ensures
            r.model() == part_of(*self),
    {
        match self {
            Value::Number(n) => {
                let mut text: Vec<u8> = Vec::new();
                push_decimal(*n, &mut text);
                assert(text@ =~= decimal(*n as int));
                Part::Data { text }
            },
            Value::Boolean(b) => Part::Data { text: bool_bytes(*b) },
            Value::Text(t) => Part::Data { text: t.clone() },
            Value::List(items) => {
                let mut text: Vec<u8> = vec![91u8];
                push_digits(items.len() as u64, &mut text);
                text.push(93u8);
                assert(text@ =~= seq![91u8] + decimal(items@.len() as int) + seq![93u8]);
                Part::Data { text }
            },
            Value::Point(p) => {
                let points = vec![p.coord()];
                let lines: Vec<Vec<Coord>> = Vec::new();
                let r = Part::Planar { points, lines };
                assert(r.model() == part_of(*self)) by {
                    assert(points@ =~= seq![coord_of(*p)]);
                    assert(lines_model(lines@) =~= Seq::<Seq<Coord>>::empty());
                }
                r
            },
            Value::Wire(w) => {
                let points = vec![w.start().coord(), w.end().coord()];
                let lines = w.lines();
                let r = Part::Planar { points, lines };
                assert(r.model() == part_of(*self)) by {
                    assert(points@ =~= seq![coord_of(wire_start(*w)), coord_of(wire_end(*w))]);
                }
                r
            },
            Value::Shape(sh) => {
                let faces = &sh.mesh.faces;
                let mut triangles: Vec<(usize, usize, usize)> = Vec::new();
                let mut normals: Vec<Coord> = Vec::new();
                let mut i: usize = 0;
                while i < faces.len()
                    invariant
                        i <= faces.len(),
                        triangles@ == faces@.subrange(0, i as int).map_values(
                            |f: ((usize, usize, usize), Coord)| f.0,
                        ),
                        normals@ == faces@.subrange(0, i as int).map_values(
                            |f: ((usize, usize, usize), Coord)| f.1,
                        ),
                    decreases faces.len() - i,
                {
                    let (tri, normal) = faces[i];
                    triangles.push(tri);
                    normals.push(normal);
                    i += 1;
                    assert(triangles@ =~= faces@.subrange(0, i as int).map_values(
                        |f: ((usize, usize, usize), Coord)| f.0,
                    ));
                    assert(normals@ =~= faces@.subrange(0, i as int).map_values(
                        |f: ((usize, usize, usize), Coord)| f.1,
                    ));
                }
                assert(faces@.subrange(0, faces@.len() as int) =~= faces@);
                Part::Object {
                    points: copy_seq(&sh.points),
                    lines: copy_lines(&sh.lines),
                    vertices: copy_seq(&sh.mesh.vertices),
                    triangles,
                    normals,
                }
            },
        }
    }
}

} // verus!
