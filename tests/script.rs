use model_script::library::RuntimeError;
use model_script::parser::{ParseError, ParseErrorKind};
use model_script::resolver::{Ast, ResolutionError, Resolver, MAX_DOCUMENTS};
use model_script::value::{IntoPart, Mesh, Part, Shape, Value};
use model_script::{eval, parse, Reader};
use std::cell::RefCell;

struct TestReader(&'static str);

impl Reader for TestReader {
    fn read(&self, _path: &Vec<u8>) -> Result<Vec<u8>, Vec<u8>> {
        Ok(self.0.as_bytes().to_vec())
    }

    fn normalize(&self, path: &Vec<u8>) -> Vec<u8> {
        path.clone()
    }
}

/// A reader over several named documents that counts its reads.
struct Files {
    files: Vec<(&'static str, &'static str)>,
    reads: RefCell<Vec<String>>,
}

impl Reader for Files {
    fn read(&self, path: &Vec<u8>) -> Result<Vec<u8>, Vec<u8>> {
        let p = String::from_utf8(path.clone()).unwrap();
        self.reads.borrow_mut().push(p.clone());
        for (name, text) in &self.files {
            if *name == p {
                return Ok(text.as_bytes().to_vec());
            }
        }
        Err(b"not found".to_vec())
    }

    fn normalize(&self, path: &Vec<u8>) -> Vec<u8> {
        let p = String::from_utf8(path.clone()).unwrap();
        let mut parts: Vec<&str> = Vec::new();
        for seg in p.split('/') {
            match seg {
                "" | "." => {}
                ".." => {
                    parts.pop();
                }
                s => parts.push(s),
            }
        }
        format!("/{}", parts.join("/")).into_bytes()
    }
}

fn files(list: Vec<(&'static str, &'static str)>) -> Files {
    Files { files: list, reads: RefCell::new(Vec::new()) }
}

fn parse_code(code: &'static str) -> Result<Ast, ResolutionError> {
    parse(&b"test".to_vec(), &TestReader(code))
}

fn run(code: &'static str) -> Value {
    let ast = parse_code(code).unwrap();
    eval(ast).expect("failed to eval")
}

fn run_err(code: &'static str) -> RuntimeError {
    let ast = parse_code(code).unwrap();
    match eval(ast) {
        Ok(_) => panic!("evaluation succeeded"),
        Err(e) => e,
    }
}

fn parse_err(code: &'static str) -> ParseError {
    match parse_code(code) {
        Err(ResolutionError::Parse { error, .. }) => error,
        other => panic!("expected a parse error, got {:?}", other),
    }
}

fn data(text: &str) -> Part {
    Part::Data { text: text.as_bytes().to_vec() }
}

#[test]
fn it_has_point() {
    run("point(x=10,y=10);");
}

#[test]
fn it_has_lines() {
    run("line(start=point(x=0,y=0), end=point(x=1,y=1));");
    run("arc(start=point(x=0,y=0),center=point(x=1,y=0), end=point(x=0,y=1));");
}

#[test]
fn point_projects_to_one_planar_point() {
    let part = run("point(x=1,y=2);").into_part();
    assert_eq!(part, Part::Planar { points: vec![(1, 2, 0)], lines: vec![] });
    let part = run("point(x=1,y=2,z=7);").into_part();
    assert_eq!(part, Part::Planar { points: vec![(1, 2, 7)], lines: vec![] });
}

#[test]
fn line_projects_to_its_endpoints() {
    let part = run("line(start=point(x=0,y=0), end=point(x=1,y=1));").into_part();
    assert_eq!(
        part,
        Part::Planar { points: vec![(0, 0, 0), (1, 1, 0)], lines: vec![vec![(0, 0, 0), (1, 1, 0)]] }
    );
}

#[test]
fn arc_projects_to_its_endpoints() {
    let part = run("arc(start=point(x=0,y=0),center=point(x=1,y=0), end=point(x=0,y=1));").into_part();
    assert_eq!(
        part,
        Part::Planar {
            points: vec![(0, 0, 0), (0, 1, 0)],
            lines: vec![],
        }
    );
}

#[test]
fn missing_argument_is_named() {
    assert_eq!(
        run_err("point(x=1);"),
        RuntimeError::MissingArgument { function: b"point".to_vec(), argument: b"y".to_vec() }
    );
    assert_eq!(
        run_err("line(end=point(x=1,y=1));"),
        RuntimeError::MissingArgument { function: b"line".to_vec(), argument: b"start".to_vec() }
    );
    assert_eq!(
        run_err("add(left=1);"),
        RuntimeError::MissingArgument { function: b"add".to_vec(), argument: b"right".to_vec() }
    );
}

#[test]
fn unknown_function_is_named() {
    assert_eq!(run_err("cube(size=1);"), RuntimeError::UnknownFunction(b"cube".to_vec()));
}

#[test]
fn wrong_argument_type_is_named() {
    assert_eq!(
        run_err("line(start=1, end=point(x=1,y=1));"),
        RuntimeError::WrongArgumentType { function: b"line".to_vec(), argument: b"start".to_vec() }
    );
    assert_eq!(
        run_err("point(x=1, y=2, z=true);"),
        RuntimeError::WrongArgumentType { function: b"point".to_vec(), argument: b"z".to_vec() }
    );
}

#[test]
fn arithmetic_results() {
    assert_eq!(run("add(left=2, right=3);").into_part(), data("5"));
    assert_eq!(run("subtract(left=2, right=3);").into_part(), data("-1"));
    assert_eq!(run("multiply(left=6, right=7);").into_part(), data("42"));
    assert_eq!(run("divide(left=7, right=2);").into_part(), data("3"));
    assert_eq!(run("divide(left=subtract(left=0, right=7), right=2);").into_part(), data("-3"));
}

#[test]
fn division_by_zero_fails() {
    assert_eq!(run_err("divide(left=1, right=0);"), RuntimeError::DivisionByZero(b"divide".to_vec()));
}

#[test]
fn overflow_fails() {
    assert_eq!(
        run_err("multiply(left=9223372036854775807, right=2);"),
        RuntimeError::Overflow(b"multiply".to_vec())
    );
}

#[test]
fn number_too_large_fails() {
    assert_eq!(parse_err("9223372036854775808;").kind, ParseErrorKind::NumberTooLarge);
}

#[test]
fn scalar_parts() {
    assert_eq!(run("true;").into_part(), data("true"));
    assert_eq!(run("false;").into_part(), data("false"));
    assert_eq!(run("\"hello\";").into_part(), data("hello"));
    assert_eq!(run("[1, 2, point(x=0,y=0)];").into_part(), data("[3]"));
    assert_eq!(run("[];").into_part(), data("[0]"));
}

#[test]
fn variables_and_last_statement() {
    assert_eq!(run("var a = 4; var b = add(left=a, right=a); b;").into_part(), data("8"));
    assert_eq!(run("var a = 4;").into_part(), data("4"));
}

#[test]
fn rebinding_fails() {
    assert_eq!(run_err("var a = 1; var a = 2; a;"), RuntimeError::Rebound(b"a".to_vec()));
}

#[test]
fn unknown_identifier_fails() {
    assert_eq!(run_err("add(left=q, right=1);"), RuntimeError::UnknownIdentifier(b"q".to_vec()));
}

#[test]
fn empty_document_fails() {
    assert_eq!(run_err("// nothing here\n"), RuntimeError::EmptyDocument);
}

#[test]
fn duplicate_argument_is_a_parse_error() {
    let e = parse_err("point(x=1, x=2);");
    assert_eq!(e, ParseError { kind: ParseErrorKind::DuplicateArgument, position: 11 });
}

#[test]
fn bad_token_is_a_parse_error() {
    let e = parse_err("point(x=1, y=#);");
    assert_eq!(e, ParseError { kind: ParseErrorKind::BadToken, position: 13 });
}

#[test]
fn unexpected_end_is_a_parse_error() {
    assert_eq!(parse_err("point(x=1,").kind, ParseErrorKind::UnexpectedEnd);
    assert_eq!(parse_err("\"open").kind, ParseErrorKind::UnexpectedEnd);
}

#[test]
fn missing_semicolon_is_a_parse_error() {
    let e = parse_err("point(x=1, y=2) point(x=1, y=2);");
    assert_eq!(e, ParseError { kind: ParseErrorKind::Unexpected, position: 16 });
}

#[test]
fn document_without_imports_is_one_entry() {
    let ast = parse_code("point(x=1, y=2);").unwrap();
    assert_eq!(ast.documents.len(), 1);
    assert_eq!(ast.documents[0].path, b"test".to_vec());
}

#[test]
fn shared_import_is_read_once() {
    let reader = files(vec![
        ("/main", "var a = ./lib/a(); var b = ./lib/b(); add(left=a, right=b);"),
        ("/lib/a", "./c(n=1);"),
        ("/lib/b", "./../lib/c(n=2);"),
        ("/lib/c", "var n = 10; multiply(left=n, right=10);"),
    ]);
    let ast = parse(&b"/main".to_vec(), &reader).unwrap();
    assert_eq!(ast.documents.len(), 4);
    let reads = reader.reads.borrow().clone();
    assert_eq!(reads.iter().filter(|p| p.as_str() == "/lib/c").count(), 1);
    assert_eq!(reads.len(), 4);
    assert_eq!(eval(ast).unwrap().into_part(), data("30"));
}

#[test]
fn document_arguments_override_defaults() {
    let reader = files(vec![
        ("/main", "./part(w=5);"),
        ("/part", "var w = 1; var h = 2; add(left=w, right=h);"),
    ]);
    let ast = parse(&b"/main".to_vec(), &reader).unwrap();
    assert_eq!(eval(ast).unwrap().into_part(), data("7"));
}

#[test]
fn imported_documents_do_not_see_the_caller() {
    let reader = files(vec![("/main", "var secret = 1; ./part();"), ("/part", "secret;")]);
    let ast = parse(&b"/main".to_vec(), &reader).unwrap();
    assert_eq!(eval(ast).unwrap_err(), RuntimeError::UnknownIdentifier(b"secret".to_vec()));
}

#[test]
fn unreadable_import_fails() {
    let reader = files(vec![("/main", "./missing();")]);
    match parse(&b"/main".to_vec(), &reader) {
        Err(ResolutionError::Read { path, .. }) => assert_eq!(path, b"/missing".to_vec()),
        other => panic!("expected a read error, got {:?}", other),
    }
}

#[test]
fn reevaluation_is_deterministic() {
    let code = "var p = point(x=3, y=4); line(start=p, end=point(x=add(left=1, right=1), y=9));";
    let first = run(code).into_part();
    let second = run(code).into_part();
    assert_eq!(first, second);
}

#[test]
fn cyclic_import_fails() {
    let reader = files(vec![("/main", "./a();"), ("/a", "./b();"), ("/b", "./a();")]);
    match parse(&b"/main".to_vec(), &reader) {
        Err(ResolutionError::CyclicImport { path }) => assert_eq!(path, b"/a".to_vec()),
        other => panic!("expected a cyclic import, got {:?}", other),
    }
}

#[test]
fn self_import_fails() {
    let reader = files(vec![("/main", "./main();")]);
    match parse(&b"/main".to_vec(), &reader) {
        Err(ResolutionError::CyclicImport { path }) => assert_eq!(path, b"/main".to_vec()),
        other => panic!("expected a cyclic import, got {:?}", other),
    }
}

fn square_shape() -> Value {
    Value::Shape(Shape {
        points: vec![(0, 0, 0), (1, 1, 0)],
        lines: vec![vec![(0, 0, 0), (1, 0, 0), (1, 1, 0)]],
        mesh: Mesh {
            vertices: vec![(0, 0, 0), (1, 0, 0), (1, 1, 0), (0, 1, 0)],
            faces: vec![((0, 1, 2), (0, 0, 1)), ((0, 2, 3), (0, 0, -1))],
        },
    })
}

#[test]
fn shape_projects_to_object_with_paired_normals() {
    let part = square_shape().into_part();
    assert_eq!(
        part,
        Part::Object {
            points: vec![(0, 0, 0), (1, 1, 0)],
            lines: vec![vec![(0, 0, 0), (1, 0, 0), (1, 1, 0)]],
            vertices: vec![(0, 0, 0), (1, 0, 0), (1, 1, 0), (0, 1, 0)],
            triangles: vec![(0, 1, 2), (0, 2, 3)],
            normals: vec![(0, 0, 1), (0, 0, -1)],
        }
    );
}

#[test]
fn shape_projected_twice_gives_the_same_part() {
    let shape = square_shape();
    let first = shape.into_part();
    let second = shape.into_part();
    assert_eq!(first, second);
}

#[test]
fn resolver_steps_build_the_graph() {
    let mut res = Resolver::new(b"/main".to_vec());
    let path = res.next_path().unwrap();
    assert_eq!(path, b"/main".to_vec());
    let text = b"./a(); ./a();".to_vec();
    let (stmts, written) = res.read_document(&text).unwrap();
    assert_eq!(written, vec![b"./a".to_vec(), b"./a".to_vec()]);
    let targets = vec![b"/a".to_vec(), b"/a".to_vec()];
    res.add_document(text, stmts, written, targets).unwrap();
    assert_eq!(res.paths, vec![b"/main".to_vec(), b"/a".to_vec()]);
    assert_eq!(res.next_path().unwrap(), b"/a".to_vec());
    let text = b"1;".to_vec();
    let (stmts, written) = res.read_document(&text).unwrap();
    res.add_document(text, stmts, written, vec![]).unwrap();
    assert!(res.next_path().is_none());
    let ast = res.finish().unwrap();
    assert_eq!(ast.documents.len(), 2);
    assert_eq!(ast.documents[0].links[0].target, 1);
    assert_eq!(ast.documents[0].links[1].target, 1);
}

#[test]
fn resolver_step_reports_parse_error_with_path() {
    let res = Resolver::new(b"/main".to_vec());
    match res.read_document(&b"point(x=1, x=2);".to_vec()) {
        Err(ResolutionError::Parse { path, error }) => {
            assert_eq!(path, b"/main".to_vec());
            assert_eq!(error.kind, ParseErrorKind::DuplicateArgument);
        }
        other => panic!("expected a parse error, got {:?}", other),
    }
}

#[test]
fn too_many_documents_fails() {
    let mut res = Resolver::new(b"/main".to_vec());
    let mut code = String::new();
    for i in 0..MAX_DOCUMENTS {
        code.push_str(&format!("./d{}();", i));
    }
    let text = code.into_bytes();
    let (stmts, written) = res.read_document(&text).unwrap();
    let targets: Vec<Vec<u8>> = (0..MAX_DOCUMENTS).map(|i| format!("/d{}", i).into_bytes()).collect();
    match res.add_document(text, stmts, written, targets) {
        Err(ResolutionError::TooManyDocuments) => {}
        other => panic!("expected too many documents, got {:?}", other),
    }
}

#[test]
fn resolver_finish_reports_cycle() {
    let mut res = Resolver::new(b"/main".to_vec());
    let text = b"./main();".to_vec();
    let (stmts, written) = res.read_document(&text).unwrap();
    res.add_document(text, stmts, written, vec![b"/main".to_vec()]).unwrap();
    match res.finish() {
        Err(ResolutionError::CyclicImport { path }) => assert_eq!(path, b"/main".to_vec()),
        other => panic!("expected a cycle, got {:?}", other),
    }
}
