use std::collections::HashMap;

use lisp::builtin::std_lib;
use lisp::env::Env;
use lisp::error::{ErrorKind, EvalError};
use lisp::eval::run;
use lisp::host::Host;
use lisp::value::Expression;

/// Floats through `f64`, files from memory, output collected.
#[derive(Default)]
struct TestHost {
    files: HashMap<String, String>,
    printed: Vec<String>,
    requests: Vec<String>,
    responses: Vec<String>,
}

impl Host for TestHost {
    fn float_from_int(&self, i: i64) -> u64 {
        (i as f64).to_bits()
    }
    fn float_parse(&self, text: &str) -> u64 {
        text.parse::<f64>().unwrap().to_bits()
    }
    fn float_add(&self, a: u64, b: u64) -> u64 {
        (f64::from_bits(a) + f64::from_bits(b)).to_bits()
    }
    fn float_sub(&self, a: u64, b: u64) -> u64 {
        (f64::from_bits(a) - f64::from_bits(b)).to_bits()
    }
    fn float_mul(&self, a: u64, b: u64) -> u64 {
        (f64::from_bits(a) * f64::from_bits(b)).to_bits()
    }
    fn float_div(&self, a: u64, b: u64) -> u64 {
        (f64::from_bits(a) / f64::from_bits(b)).to_bits()
    }
    fn float_rem(&self, a: u64, b: u64) -> u64 {
        (f64::from_bits(a) % f64::from_bits(b)).to_bits()
    }
    fn float_less(&self, a: u64, b: u64) -> bool {
        f64::from_bits(a) < f64::from_bits(b)
    }
    fn float_less_eq(&self, a: u64, b: u64) -> bool {
        f64::from_bits(a) <= f64::from_bits(b)
    }
    fn float_round(&self, a: u64) -> u64 {
        f64::from_bits(a).round().to_bits()
    }
    fn float_text(&self, a: u64) -> String {
        format!("{:?}", f64::from_bits(a))
    }
    fn print(&mut self, line: &str) {
        self.printed.push(line.to_string());
    }
    fn read_file(&mut self, path: &str) -> Option<String> {
        self.files.get(path).cloned()
    }
    fn write_file(&mut self, path: &str, content: &str) -> bool {
        self.files.insert(path.to_string(), content.to_string());
        true
    }
    fn clock_ms(&mut self) -> u64 {
        0
    }
    fn next_request(&mut self, _port: i64) -> Option<String> {
        if self.requests.is_empty() {
            None
        } else {
            Some(self.requests.remove(0))
        }
    }
    fn respond(&mut self, body: &str) {
        self.responses.push(body.to_string());
    }
}

fn eval(env: &mut Env, host: &mut TestHost, text: &str) -> Result<Expression, EvalError> {
    run(env, host, text)
}

fn num(i: i64) -> Expression {
    Expression::Integer(i)
}

fn float(f: f64) -> Expression {
    Expression::Float(f.to_bits())
}

fn sym(s: &str) -> Expression {
    Expression::Symbol(s.to_string())
}

fn list(items: Vec<Expression>) -> Expression {
    Expression::List(items)
}

fn function(params: &[&str], body: Expression) -> Expression {
    Expression::Function {
        arguments: params.iter().map(|p| sym(p)).collect(),
        body: Box::new(body),
    }
}

#[test]
fn add_two_integers() {
    let mut std = std_lib();
    let mut host = TestHost::default();
    let result = eval(&mut std, &mut host, "(+ 1 2)").unwrap();
    assert_eq!(result, Expression::Integer(3));
}

#[test]
fn add_two_floats() {
    let mut std = std_lib();
    let mut host = TestHost::default();
    let result = eval(&mut std, &mut host, "(+ 1.0 2.0)").unwrap();
    assert_eq!(result, float(3.0));
}

#[test]
fn map_numbers_add() {
    let mut std = std_lib();
    let mut host = TestHost::default();
    let result = eval(&mut std, &mut host, "(map (function (x) (+ x 1)) (1 2 3))").unwrap();
    assert_eq!(result, list(vec![num(2), num(3), num(4)]));
}

#[test]
fn fold() {
    let mut std = std_lib();
    let mut host = TestHost::default();
    let result = eval(&mut std, &mut host, "(fold (function (acc x) (+ acc x)) 0 (1 2 3))").unwrap();
    assert_eq!(result, Expression::Integer(6));
}

#[test]
fn filter() {
    let mut std = std_lib();
    let mut host = TestHost::default();
    let result = eval(&mut std, &mut host, "(filter (function (x) (< x 3)) (1 2 3 4 5))").unwrap();
    assert_eq!(result, list(vec![num(1), num(2)]));
    let result = eval(&mut std, &mut host, "(filter (function (x) (> x 3)) (1 2 3 4 5))").unwrap();
    assert_eq!(result, list(vec![num(4), num(5)]));
}

#[test]
fn concat_strings() {
    let mut std = std_lib();
    let mut host = TestHost::default();
    let result = eval(&mut std, &mut host, r#"(concat "hello" " " "world")"#).unwrap();
    assert_eq!(result, Expression::String("hello world".into()));
}

#[test]
fn create_add_xy_function() {
    let mut std = std_lib();
    let mut host = TestHost::default();
    let result = eval(&mut std, &mut host, "(function (x y) (+ x y))").unwrap();
    assert_eq!(
        result,
        Expression::Function {
            arguments: vec![sym("x"), sym("y")],
            body: Box::new(list(vec![sym("+"), sym("x"), sym("y")])),
        }
    );
}

#[test]
fn add_xy_function() {
    let mut std = std_lib();
    let mut host = TestHost::default();
    let result = eval(&mut std, &mut host, "((function (x y) (+ x y)) 1 2)").unwrap();
    assert_eq!(result, Expression::Integer(3));
}

#[test]
fn fibonacci() {
    let mut std = std_lib();
    let mut host = TestHost::default();
    let result = eval(
        &mut std,
        &mut host,
        "(define fibonacci (function (x)
            (if (<= x 2) 1 (+ (fibonacci (- x 1)) (fibonacci (- x 2)))))
        )",
    )
    .unwrap();
    assert_eq!(result, Expression::Nil);
    let correct_results = vec![0, 1, 1, 2, 3, 5, 8, 13, 21, 34, 55, 89, 144];
    for i in 1..=10 {
        let result = eval(&mut std, &mut host, &format!("(fibonacci {i})")).unwrap();
        assert_eq!(result, Expression::Integer(correct_results[i]));
    }
}

#[test]
fn let_chaining() {
    let mut std = std_lib();
    let mut host = TestHost::default();
    let result = eval(
        &mut std,
        &mut host,
        "(let x 1
            (let y 2
                (let z 3
                    (+ x y z)
                )
            )
        )",
    )
    .unwrap();
    assert_eq!(result, Expression::Integer(6));
}

#[test]
fn let_multi() {
    let mut std = std_lib();
    let mut host = TestHost::default();
    let result = eval(
        &mut std,
        &mut host,
        "(let* (
            (x 1)
            (y 2)
            (z 3)
        ) (+ x y z))",
    )
    .unwrap();
    assert_eq!(result, Expression::Integer(6));
}

#[test]
fn partial_application_left() {
    let mut std = std_lib();
    let mut host = TestHost::default();
    let result = eval(
        &mut std,
        &mut host,
        "(define add-xyz (
            function (x y z) (+ x y z)
        ))",
    )
    .unwrap();
    assert_eq!(result, Expression::Nil);
    let result = eval(&mut std, &mut host, "add-xyz").unwrap();
    assert_eq!(
        result,
        function(&["x", "y", "z"], list(vec![sym("+"), sym("x"), sym("y"), sym("z")]))
    );
    let result = eval(&mut std, &mut host, "(add-xyz 1)").unwrap();
    assert_eq!(
        result,
        function(&["y", "z"], list(vec![sym("add-xyz"), num(1), sym("y"), sym("z")]))
    );
    let result = eval(&mut std, &mut host, "(add-xyz 1 2)").unwrap();
    assert_eq!(
        result,
        function(&["z"], list(vec![sym("add-xyz"), num(1), num(2), sym("z")]))
    );
    let result = eval(&mut std, &mut host, "(add-xyz 1 2 3)").unwrap();
    assert_eq!(result, Expression::Integer(6));
}

#[test]
fn partial_application_right() {
    let mut std = std_lib();
    let mut host = TestHost::default();
    let result = eval(
        &mut std,
        &mut host,
        "(define add-xyz (
            function (x y z) (+ x y z)
        ))",
    )
    .unwrap();
    assert_eq!(result, Expression::Nil);
    let result = eval(&mut std, &mut host, "add-xyz").unwrap();
    assert_eq!(
        result,
        function(&["x", "y", "z"], list(vec![sym("+"), sym("x"), sym("y"), sym("z")]))
    );
    let result = eval(&mut std, &mut host, "(add-xyz _ _ 3)").unwrap();
    assert_eq!(
        result,
        function(&["x", "y"], list(vec![sym("add-xyz"), sym("x"), sym("y"), num(3)]))
    );
    let result = eval(&mut std, &mut host, "(add-xyz _ 2 3)").unwrap();
    assert_eq!(
        result,
        function(&["x"], list(vec![sym("add-xyz"), sym("x"), num(2), num(3)]))
    );
    let result = eval(&mut std, &mut host, "(add-xyz 1 2 3)").unwrap();
    assert_eq!(result, Expression::Integer(6));
}

#[test]
fn and_then() {
    let mut std = std_lib();
    let mut host = TestHost::default();
    let result = eval(
        &mut std,
        &mut host,
        "(and-then
            (define add (function (x y) (+ x y)))
            (add 1 2)
        )",
    )
    .unwrap();
    assert_eq!(result, Expression::Integer(3));
}

#[test]
fn range() {
    let mut std = std_lib();
    let mut host = TestHost::default();
    let result = eval(&mut std, &mut host, "(range 1 5)").unwrap();
    assert_eq!(result, list(vec![num(1), num(2), num(3), num(4)]));
}

#[test]
fn round() {
    let mut std = std_lib();
    let mut host = TestHost::default();
    let result = eval(&mut std, &mut host, "(round 1.5)").unwrap();
    assert_eq!(result, float(2.0));
    let result = eval(&mut std, &mut host, "(round 1.2)").unwrap();
    assert_eq!(result, float(1.0));
    let result = eval(&mut std, &mut host, "(round 1.8)").unwrap();
    assert_eq!(result, float(2.0));
}

#[test]
fn append() {
    let mut std = std_lib();
    let mut host = TestHost::default();
    let result = eval(&mut std, &mut host, "(append (1 2 3) 4)").unwrap();
    assert_eq!(result, list(vec![num(1), num(2), num(3), num(4)]));
}

#[test]
fn prepend() {
    let mut std = std_lib();
    let mut host = TestHost::default();
    let result = eval(&mut std, &mut host, "(prepend (2 3 4) 1)").unwrap();
    assert_eq!(result, list(vec![num(1), num(2), num(3), num(4)]));
}

#[test]
fn index() {
    let mut std = std_lib();
    let mut host = TestHost::default();
    let result = eval(&mut std, &mut host, "(index 0 (1 2 3))").unwrap();
    assert_eq!(result, Expression::Integer(1));
    let result = eval(&mut std, &mut host, "(index 1 (1 2 3))").unwrap();
    assert_eq!(result, Expression::Integer(2));
    let result = eval(&mut std, &mut host, "(index 2 (1 2 3))").unwrap();
    assert_eq!(result, Expression::Integer(3));
}

#[test]
fn slice() {
    let mut std = std_lib();
    let mut host = TestHost::default();
    let result = eval(&mut std, &mut host, "(slice 0 4 (1 2 3))");
    assert_eq!(result.is_err(), true);
    let result = eval(&mut std, &mut host, "(slice -1 1 (1 2 3))");
    assert_eq!(result.is_err(), true);
    let result = eval(&mut std, &mut host, "(slice 2 2 (1 2 3))");
    assert_eq!(result.is_err(), true);
    let result = eval(&mut std, &mut host, "(slice 0 3 (1 2 3))").unwrap();
    assert_eq!(result, list(vec![num(1), num(2), num(3)]));
    let result = eval(&mut std, &mut host, "(slice 0 2 (1 2 3))").unwrap();
    assert_eq!(result, list(vec![num(1), num(2)]));
    let result = eval(&mut std, &mut host, "(slice 0 1 (1 2 3))").unwrap();
    assert_eq!(result, list(vec![num(1)]));
    let result = eval(&mut std, &mut host, "(slice 0 0 (1 2 3))").unwrap();
    assert_eq!(result, list(vec![]));
}

#[test]
fn mixed_arithmetic_is_float() {
    let mut std = std_lib();
    let mut host = TestHost::default();
    assert_eq!(eval(&mut std, &mut host, "(+ 1.0 2)").unwrap(), float(3.0));
    assert_eq!(eval(&mut std, &mut host, "(* 2 2.5)").unwrap(), float(5.0));
    assert_eq!(eval(&mut std, &mut host, "(- 10 3 2)").unwrap(), num(5));
    assert_eq!(eval(&mut std, &mut host, "(/ 7 2)").unwrap(), num(3));
    assert_eq!(eval(&mut std, &mut host, "(/ -7 2)").unwrap(), num(-3));
    assert_eq!(eval(&mut std, &mut host, "(% 7 3)").unwrap(), num(1));
    assert_eq!(eval(&mut std, &mut host, "(+)").unwrap(), num(0));
    assert_eq!(eval(&mut std, &mut host, "(*)").unwrap(), num(1));
}

#[test]
fn arithmetic_errors() {
    let mut std = std_lib();
    let mut host = TestHost::default();
    assert_eq!(eval(&mut std, &mut host, "(/ 1 0)").unwrap_err().kind, ErrorKind::Arithmetic);
    assert_eq!(
        eval(&mut std, &mut host, "(+ 9223372036854775807 1)").unwrap_err().kind,
        ErrorKind::Arithmetic
    );
    assert_eq!(eval(&mut std, &mut host, "(+ 1 \"a\")").unwrap_err().kind, ErrorKind::Type);
    assert_eq!(eval(&mut std, &mut host, "(-)").unwrap_err().kind, ErrorKind::Arity);
}

#[test]
fn comparisons() {
    let mut std = std_lib();
    let mut host = TestHost::default();
    assert_eq!(eval(&mut std, &mut host, "(> 3 2 1)").unwrap(), sym("t"));
    assert_eq!(eval(&mut std, &mut host, "(> 3 2 4)").unwrap(), Expression::Nil);
    assert_eq!(eval(&mut std, &mut host, "(<= 1.5 2)").unwrap(), sym("t"));
    assert_eq!(eval(&mut std, &mut host, "(= 2 2 2)").unwrap(), sym("t"));
    assert_eq!(eval(&mut std, &mut host, "(= 2 3)").unwrap(), Expression::Nil);
}

#[test]
fn quoting_forms_give_data() {
    let mut std = std_lib();
    let mut host = TestHost::default();
    let expected = list(vec![num(1), num(2), num(3)]);
    assert_eq!(eval(&mut std, &mut host, "(quote (1 2 3))").unwrap(), expected);
    assert_eq!(eval(&mut std, &mut host, "[1 2 3]").unwrap(), expected);
    assert_eq!(eval(&mut std, &mut host, "'(1 2 3)").unwrap(), expected);
    assert_eq!(
        eval(&mut std, &mut host, "(quote (+ 1 2))").unwrap(),
        list(vec![sym("+"), num(1), num(2)])
    );
}

#[test]
fn let_does_not_leak() {
    let mut std = std_lib();
    let mut host = TestHost::default();
    let result = eval(&mut std, &mut host, "(and-then (let x 1 x) x)").unwrap();
    assert_eq!(result, Expression::Nil);
    let result = eval(&mut std, &mut host, "(let x 1 (and-then (let y 2 y) y))").unwrap();
    assert_eq!(result, Expression::Nil);
}

#[test]
fn partial_then_rest_equals_all_at_once() {
    let mut std = std_lib();
    let mut host = TestHost::default();
    eval(&mut std, &mut host, "(define add-xyz (function (x y z) (+ x y z)))").unwrap();
    eval(&mut std, &mut host, "(define part (add-xyz 1))").unwrap();
    assert_eq!(eval(&mut std, &mut host, "(part 2 3)").unwrap(), num(6));
    eval(&mut std, &mut host, "(define two (add-xyz 1 2))").unwrap();
    assert_eq!(eval(&mut std, &mut host, "(two 3)").unwrap(), num(6));
    assert_eq!(eval(&mut std, &mut host, "((add-xyz 1) 2 3)").unwrap(), num(6));
    assert_eq!(eval(&mut std, &mut host, "(((add-xyz 1) 2) 3)").unwrap(), num(6));
    assert_eq!(eval(&mut std, &mut host, "((add-xyz _ 2 _) 1 3)").unwrap(), num(6));
}

#[test]
fn over_application_is_an_arity_error() {
    let mut std = std_lib();
    let mut host = TestHost::default();
    eval(&mut std, &mut host, "(define add (function (x y) (+ x y)))").unwrap();
    assert_eq!(eval(&mut std, &mut host, "(add 1 2 3)").unwrap_err().kind, ErrorKind::Arity);
    assert_eq!(
        eval(&mut std, &mut host, "(add)").unwrap(),
        function(&["x", "y"], list(vec![sym("+"), sym("x"), sym("y")]))
    );
}

#[test]
fn modules_export_only_what_they_name() {
    let mut std = std_lib();
    let mut host = TestHost::default();
    host.files.insert(
        "m.lisp".to_string(),
        "(define hidden 1) (define shown 2) (export shown) (print \"loaded\")".to_string(),
    );
    eval(&mut std, &mut host, "(import \"m.lisp\")").unwrap();
    assert_eq!(eval(&mut std, &mut host, "shown").unwrap(), num(2));
    assert_eq!(eval(&mut std, &mut host, "hidden").unwrap(), Expression::Nil);
    eval(&mut std, &mut host, "(import \"m.lisp\")").unwrap();
    assert_eq!(host.printed, vec!["\"loaded\"".to_string(), "\"loaded\"".to_string()]);
    eval(&mut std, &mut host, "(define shown 5)").unwrap();
    assert_eq!(eval(&mut std, &mut host, "shown").unwrap(), num(5));
}

#[test]
fn module_cannot_see_importer() {
    let mut std = std_lib();
    let mut host = TestHost::default();
    host.files
        .insert("m.lisp".to_string(), "(define seen secret) (export seen)".to_string());
    eval(&mut std, &mut host, "(define secret 9)").unwrap();
    eval(&mut std, &mut host, "(import \"m.lisp\")").unwrap();
    assert_eq!(eval(&mut std, &mut host, "seen").unwrap(), Expression::Nil);
    assert_eq!(
        eval(&mut std, &mut host, "(import \"missing.lisp\")").unwrap_err().kind,
        ErrorKind::Io
    );
}

#[test]
fn recursion_factorial() {
    let mut std = std_lib();
    let mut host = TestHost::default();
    eval(
        &mut std,
        &mut host,
        "(define fact (function (n) (if (<= n 1) 1 (* n (fact (- n 1))))))",
    )
    .unwrap();
    assert_eq!(eval(&mut std, &mut host, "(fact 10)").unwrap(), num(3628800));
}

#[test]
fn runaway_recursion_hits_the_limit() {
    let mut std = std_lib();
    let mut host = TestHost::default();
    eval(&mut std, &mut host, "(define loop (function (n) (loop n)))").unwrap();
    assert_eq!(eval(&mut std, &mut host, "(loop 1)").unwrap_err().kind, ErrorKind::Limit);
}

#[test]
fn slice_bounds() {
    let mut std = std_lib();
    let mut host = TestHost::default();
    assert_eq!(eval(&mut std, &mut host, "(slice 1 2 (1 2 3))").unwrap(), list(vec![num(2), num(3)]));
    assert_eq!(eval(&mut std, &mut host, "(slice 1 -1 (1 2 3))").unwrap_err().kind, ErrorKind::Bounds);
    assert_eq!(eval(&mut std, &mut host, "(slice 3 0 (1 2 3))").unwrap(), list(vec![]));
    assert_eq!(eval(&mut std, &mut host, "(index 3 (1 2 3))").unwrap_err().kind, ErrorKind::Bounds);
    assert_eq!(eval(&mut std, &mut host, "(index -1 (1 2 3))").unwrap_err().kind, ErrorKind::Bounds);
}

#[test]
fn unbound_symbols_are_nil_and_data_lists_stand() {
    let mut std = std_lib();
    let mut host = TestHost::default();
    assert_eq!(eval(&mut std, &mut host, "nothing").unwrap(), Expression::Nil);
    assert_eq!(eval(&mut std, &mut host, "(1 2)").unwrap(), list(vec![num(1), num(2)]));
    assert_eq!(eval(&mut std, &mut host, "()").unwrap(), list(vec![]));
    assert_eq!(eval(&mut std, &mut host, "true").unwrap(), sym("t"));
    assert_eq!(eval(&mut std, &mut host, "#f").unwrap(), Expression::Nil);
}

#[test]
fn list_utilities() {
    let mut std = std_lib();
    let mut host = TestHost::default();
    assert_eq!(eval(&mut std, &mut host, "(reverse (1 2 3))").unwrap(), list(vec![num(3), num(2), num(1)]));
    assert_eq!(eval(&mut std, &mut host, "(length (1 2 3))").unwrap(), num(3));
    assert_eq!(eval(&mut std, &mut host, "(length \"abcd\")").unwrap(), num(4));
    assert_eq!(
        eval(&mut std, &mut host, "(tangle 0 (1 2 3))").unwrap(),
        list(vec![num(1), num(0), num(2), num(0), num(3)])
    );
    assert_eq!(
        eval(&mut std, &mut host, "(zip (1 2 3) (4 5))").unwrap(),
        list(vec![list(vec![num(1), num(4)]), list(vec![num(2), num(5)])])
    );
    assert_eq!(
        eval(&mut std, &mut host, "(zip-with (function (a b) (* a b)) (1 2) (3 4))").unwrap(),
        list(vec![num(3), num(8)])
    );
    assert_eq!(
        eval(&mut std, &mut host, "(split \",\" \"a,b,,c\")").unwrap(),
        list(vec![
            Expression::String("a".into()),
            Expression::String("b".into()),
            Expression::String("".into()),
            Expression::String("c".into()),
        ])
    );
    assert_eq!(eval(&mut std, &mut host, "(apply + (1 2 3))").unwrap(), num(6));
    assert_eq!(eval(&mut std, &mut host, "(type 1.5)").unwrap(), Expression::String("float".into()));
    assert_eq!(eval(&mut std, &mut host, "(concat-symbol a b)").unwrap(), sym("ab"));
    assert_eq!(eval(&mut std, &mut host, "(to-string (1 \"x\" y))").unwrap(), Expression::String("(1 \"x\" y)".into()));
    assert_eq!(eval(&mut std, &mut host, "(to-string -42)").unwrap(), Expression::String("-42".into()));
}

#[test]
fn control_forms() {
    let mut std = std_lib();
    let mut host = TestHost::default();
    assert_eq!(eval(&mut std, &mut host, "(if nil 1 2)").unwrap(), num(2));
    assert_eq!(eval(&mut std, &mut host, "(if nil 1)").unwrap(), Expression::Nil);
    assert_eq!(eval(&mut std, &mut host, "(and 1 nil (undefined-call))").unwrap(), Expression::Nil);
    assert_eq!(eval(&mut std, &mut host, "(or nil 2)").unwrap(), sym("t"));
    assert_eq!(eval(&mut std, &mut host, "(eval (quote (+ 1 2)))").unwrap(), num(3));
    assert_eq!(eval(&mut std, &mut host, "(eval + 1 2)").unwrap(), num(3));
    eval(&mut std, &mut host, "(for x (1 2) (print x))").unwrap();
    eval(&mut std, &mut host, "(for-i (i 0) (< i 3) (+ i 1) (print i))").unwrap();
    assert_eq!(host.printed, vec!["1", "2", "0", "1", "2"]);
    assert_eq!(eval(&mut std, &mut host, "(exists (quote t))").unwrap(), sym("t"));
    assert_eq!(eval(&mut std, &mut host, "(exists (quote nope))").unwrap(), Expression::Nil);
}

#[test]
fn files_and_server() {
    let mut std = std_lib();
    let mut host = TestHost::default();
    assert_eq!(eval(&mut std, &mut host, "(write \"f\" \"hi\")").unwrap(), sym("t"));
    assert_eq!(eval(&mut std, &mut host, "(read \"f\")").unwrap(), Expression::String("hi".into()));
    assert_eq!(eval(&mut std, &mut host, "(read \"g\")").unwrap_err().kind, ErrorKind::Io);
    host.requests = vec!["/".to_string(), "/x".to_string()];
    eval(&mut std, &mut host, "(web-server 8080 ((\"/\" \"home\")))").unwrap();
    assert_eq!(host.responses, vec!["home".to_string(), "404".to_string()]);
}

#[test]
fn parse_errors() {
    let mut std = std_lib();
    let mut host = TestHost::default();
    assert_eq!(eval(&mut std, &mut host, "(+ 1 2").unwrap_err().kind, ErrorKind::Parse);
    assert_eq!(eval(&mut std, &mut host, "\"open").unwrap_err().kind, ErrorKind::Parse);
    assert_eq!(eval(&mut std, &mut host, "(+ 1 2) (+ 3 4)").unwrap(), num(7));
}

#[test]
fn tables_and_frames() {
    let mut std = std_lib();
    let mut host = TestHost::default();
    assert_eq!(eval(&mut std, &mut host, "(= (module) (module))").unwrap(), sym("t"));
    assert_eq!(eval(&mut std, &mut host, "(type (module))").unwrap(), Expression::String("table".into()));
    let shown = eval(&mut std, &mut host, "(to-string (module))").unwrap();
    let a = Expression::String("{ imported: {}, exported: {} }".into());
    let b = Expression::String("{ exported: {}, imported: {} }".into());
    assert!(shown == a || shown == b);
    host.files.insert("m.lisp".to_string(), "(define v 1) (export v)".to_string());
    eval(&mut std, &mut host, "(import \"m.lisp\")").unwrap();
    assert_eq!(eval(&mut std, &mut host, "(= (module) (module))").unwrap(), sym("t"));
    let inside = eval(&mut std, &mut host, "(let q 7 (env))").unwrap();
    match inside {
        Expression::List(values) => {
            assert_eq!(values.len(), 3);
            assert!(values.contains(&num(7)));
        }
        other => panic!("not a list: {other:?}"),
    }
}

#[test]
fn counting_calls() {
    let mut std = std_lib();
    let mut host = TestHost::default();
    let result = lisp::eval::run_log(&mut std, &mut host, "(+ 1 (+ 2 3))").unwrap();
    assert_eq!(result, num(6));
    assert_eq!(host.printed, vec!["Evaluation count: 2".to_string()]);
    eval(&mut std, &mut host, "(eval-log + 1 2)").unwrap();
    assert_eq!(host.printed[1], "Evaluation count: 1");
}
