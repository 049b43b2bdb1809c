use sexpvm::codegen::{Codegen, CodegenFault};
use sexpvm::compile;
use sexpvm::parser::{parse, SExp, ShapeFault};
use sexpvm::normalize::Normalize;
use sexpvm::runtime::{run, ByteOp, Obj, Value, VmFault};
use sexpvm::CompileError;

fn eval(input: &str) -> Option<Value> {
    let program = compile(input).unwrap();
    run(program).unwrap().result
}

fn eval_heap(input: &str) -> Vec<Obj> {
    let program = compile(input).unwrap();
    run(program).unwrap().heap
}

#[test]
fn positive_number() {
    assert_eq!(eval("5"), Some(Value::Number(5)));
}

#[test]
fn negative_number() {
    assert_eq!(eval("-5"), Some(Value::Number(-5)));
}

#[test]
fn add() {
    assert_eq!(eval("(+ 5 6)"), Some(Value::Number(11)));
}

#[test]
fn sub() {
    assert_eq!(eval("(- 10 6)"), Some(Value::Number(4)));
}

#[test]
fn nested_add() {
    assert_eq!(eval("(+ (+ 3 2) 6)"), Some(Value::Number(11)));
}

#[test]
fn variadic_operator() {
    assert_eq!(eval("(+ 5 6 7)"), Some(Value::Number(18)));
}

#[test]
fn variadic_operator_precedence() {
    assert_eq!(eval("(- 10 2 1)"), Some(Value::Number(7)));
}

#[test]
fn local_two() {
    assert_eq!(eval("(let ((x 5) (y 6)) in (+ x y))"), Some(Value::Number(11)));
}

#[test]
fn local_two_brackets() {
    assert_eq!(eval("(let [(x 5) (y 6)] in (+ x y))"), Some(Value::Number(11)));
}

#[test]
fn sequential_let_sees_earlier_sibling() {
    assert_eq!(eval("(let ((x 5) (y (+ x 1))) in (+ x y))"), Some(Value::Number(11)));
}

#[test]
fn shadowing_declaration_sees_prior_binding() {
    assert_eq!(eval("(let ((x 5) (x (+ x 1))) in x)"), Some(Value::Number(6)));
}

#[test]
fn if_false() {
    assert_eq!(eval("(if false (- 10 3) (+ 2 3))"), Some(Value::Number(5)));
}

#[test]
fn if_true() {
    assert_eq!(eval("(if true (- 10 3) (+ 2 3))"), Some(Value::Number(7)));
}

#[test]
fn less_than() {
    assert_eq!(eval("(< 1 2)"), Some(Value::True));
    assert_eq!(eval("(< 2 1)"), Some(Value::False));
}

#[test]
fn simple_cons() {
    assert_eq!(
        eval_heap("(cons 5 ())"),
        vec![Obj::Nil, Obj::Cons(Value::Number(5), Value::Obj(0))]
    );
}

#[test]
fn simple_func() {
    assert_eq!(eval("(let add (x y) (+ x y) in (add 40 2))"), Some(Value::Number(42)));
}

#[test]
fn simple_func_brackets() {
    assert_eq!(eval("(let add [x y] (+ x y) in (add 40 2))"), Some(Value::Number(42)));
}

#[test]
fn simple_recursion() {
    assert_eq!(
        eval("(let fib (n) (if (< n 2) n (+ (fib (- n 1)) (fib (- n 2)))) in (fib 8))"),
        Some(Value::Number(21))
    );
}

#[test]
fn empty_application_yields_nil() {
    assert_eq!(eval("()"), Some(Value::Obj(0)));
    assert_eq!(eval_heap("()"), vec![Obj::Nil]);
}

#[test]
fn deterministic_pipeline() {
    let src = "(let fib (n) (if (< n 2) n (+ (fib (- n 1)) (fib (- n 2)))) in (fib 8))";
    let p1 = compile(src).unwrap();
    let p2 = compile(src).unwrap();
    assert_eq!(p1.code, p2.code);
    let r1 = run(p1).unwrap();
    let r2 = run(p2).unwrap();
    assert_eq!(r1.result, r2.result);
    assert_eq!(r1.heap, r2.heap);
}

#[test]
fn resolve_noop_on_resolved() {
    let once = Normalize::default()
        .run(parse("(+ one 2)").unwrap())
        .unwrap();
    let baseline = Normalize::default()
        .run(parse("(+ one 2)").unwrap())
        .unwrap();
    let twice = Normalize::default().run(once).unwrap();
    assert_eq!(twice, baseline);
}

#[test]
fn resolve_positions_in_order() {
    let resolved = Normalize::default()
        .run(parse("(let ((x 5)) in x)").unwrap())
        .unwrap();
    assert_eq!(
        resolved,
        SExp::List(vec![
            SExp::Ident("let".to_string()),
            SExp::List(vec![SExp::List(vec![SExp::Var(0), SExp::ConstNumber(5)])]),
            SExp::Ident("in".to_string()),
            SExp::Var(0),
        ])
    );
}

#[test]
fn compiled_number_stream() {
    assert_eq!(
        compile("5").unwrap().code,
        vec![ByteOp::PushConstNumber(5), ByteOp::Halt]
    );
}

#[test]
fn compiled_conditional_stream() {
    assert_eq!(
        compile("(if true 1 2)").unwrap().code,
        vec![
            ByteOp::PushTrue,
            ByteOp::BrFalse(4),
            ByteOp::PushConstNumber(1),
            ByteOp::Jump(5),
            ByteOp::PushConstNumber(2),
            ByteOp::Halt,
        ]
    );
}

#[test]
fn compiled_function_stream() {
    assert_eq!(
        compile("(let id (x) x in (id 7))").unwrap().code,
        vec![
            ByteOp::PushFunc(6),
            ByteOp::AddLocal,
            ByteOp::PushConstNumber(7),
            ByteOp::LoadLocal(0),
            ByteOp::Call(1),
            ByteOp::Halt,
            ByteOp::LoadLocal(0),
            ByteOp::Return(1),
        ]
    );
}

#[test]
fn emitter_builders_compile_a_function_block() {
    let block = Codegen::default()
        .with_func(0, 5)
        .with_args(vec![1])
        .run(&SExp::Var(1))
        .unwrap();
    assert_eq!(block.code, vec![ByteOp::Label(5), ByteOp::LoadLocal(0)]);

    let self_ref = Codegen::default()
        .with_func(0, 5)
        .with_args(vec![1])
        .run(&SExp::Var(0))
        .unwrap();
    assert_eq!(self_ref.code, vec![ByteOp::Label(5), ByteOp::PushFunc(5)]);
}

#[test]
fn free_identifier_fault() {
    assert!(matches!(
        compile("x"),
        Err(CompileError::Codegen(CodegenFault::UnknownForm))
    ));
}

#[test]
fn operator_with_one_operand_fault() {
    assert!(matches!(compile("(+ 5)"), Err(CompileError::Codegen(_))));
}

#[test]
fn malformed_declaration_fault() {
    assert!(matches!(
        compile("(let (x) in 5)"),
        Err(CompileError::Resolve(ShapeFault::ExpectedList))
    ));
    assert!(matches!(
        compile("(let ((5 1)) in 2)"),
        Err(CompileError::Resolve(ShapeFault::ExpectedIdent))
    ));
}

#[test]
fn parse_stage_fault() {
    assert!(matches!(compile("(5"), Err(CompileError::Parse(_))));
}

#[test]
fn runtime_type_fault() {
    let program = compile("(+ 5 true)").unwrap();
    assert_eq!(run(program).unwrap_err(), VmFault::NotNumber);
}

#[test]
fn condition_must_be_boolean() {
    let program = compile("(if 1 2 3)").unwrap();
    assert_eq!(run(program).unwrap_err(), VmFault::NotBool);
}

#[test]
fn callee_must_be_function() {
    let program = compile("(let ((f 1)) in (f))").unwrap();
    assert_eq!(run(program).unwrap_err(), VmFault::NotFunction);
}
