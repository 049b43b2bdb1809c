use sexpvm::runtime::{run, ByteOp, Obj, Program, Value, VmFault};

fn exec(code: Vec<ByteOp>) -> Result<(Option<Value>, Vec<Obj>), VmFault> {
    let r = run(Program { code })?;
    Ok((r.result, r.heap))
}

#[test]
fn empty_program_has_no_value() {
    assert_eq!(exec(vec![]), Ok((None, vec![Obj::Nil])));
}

#[test]
fn push_and_add() {
    assert_eq!(
        exec(vec![
            ByteOp::PushConstNumber(2),
            ByteOp::PushConstNumber(3),
            ByteOp::Add,
            ByteOp::Halt,
        ]),
        Ok((Some(Value::Number(5)), vec![Obj::Nil]))
    );
}

#[test]
fn sub_pops_right_operand_first() {
    assert_eq!(
        exec(vec![
            ByteOp::PushConstNumber(10),
            ByteOp::PushConstNumber(4),
            ByteOp::Sub,
        ]),
        Ok((Some(Value::Number(6)), vec![Obj::Nil]))
    );
}

#[test]
fn add_overflow_fault() {
    assert_eq!(
        exec(vec![
            ByteOp::PushConstNumber(i64::MAX),
            ByteOp::PushConstNumber(1),
            ByteOp::Add,
        ]),
        Err(VmFault::Overflow)
    );
}

#[test]
fn sub_overflow_fault() {
    assert_eq!(
        exec(vec![
            ByteOp::PushConstNumber(i64::MIN),
            ByteOp::PushConstNumber(1),
            ByteOp::Sub,
        ]),
        Err(VmFault::Overflow)
    );
}

#[test]
fn stack_underflow_fault() {
    assert_eq!(exec(vec![ByteOp::Add]), Err(VmFault::StackUnderflow));
}

#[test]
fn add_type_fault() {
    assert_eq!(
        exec(vec![ByteOp::PushConstNumber(1), ByteOp::PushTrue, ByteOp::Add]),
        Err(VmFault::NotNumber)
    );
}

#[test]
fn less_pushes_booleans() {
    assert_eq!(
        exec(vec![ByteOp::PushConstNumber(1), ByteOp::PushConstNumber(2), ByteOp::Less]),
        Ok((Some(Value::True), vec![Obj::Nil]))
    );
    assert_eq!(
        exec(vec![ByteOp::PushConstNumber(2), ByteOp::PushConstNumber(1), ByteOp::Less]),
        Ok((Some(Value::False), vec![Obj::Nil]))
    );
}

#[test]
fn branch_not_taken_on_true() {
    assert_eq!(
        exec(vec![
            ByteOp::PushTrue,
            ByteOp::BrFalse(3),
            ByteOp::PushConstNumber(7),
            ByteOp::Halt,
        ]),
        Ok((Some(Value::Number(7)), vec![Obj::Nil]))
    );
}

#[test]
fn branch_taken_on_false() {
    assert_eq!(
        exec(vec![
            ByteOp::PushFalse,
            ByteOp::BrFalse(3),
            ByteOp::PushConstNumber(7),
            ByteOp::PushConstNumber(9),
            ByteOp::Halt,
        ]),
        Ok((Some(Value::Number(9)), vec![Obj::Nil]))
    );
}

#[test]
fn branch_type_fault() {
    assert_eq!(
        exec(vec![ByteOp::PushConstNumber(1), ByteOp::BrFalse(0)]),
        Err(VmFault::NotBool)
    );
}

#[test]
fn jump_moves_the_counter() {
    assert_eq!(
        exec(vec![
            ByteOp::Jump(2),
            ByteOp::PushConstNumber(1),
            ByteOp::PushConstNumber(2),
            ByteOp::Halt,
        ]),
        Ok((Some(Value::Number(2)), vec![Obj::Nil]))
    );
}

#[test]
fn locals_bind_and_load() {
    assert_eq!(
        exec(vec![
            ByteOp::PushConstNumber(42),
            ByteOp::AddLocal,
            ByteOp::LoadLocal(0),
            ByteOp::Halt,
        ]),
        Ok((Some(Value::Number(42)), vec![Obj::Nil]))
    );
}

#[test]
fn missing_local_fault() {
    assert_eq!(exec(vec![ByteOp::LoadLocal(0)]), Err(VmFault::MissingLocal));
}

#[test]
fn label_at_runtime_fault() {
    assert_eq!(exec(vec![ByteOp::Label(0)]), Err(VmFault::UnpatchedLabel));
}

#[test]
fn call_not_function_fault() {
    assert_eq!(
        exec(vec![ByteOp::PushConstNumber(1), ByteOp::Call(0)]),
        Err(VmFault::NotFunction)
    );
}

#[test]
fn call_missing_arguments_fault() {
    assert_eq!(
        exec(vec![ByteOp::PushFunc(0), ByteOp::Call(1)]),
        Err(VmFault::MissingArguments)
    );
}

#[test]
fn return_from_top_fault() {
    assert_eq!(
        exec(vec![ByteOp::PushConstNumber(1), ByteOp::Return(1)]),
        Err(VmFault::ReturnFromTop)
    );
}

#[test]
fn return_missing_values_fault() {
    assert_eq!(exec(vec![ByteOp::Return(1)]), Err(VmFault::MissingReturnValues));
}

#[test]
fn call_and_return_with_locals() {
    assert_eq!(
        exec(vec![
            ByteOp::PushConstNumber(40),
            ByteOp::PushConstNumber(2),
            ByteOp::PushFunc(5),
            ByteOp::Call(2),
            ByteOp::Halt,
            ByteOp::LoadLocal(0),
            ByteOp::LoadLocal(1),
            ByteOp::Add,
            ByteOp::Return(1),
        ]),
        Ok((Some(Value::Number(42)), vec![Obj::Nil]))
    );
}

#[test]
fn cons_allocates_on_the_heap() {
    assert_eq!(
        exec(vec![ByteOp::PushConstNumber(1), ByteOp::PushNil, ByteOp::MkCons, ByteOp::Halt]),
        Ok((
            Some(Value::Obj(1)),
            vec![Obj::Nil, Obj::Cons(Value::Number(1), Value::Obj(0))]
        ))
    );
}

#[test]
fn expect_number_helper() {
    assert_eq!(Value::Number(3).expect_number(), Ok(3));
    assert_eq!(Value::True.expect_number(), Err(VmFault::NotNumber));
}

#[test]
fn expect_bool_helper() {
    assert_eq!(Value::True.expect_bool(), Ok(true));
    assert_eq!(Value::False.expect_bool(), Ok(false));
    assert_eq!(Value::Number(0).expect_bool(), Err(VmFault::NotBool));
}

#[test]
fn expect_ref_helper() {
    assert_eq!(Value::Obj(2).expect_ref(), Ok(2));
    assert_eq!(Value::Number(2).expect_ref(), Err(VmFault::NotReference));
}

#[test]
fn expect_func_helper() {
    assert_eq!(Value::Function(4).expect_func(), Ok(4));
    assert_eq!(Value::Obj(4).expect_func(), Err(VmFault::NotFunction));
}
