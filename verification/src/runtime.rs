//! Runtime data model: tagged values, heap cells, bytecode instructions,
//! and the virtual machine that executes a patched program.

use vstd::prelude::*;

verus! {

/// A tagged runtime value. Values are immutable and copied on every
/// stack or locals move.
#[derive(Debug, PartialEq, Eq, Structural, Clone, Copy)]
pub enum Value {
    /// A signed 64-bit integer.
    Number(i64),
    /// The boolean truth value.
    True,
    /// The boolean false value.
    False,
    /// A function value carrying its entry program counter.
    Function(usize),
    /// A reference into the heap, by cell index.
    Obj(usize),
}

/// A heap cell: either the nil sentinel or a cons pair.
#[derive(Debug, PartialEq, Eq, Structural, Clone, Copy)]
pub enum Obj {
    /// The canonical empty-list sentinel, always present at heap index 0.
    Nil,
    /// One list node holding a left and a right value.
    Cons(Value, Value),
}

/// One bytecode instruction. Jump targets are symbolic label ids before
/// patching and absolute instruction positions afterwards.
#[derive(Debug, PartialEq, Eq, Structural, Clone, Copy)]
pub enum ByteOp {
    /// Stop execution immediately.
    Halt,
    /// Push a number literal.
    PushConstNumber(i64),
    /// Pop two numbers, push their sum.
    Add,
    /// Pop two numbers, push their difference.
    Sub,
    /// Pop two numbers, push the boolean result of `left < right`.
    Less,
    /// Pop one value and append it to the current frame's locals.
    AddLocal,
    /// Push a copy of the local slot at the given position.
    LoadLocal(usize),
    /// Push the boolean truth value.
    PushTrue,
    /// Push the boolean false value.
    PushFalse,
    /// A label marker; only meaningful before patching, a fault at runtime.
    Label(usize),
    /// Pop a boolean; if false, jump to the target.
    BrFalse(usize),
    /// Jump unconditionally to the target.
    Jump(usize),
    /// Push a reference to the nil sentinel at heap index 0.
    PushNil,
    /// Pop right then left, append a cons cell, push a reference to it.
    MkCons,
    /// Push a function value with the given entry position.
    PushFunc(usize),
    /// Pop the callee, move the given number of arguments into a new frame.
    Call(usize),
    /// Pop the given number of values, discard the frame, push them for
    /// the caller, and resume at the frame's return address.
    Return(usize),
}

/// A fault raised by the virtual machine; every fault is fatal.
#[derive(Debug, PartialEq, Eq, Structural, Clone, Copy)]
pub enum VmFault {
    /// An operand was needed but the operand stack was empty.
    StackUnderflow,
    /// An arithmetic or comparison operand was not a number.
    NotNumber,
    /// The operand of a conditional branch was not a boolean.
    NotBool,
    /// The callee of a call was not a function value.
    NotFunction,
    /// A value expected to be a heap reference was not one.
    NotReference,
    /// A load referred to a local slot that does not exist.
    MissingLocal,
    /// A call asked for more arguments than the stack holds.
    MissingArguments,
    /// A return asked for more values than the stack holds.
    MissingReturnValues,
    /// A return executed in the outermost frame.
    ReturnFromTop,
    /// An unpatched label marker was reached at runtime.
    UnpatchedLabel,
    /// An addition or subtraction left the 64-bit signed range.
    Overflow,
    /// The machine executed its whole step budget without ending; the run
    /// is abandoned rather than continued without bound.
    StepLimit,
}

/// A linear bytecode program.
pub struct Program {
    /// The instruction stream, executed from position 0.
    pub code: Vec<ByteOp>,
}

/// The outcome of a successful run: the final value, if any, and the
/// heap built during execution.
#[derive(Debug)]
pub struct ProgramResult {
    /// The top of the final frame's operand stack, or `None` if empty.
    pub result: Option<Value>,
    /// Every heap cell, in allocation order, starting with the nil sentinel.
    pub heap: Vec<Obj>,
}

/// The ghost image of one call frame.
#[verifier::ext_equal]
pub ghost struct GFrame {
    /// The program counter to resume at when this frame returns.
    pub ret: Option<int>,
    /// The operand stack, top at the end.
    pub stack: Seq<Value>,
    /// The local slots, indexed by position.
    pub locals: Seq<Value>,
}

/// The ghost image of the whole machine: program counter, call stack
/// (the last frame is the current one), and heap.
#[verifier::ext_equal]
pub ghost struct MState {
    /// The program counter.
    pub pc: int,
    /// All live frames; the last one is executing.
    pub frames: Seq<GFrame>,
    /// Every allocated heap cell, in allocation order.
    pub heap: Seq<Obj>,
}

/// One step of the machine, as seen by the specification: still running,
/// finished in a state, or stopped by a fault.
#[verifier::ext_equal]
pub ghost enum Step {
    /// Execution continues from this state.
    Run(MState),
    /// Execution has ended in this state.
    Done(MState),
    /// Execution has ended with this fault.
    Fail(VmFault),
}

/// The machine state in which every run begins: program counter 0, one
/// empty frame with no return address, and a heap holding only nil.
pub open spec fn init_state() -> MState {
    MState {
        pc: 0,
        frames: seq![GFrame { ret: None, stack: Seq::empty(), locals: Seq::empty() }],
        heap: seq![Obj::Nil],
    }
}

/// The currently executing frame.
pub open spec fn cur_frame(s: MState) -> GFrame {
    s.frames.last()
}

/// Replaces the current frame.
pub open spec fn with_cur(s: MState, fr: GFrame) -> MState {
    MState { frames: s.frames.update(s.frames.len() - 1, fr), ..s }
}

/// Advances past the current instruction and pushes one value onto the
/// current frame's operand stack.
pub open spec fn push_step(s: MState, v: Value) -> Step {
    let fr = cur_frame(s);
    Step::Run(
        MState {
            pc: s.pc + 1,
            ..with_cur(s, GFrame { stack: fr.stack.push(v), ..fr })
        },
    )
}

/// Pops two numeric operands (right on top) and pushes the result of a
/// binary operation, faulting on a missing or non-numeric operand and,
/// for arithmetic, on a result outside the 64-bit signed range.
pub open spec fn arith_step(s: MState, op: ByteOp) -> Step {
    let fr = cur_frame(s);
    if fr.stack.len() < 1 {
        Step::Fail(VmFault::StackUnderflow)
    } else {
        match fr.stack.last() {
            Value::Number(b) => if fr.stack.len() < 2 {
                Step::Fail(VmFault::StackUnderflow)
            } else {
                match fr.stack[fr.stack.len() - 2] {
                    Value::Number(a) => {
                        let rest = fr.stack.drop_last().drop_last();
                        match op {
                            ByteOp::Add => if i64::MIN <= a + b <= i64::MAX {
                                push_after(s, rest, Value::Number((a + b) as i64))
                            } else {
                                Step::Fail(VmFault::Overflow)
                            },
                            ByteOp::Sub => if i64::MIN <= a - b <= i64::MAX {
                                push_after(s, rest, Value::Number((a - b) as i64))
                            } else {
                                Step::Fail(VmFault::Overflow)
                            },
                            _ => push_after(
                                s,
                                rest,
                                if a < b {
                                    Value::True
                                } else {
                                    Value::False
                                },
                            ),
                        }
                    },
                    _ => Step::Fail(VmFault::NotNumber),
                }
            },
            _ => Step::Fail(VmFault::NotNumber),
        }
    }
}

/// Advances past the current instruction, replacing the current frame's
/// operand stack by `rest` with `v` pushed on top.
pub open spec fn push_after(s: MState, rest: Seq<Value>, v: Value) -> Step {
    let fr = cur_frame(s);
    Step::Run(
        MState {
            pc: s.pc + 1,
            ..with_cur(s, GFrame { stack: rest.push(v), ..fr })
        },
    )
}

/// The effect of the single instruction at `s.pc`. Meaningful when the
/// program counter is in range and at least one frame is live.
pub open spec fn step1(code: Seq<ByteOp>, s: MState) -> Step
    recommends
        0 <= s.pc < code.len(),
        s.frames.len() >= 1,
{
    let op = code[s.pc];
    let fr = cur_frame(s);
    match op {
        ByteOp::Halt => Step::Done(MState { pc: s.pc + 1, ..s }),
        ByteOp::Label(_) => Step::Fail(VmFault::UnpatchedLabel),
        ByteOp::PushConstNumber(n) => push_step(s, Value::Number(n)),
        ByteOp::PushTrue => push_step(s, Value::True),
        ByteOp::PushFalse => push_step(s, Value::False),
        ByteOp::PushNil => push_step(s, Value::Obj(0)),
        ByteOp::PushFunc(f) => push_step(s, Value::Function(f)),
        ByteOp::Add => arith_step(s, ByteOp::Add),
        ByteOp::Sub => arith_step(s, ByteOp::Sub),
        ByteOp::Less => arith_step(s, ByteOp::Less),
        ByteOp::AddLocal => if fr.stack.len() < 1 {
            Step::Fail(VmFault::StackUnderflow)
        } else {
            Step::Run(
                MState {
                    pc: s.pc + 1,
                    ..with_cur(
                        s,
                        GFrame {
                            stack: fr.stack.drop_last(),
                            locals: fr.locals.push(fr.stack.last()),
                            ..fr
                        },
                    )
                },
            )
        },
        ByteOp::LoadLocal(pos) => if pos < fr.locals.len() {
            push_step(s, fr.locals[pos as int])
        } else {
            Step::Fail(VmFault::MissingLocal)
        },
        ByteOp::BrFalse(loc) => if fr.stack.len() < 1 {
            Step::Fail(VmFault::StackUnderflow)
        } else {
            match fr.stack.last() {
                Value::True => Step::Run(
                    MState { pc: s.pc + 1, ..with_cur(s, GFrame { stack: fr.stack.drop_last(), ..fr }) },
                ),
                Value::False => Step::Run(
                    MState { pc: loc as int, ..with_cur(s, GFrame { stack: fr.stack.drop_last(), ..fr }) },
                ),
                _ => Step::Fail(VmFault::NotBool),
            }
        },
        ByteOp::Jump(loc) => Step::Run(MState { pc: loc as int, ..s }),
        ByteOp::MkCons => if fr.stack.len() < 2 {
            Step::Fail(VmFault::StackUnderflow)
        } else {
            let right = fr.stack.last();
            let left = fr.stack[fr.stack.len() - 2];
            let rest = fr.stack.drop_last().drop_last();
            Step::Run(
                MState {
                    pc: s.pc + 1,
                    frames: s.frames.update(
                        s.frames.len() - 1,
                        GFrame { stack: rest.push(Value::Obj(s.heap.len() as usize)), ..fr },
                    ),
                    heap: s.heap.push(Obj::Cons(left, right)),
                },
            )
        },
        ByteOp::Call(argc) => if fr.stack.len() < 1 {
            Step::Fail(VmFault::StackUnderflow)
        } else {
            match fr.stack.last() {
                Value::Function(entry) => {
                    let rest = fr.stack.drop_last();
                    if rest.len() < argc {
                        Step::Fail(VmFault::MissingArguments)
                    } else {
                        let args = rest.subrange(rest.len() - argc, rest.len() as int);
                        let kept = GFrame { stack: rest.take(rest.len() - argc), ..fr };
                        let callee = GFrame {
                            ret: Some(s.pc + 1),
                            stack: Seq::empty(),
                            locals: args,
                        };
                        Step::Run(
                            MState {
                                pc: entry as int,
                                frames: s.frames.update(s.frames.len() - 1, kept).push(callee),
                                heap: s.heap,
                            },
                        )
                    }
                },
                _ => Step::Fail(VmFault::NotFunction),
            }
        },
        ByteOp::Return(retc) => if fr.stack.len() < retc {
            Step::Fail(VmFault::MissingReturnValues)
        } else if s.frames.len() < 2 {
            Step::Fail(VmFault::ReturnFromTop)
        } else {
            match fr.ret {
                None => Step::Fail(VmFault::ReturnFromTop),
                Some(rpc) => {
                    let vals = fr.stack.subrange(fr.stack.len() - retc, fr.stack.len() as int);
                    let caller = s.frames[s.frames.len() - 2];
                    Step::Run(
                        MState {
                            pc: rpc,
                            frames: s.frames.take(s.frames.len() - 2).push(
                                GFrame { stack: caller.stack + vals, ..caller },
                            ),
                            heap: s.heap,
                        },
                    )
                },
            }
        },
    }
}

/// Advances a step outcome once: a running state whose program counter has
/// run past the end of the stream is done; otherwise its next instruction
/// executes; finished and faulted outcomes stay as they are.
pub open spec fn stepped(code: Seq<ByteOp>, st: Step) -> Step {
    match st {
        Step::Run(s) => if 0 <= s.pc < code.len() {
            step1(code, s)
        } else {
            Step::Done(s)
        },
        _ => st,
    }
}

/// The outcome after `n` single-instruction advances from `st`.
pub open spec fn stepn(code: Seq<ByteOp>, st: Step, n: nat) -> Step
    decreases n,
{
    if n == 0 {
        st
    } else {
        stepped(code, stepn(code, st, (n - 1) as nat))
    }
}

/// The final value a run reports from an ending state: the top of the
/// current frame's operand stack, or no value when that stack is empty.
pub open spec fn final_result(s: MState) -> Option<Value> {
    if cur_frame(s).stack.len() > 0 {
        Some(cur_frame(s).stack.last())
    } else {
        None
    }
}

impl Value {
    /// Returns the number this value holds, or a fault if it is not one.
    pub fn expect_number(self) -> (r: Result<i64, VmFault>)
        ensures
            r == (match self {
                Value::Number(i) => Result::<i64, VmFault>::Ok(i),
                _ => Result::<i64, VmFault>::Err(VmFault::NotNumber),
            }),
    {
        match self {
            Value::Number(i) => Ok(i),
            _ => Err(VmFault::NotNumber),
        }
    }

    /// Returns the boolean this value holds, or a fault if it is not one.
    pub fn expect_bool(self) -> (r: Result<bool, VmFault>)
        ensures
            r == (match self {
                Value::True => Result::<bool, VmFault>::Ok(true),
                Value::False => Result::<bool, VmFault>::Ok(false),
                _ => Result::<bool, VmFault>::Err(VmFault::NotBool),
            }),
    {
        match self {
            Value::True => Ok(true),
            Value::False => Ok(false),
            _ => Err(VmFault::NotBool),
        }
    }

    /// Returns the heap index this reference holds, or a fault.
    pub fn expect_ref(self) -> (r: Result<usize, VmFault>)
        ensures
            r == (match self {
                Value::Obj(loc) => Result::<usize, VmFault>::Ok(loc),
                _ => Result::<usize, VmFault>::Err(VmFault::NotReference),
            }),
    {
        match self {
            Value::Obj(loc) => Ok(loc),
            _ => Err(VmFault::NotReference),
        }
    }

    /// Returns the entry position this function value holds, or a fault.
    pub fn expect_func(self) -> (r: Result<usize, VmFault>)
        ensures
            r == (match self {
                Value::Function(loc) => Result::<usize, VmFault>::Ok(loc),
                _ => Result::<usize, VmFault>::Err(VmFault::NotFunction),
            }),
    {
        match self {
            Value::Function(loc) => Ok(loc),
            _ => Err(VmFault::NotFunction),
        }
    }
}

/// One call frame of the running machine.
struct Frame {
    return_pc: Option<usize>,
    stack: Vec<Value>,
    locals: Vec<Value>,
}

impl Frame {
    /// The ghost image of this frame.
    pub closed spec fn view(&self) -> GFrame {
        GFrame {
            ret: match self.return_pc {
                Some(p) => Some(p as int),
                None => None,
            },
            stack: self.stack@,
            locals: self.locals@,
        }
    }
}

/// The ghost image of the machine's concrete state: the suspended frames,
/// the current frame, the program counter and the heap.
spec fn abs_state(pc: usize, frames: Seq<Frame>, frame: Frame, heap: Seq<Obj>) -> MState {
    MState {
        pc: pc as int,
        frames: frames.map_values(|f: Frame| f@).push(frame@),
        heap: heap,
    }
}

/// Executes a patched program from an empty initial frame and a heap
/// holding only the nil sentinel.
///
/// On success the returned result and heap are exactly those of the unique
/// ending state that iterating the single-step semantics reaches; on a
/// fault, iterating the semantics reaches exactly that fault. A run that
/// is still going after `usize::MAX` single steps is abandoned with
/// [`VmFault::StepLimit`].
pub fn run(program: Program) -> (r: Result<ProgramResult, VmFault>)
    ensures
        match r {
            Ok(pr) => exists|n: nat|
                #![trigger stepn(program.code@, Step::Run(init_state()), n)]
                (stepn(program.code@, Step::Run(init_state()), n) matches Step::Done(s)
                    && pr.result == final_result(s) && pr.heap@ == s.heap),
            Err(f) => if f == VmFault::StepLimit {
                stepn(program.code@, Step::Run(init_state()), usize::MAX as nat) is Run
            } else {
                exists|n: nat|
                    #![trigger stepn(program.code@, Step::Run(init_state()), n)]
                    stepn(program.code@, Step::Run(init_state()), n) == Step::Fail(f)
            },
        },
{
    let code = &program.code;
    let mut pc: usize = 0;
    let mut frames: Vec<Frame> = Vec::new();
    let mut frame = Frame { return_pc: None, stack: Vec::new(), locals: Vec::new() };
    let mut heap: Vec<Obj> = Vec::new();
    heap.push(Obj::Nil);
    let mut fuel: usize = usize::MAX;
    let ghost mut n: nat = 0nat;
    proof {
        assert(abs_state(pc, frames@, frame, heap@) =~~= init_state());
    }
    loop
        invariant
            code@ == program.code@,
            n + fuel == usize::MAX,
            stepn(code@, Step::Run(init_state()), n) == Step::Run(
                abs_state(pc, frames@, frame, heap@),
            ),
        decreases fuel,
    {
        if fuel == 0 {
            proof {
                assert(n == usize::MAX as nat);
                assert(stepn(program.code@, Step::Run(init_state()), usize::MAX as nat) is Run);
            }
            return Err(VmFault::StepLimit);
        }
        fuel = fuel - 1;
        let ghost pre = abs_state(pc, frames@, frame, heap@);
        if pc >= code.len() {
            proof {
                n = n + 1;
                assert(stepn(code@, Step::Run(init_state()), n) == Step::Done(pre));
            }
            let result = if frame.stack.len() > 0 {
                Some(frame.stack[frame.stack.len() - 1])
            } else {
                None
            };
            proof {
                assert(cur_frame(pre) == frame@);
                assert(result == final_result(pre));
            }
            return Ok(ProgramResult { result, heap });
        }
        let op = code[pc];
        pc = pc + 1;
        match op {
            ByteOp::Halt => {
                proof {
                    n = n + 1;
                    assert(step1(code@, pre) == Step::Done(MState { pc: pc as int, ..pre }));
                    assert(abs_state(pc, frames@, frame, heap@) =~~= MState {
                        pc: pc as int,
                        ..pre
                    });
                }
                let result = if frame.stack.len() > 0 {
                    Some(frame.stack[frame.stack.len() - 1])
                } else {
                    None
                };
                proof {
                    let ghost halted = MState { pc: pc as int, ..pre };
                    assert(stepn(code@, Step::Run(init_state()), n) == Step::Done(halted));
                    assert(cur_frame(halted) == frame@);
                    assert(result == final_result(halted));
                }
                return Ok(ProgramResult { result, heap });
            },
            ByteOp::Label(_) => {
                proof {
                    n = n + 1;
                    assert(stepn(code@, Step::Run(init_state()), n)
                        == Step::Fail(VmFault::UnpatchedLabel));
                }
                return Err(VmFault::UnpatchedLabel);
            },
            ByteOp::PushConstNumber(number) => {
                frame.stack.push(Value::Number(number));
                proof {
                    n = n + 1;
                    assert(step1(code@, pre) == push_step(pre, Value::Number(number)));
                    assert(push_step(pre, Value::Number(number)) matches Step::Run(s2)
                        && s2 =~~= abs_state(pc, frames@, frame, heap@));
                }
            },
            ByteOp::PushTrue => {
                frame.stack.push(Value::True);
                proof {
                    n = n + 1;
                    assert(push_step(pre, Value::True) matches Step::Run(s2)
                        && s2 =~~= abs_state(pc, frames@, frame, heap@));
                }
            },
            ByteOp::PushFalse => {
                frame.stack.push(Value::False);
                proof {
                    n = n + 1;
                    assert(push_step(pre, Value::False) matches Step::Run(s2)
                        && s2 =~~= abs_state(pc, frames@, frame, heap@));
                }
            },
            ByteOp::PushNil => {
                frame.stack.push(Value::Obj(0));
                proof {
                    n = n + 1;
                    assert(push_step(pre, Value::Obj(0)) matches Step::Run(s2)
                        && s2 =~~= abs_state(pc, frames@, frame, heap@));
                }
            },
            ByteOp::PushFunc(func) => {
                frame.stack.push(Value::Function(func));
                proof {
                    n = n + 1;
                    assert(push_step(pre, Value::Function(func)) matches Step::Run(s2)
                        && s2 =~~= abs_state(pc, frames@, frame, heap@));
                }
            },
            ByteOp::Add | ByteOp::Sub | ByteOp::Less => {
                let b_val = match frame.stack.pop() {
                    Some(v) => v,
                    None => {
                        proof {
                            n = n + 1;
                            assert(stepn(code@, Step::Run(init_state()), n)
                                == Step::Fail(VmFault::StackUnderflow));
                        }
                        return Err(VmFault::StackUnderflow);
                    },
                };
                let b = match b_val.expect_number() {
                    Ok(i) => i,
                    Err(f) => {
                        proof {
                            n = n + 1;
                            assert(stepn(code@, Step::Run(init_state()), n)
                                == Step::Fail(f));
                        }
                        return Err(f);
                    },
                };
                let a_val = match frame.stack.pop() {
                    Some(v) => v,
                    None => {
                        proof {
                            n = n + 1;
                            assert(stepn(code@, Step::Run(init_state()), n)
                                == Step::Fail(VmFault::StackUnderflow));
                        }
                        return Err(VmFault::StackUnderflow);
                    },
                };
                let a = match a_val.expect_number() {
                    Ok(i) => i,
                    Err(f) => {
                        proof {
                            n = n + 1;
                            assert(stepn(code@, Step::Run(init_state()), n)
                                == Step::Fail(f));
                        }
                        return Err(f);
                    },
                };
                let pushed: Value = match op {
                    ByteOp::Add => {
                        match a.checked_add(b) {
                            Some(c) => Value::Number(c),
                            None => {
                                proof {
                                    n = n + 1;
                                    assert(stepn(code@, Step::Run(init_state()), n)
                                        == Step::Fail(VmFault::Overflow));
                                }
                                return Err(VmFault::Overflow);
                            },
                        }
                    },
                    ByteOp::Sub => {
                        match a.checked_sub(b) {
                            Some(c) => Value::Number(c),
                            None => {
                                proof {
                                    n = n + 1;
                                    assert(stepn(code@, Step::Run(init_state()), n)
                                        == Step::Fail(VmFault::Overflow));
                                }
                                return Err(VmFault::Overflow);
                            },
                        }
                    },
                    _ => {
                        if a < b {
                            Value::True
                        } else {
                            Value::False
                        }
                    },
                };
                frame.stack.push(pushed);
                proof {
                    n = n + 1;
                    assert(step1(code@, pre) == arith_step(pre, op));
                    assert(arith_step(pre, op) matches Step::Run(s2)
                        && s2 =~~= abs_state(pc, frames@, frame, heap@));
                }
            },
            ByteOp::AddLocal => {
                let value = match frame.stack.pop() {
                    Some(v) => v,
                    None => {
                        proof {
                            n = n + 1;
                            assert(stepn(code@, Step::Run(init_state()), n)
                                == Step::Fail(VmFault::StackUnderflow));
                        }
                        return Err(VmFault::StackUnderflow);
                    },
                };
                frame.locals.push(value);
                proof {
                    n = n + 1;
                    assert(step1(code@, pre) matches Step::Run(s2)
                        && s2 =~~= abs_state(pc, frames@, frame, heap@));
                }
            },
            ByteOp::LoadLocal(pos) => {
                if pos >= frame.locals.len() {
                    proof {
                        n = n + 1;
                        assert(stepn(code@, Step::Run(init_state()), n)
                            == Step::Fail(VmFault::MissingLocal));
                    }
                    return Err(VmFault::MissingLocal);
                }
                let value = frame.locals[pos];
                frame.stack.push(value);
                proof {
                    n = n + 1;
                    assert(push_step(pre, value) matches Step::Run(s2)
                        && s2 =~~= abs_state(pc, frames@, frame, heap@));
                }
            },
            ByteOp::BrFalse(loc) => {
                let cond_val = match frame.stack.pop() {
                    Some(v) => v,
                    None => {
                        proof {
                            n = n + 1;
                            assert(stepn(code@, Step::Run(init_state()), n)
                                == Step::Fail(VmFault::StackUnderflow));
                        }
                        return Err(VmFault::StackUnderflow);
                    },
                };
                let cond = match cond_val.expect_bool() {
                    Ok(bv) => bv,
                    Err(f) => {
                        proof {
                            n = n + 1;
                            assert(stepn(code@, Step::Run(init_state()), n)
                                == Step::Fail(f));
                        }
                        return Err(f);
                    },
                };
                if !cond {
                    pc = loc;
                }
                proof {
                    n = n + 1;
                    assert(step1(code@, pre) matches Step::Run(s2)
                        && s2 =~~= abs_state(pc, frames@, frame, heap@));
                }
            },
            ByteOp::Jump(loc) => {
                pc = loc;
                proof {
                    n = n + 1;
                    assert(step1(code@, pre) matches Step::Run(s2)
                        && s2 =~~= abs_state(pc, frames@, frame, heap@));
                }
            },
            ByteOp::MkCons => {
                let right = match frame.stack.pop() {
                    Some(v) => v,
                    None => {
                        proof {
                            n = n + 1;
                            assert(stepn(code@, Step::Run(init_state()), n)
                                == Step::Fail(VmFault::StackUnderflow));
                        }
                        return Err(VmFault::StackUnderflow);
                    },
                };
                let left = match frame.stack.pop() {
                    Some(v) => v,
                    None => {
                        proof {
                            n = n + 1;
                            assert(stepn(code@, Step::Run(init_state()), n)
                                == Step::Fail(VmFault::StackUnderflow));
                        }
                        return Err(VmFault::StackUnderflow);
                    },
                };
                let loc = heap.len();
                heap.push(Obj::Cons(left, right));
                frame.stack.push(Value::Obj(loc));
                proof {
                    n = n + 1;
                    assert(step1(code@, pre) matches Step::Run(s2)
                        && s2 =~~= abs_state(pc, frames@, frame, heap@));
                }
            },
            ByteOp::Call(argc) => {
                let callee = match frame.stack.pop() {
                    Some(v) => v,
                    None => {
                        proof {
                            n = n + 1;
                            assert(stepn(code@, Step::Run(init_state()), n)
                                == Step::Fail(VmFault::StackUnderflow));
                        }
                        return Err(VmFault::StackUnderflow);
                    },
                };
                let entry = match callee.expect_func() {
                    Ok(e) => e,
                    Err(f) => {
                        proof {
                            n = n + 1;
                            assert(stepn(code@, Step::Run(init_state()), n)
                                == Step::Fail(f));
                        }
                        return Err(f);
                    },
                };
                if argc > frame.stack.len() {
                    proof {
                        n = n + 1;
                        assert(stepn(code@, Step::Run(init_state()), n)
                            == Step::Fail(VmFault::MissingArguments));
                    }
                    return Err(VmFault::MissingArguments);
                }
                let at = frame.stack.len() - argc;
                let args = frame.stack.split_off(at);
                let next_frame = Frame { return_pc: Some(pc), stack: Vec::new(), locals: args };
                frames.push(frame);
                frame = next_frame;
                pc = entry;
                proof {
                    n = n + 1;
                    assert(step1(code@, pre) matches Step::Run(s2)
                        && s2 =~~= abs_state(pc, frames@, frame, heap@));
                }
            },
            ByteOp::Return(retc) => {
                if retc > frame.stack.len() {
                    proof {
                        n = n + 1;
                        assert(stepn(code@, Step::Run(init_state()), n)
                            == Step::Fail(VmFault::MissingReturnValues));
                    }
                    return Err(VmFault::MissingReturnValues);
                }
                if frames.len() == 0 {
                    proof {
                        n = n + 1;
                        assert(stepn(code@, Step::Run(init_state()), n)
                            == Step::Fail(VmFault::ReturnFromTop));
                    }
                    return Err(VmFault::ReturnFromTop);
                }
                let at = frame.stack.len() - retc;
                let values = frame.stack.split_off(at);
                let rpc = match frame.return_pc {
                    Some(p) => p,
                    None => {
                        proof {
                            n = n + 1;
                            assert(stepn(code@, Step::Run(init_state()), n)
                                == Step::Fail(VmFault::ReturnFromTop));
                        }
                        return Err(VmFault::ReturnFromTop);
                    },
                };
                frame = match frames.pop() {
                    Some(f) => f,
                    None => {
                        proof {
                            assert(false);
                        }
                        return Err(VmFault::ReturnFromTop);
                    },
                };
                pc = rpc;
                let ghost fr0 = frame@;
                let mut i: usize = 0;
                while i < values.len()
                    invariant
                        i <= values.len(),
                        frame@ == (GFrame {
                            stack: fr0.stack + values@.subrange(0, i as int),
                            ..fr0
                        }),
                    decreases values.len() - i,
                {
                    frame.stack.push(values[i]);
                    i = i + 1;
                    proof {
                        assert(frame.stack@ =~= fr0.stack + values@.subrange(0, i as int));
                    }
                }
                proof {
                    n = n + 1;
                    assert(values@.subrange(0, values@.len() as int) =~= values@);
                    assert(step1(code@, pre) matches Step::Run(s2)
                        && s2 =~~= abs_state(pc, frames@, frame, heap@));
                }
            },
        }
    }
}

} // verus!
