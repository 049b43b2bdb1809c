//! Code generation: lowers a resolved s-expression tree to a flat
//! bytecode stream with symbolic jump labels.
//!
//! Each function body is compiled by an independent nested emitter into
//! its own block, appended after the main block; the label counter is
//! shared by the whole unit so labels stay unique across blocks. A
//! top-level unit ends with an implicit halt; a function block ends with
//! an explicit one-value return.

use vstd::prelude::*;
use crate::parser::{SExp, Tree, view_trees, lemma_view_trees, ident_is};
use crate::runtime::{ByteOp, Program};
use crate::table::IdMap;

verus! {

/// A fault raised while generating code; the program's shape is not one
/// the emitter recognises, or a machine limit is hit.
#[derive(Debug, PartialEq, Eq, Structural, Clone, Copy)]
pub enum CodegenFault {
    /// A variable reference has no allocated local slot.
    UnboundVariable,
    /// An identifier or list has no recognised form.
    UnknownForm,
    /// A positional variable reference was required.
    ExpectedVar,
    /// A binding form was missing a required part.
    MissingPart,
    /// A list was required.
    ExpectedList,
    /// The label counter was exhausted.
    TooManyLabels,
    /// The local-slot counter was exhausted.
    TooManyLocals,
}

/// The ghost state of one emitter: the main stream, the side buffer of
/// compiled function blocks, the variable-to-slot table, the next free
/// slot, the enclosing function's self binding, and the label counter.
#[verifier::ext_equal]
pub ghost struct EmitState {
    /// The main instruction stream.
    pub code: Seq<ByteOp>,
    /// Compiled function blocks, appended after the main stream at the end.
    pub func_code: Seq<ByteOp>,
    /// Which local slot each position id is stored in.
    pub locals: Map<usize, usize>,
    /// The next unused local slot.
    pub next_local: usize,
    /// The enclosing function's own (position id, entry label), if any.
    pub func: Option<(usize, usize)>,
    /// The next unused label id, shared across the whole unit.
    pub next_label: usize,
}

/// The state a fresh top-level emitter starts in, with the label counter
/// at `next_label`.
pub open spec fn init_emit(next_label: usize) -> EmitState {
    EmitState {
        code: Seq::empty(),
        func_code: Seq::empty(),
        locals: Map::empty(),
        next_local: 0,
        func: None,
        next_label: next_label,
    }
}

/// Appends one instruction to the main stream.
pub open spec fn emit1(s: EmitState, op: ByteOp) -> EmitState {
    EmitState { code: s.code.push(op), ..s }
}

/// The variadic operator a list dispatches to, when its head is one of
/// the three operator keywords and it has at least two operands.
pub open spec fn chain_op(l: Seq<Tree>) -> Option<ByteOp> {
    if l.len() >= 3 {
        if l[0] == Tree::Ident("+"@) {
            Some(ByteOp::Add)
        } else if l[0] == Tree::Ident("-"@) {
            Some(ByteOp::Sub)
        } else if l[0] == Tree::Ident("<"@) {
            Some(ByteOp::Less)
        } else {
            None
        }
    } else {
        None
    }
}

/// A resolved named-function binding form:
/// `(let var (vars ...) fn_body in body)`.
pub open spec fn cg_fn_form(l: Seq<Tree>) -> bool {
    l.len() == 6 && l[0] == Tree::Ident("let"@) && l[1] is Var && l[2] is List
        && l[4] == Tree::Ident("in"@)
}

/// A resolved declaration-list binding form:
/// `(let ((var value) ...) in body)`.
pub open spec fn cg_let_form(l: Seq<Tree>) -> bool {
    l.len() == 4 && l[0] == Tree::Ident("let"@) && l[1] is List && l[2] == Tree::Ident("in"@)
}

/// A conditional form: `(if cond then else)`.
pub open spec fn cg_if_form(l: Seq<Tree>) -> bool {
    l.len() == 4 && l[0] == Tree::Ident("if"@)
}

/// A cons form: `(cons left right)`.
pub open spec fn cg_cons_form(l: Seq<Tree>) -> bool {
    l.len() == 3 && l[0] == Tree::Ident("cons"@)
}

/// Allocates one local slot, in order, for each parameter's position id;
/// every parameter must already be a variable reference.
pub open spec fn bind_args(
    locals: Map<usize, usize>,
    next_local: usize,
    args: Seq<Tree>,
) -> Option<(Map<usize, usize>, usize)>
    decreases args,
{
    if args.len() == 0 {
        Some((locals, next_local))
    } else {
        match args[0] {
            Tree::Var(id) => if next_local < usize::MAX {
                bind_args(locals.insert(id, next_local), (next_local + 1) as usize,
                    args.drop_first())
            } else {
                None
            },
            _ => None,
        }
    }
}

/// The code a whole unit compiles to from state `s`: the main stream,
/// an implicit halt when this emitter is the top level, then the
/// function blocks; paired with the final label counter.
pub open spec fn emit_unit(s: EmitState, t: Tree) -> Option<(Seq<ByteOp>, usize)>
    decreases t, 1int,
{
    match emit_tree(s, t) {
        Some(s2) => Some(
            (
                s2.code + (if s2.func is None {
                    seq![ByteOp::Halt]
                } else {
                    Seq::empty()
                }) + s2.func_code,
                s2.next_label,
            ),
        ),
        None => None,
    }
}

/// The effect of compiling one tree on the emitter state; nothing when
/// the tree's shape is not a recognised form, a variable has no slot,
/// or a counter is exhausted.
pub open spec fn emit_tree(s: EmitState, t: Tree) -> Option<EmitState>
    decreases t, 0int,
{
    match t {
        Tree::Num(v) => Some(emit1(s, ByteOp::PushConstNumber(v))),
        Tree::Ident(w) => if w == "true"@ {
            Some(emit1(s, ByteOp::PushTrue))
        } else if w == "false"@ {
            Some(emit1(s, ByteOp::PushFalse))
        } else {
            None
        },
        Tree::Var(pos) => {
            if (match s.func {
                Some(fi) => pos == fi.0,
                None => false,
            }) {
                Some(emit1(s, ByteOp::PushFunc(s.func->Some_0.1)))
            } else if s.locals.contains_key(pos) {
                Some(emit1(s, ByteOp::LoadLocal(s.locals[pos])))
            } else {
                None
            }
        },
        Tree::List(l) => if chain_op(l) is Some {
            emit_chain(s, chain_op(l)->Some_0, l)
        } else if cg_fn_form(l) {
            if s.next_label == usize::MAX {
                None
            } else {
                let label = s.next_label;
                match bind_args(Map::empty(), 0, l[2]->List_0) {
                    Some((m, nl)) => {
                        let nested = EmitState {
                            code: seq![ByteOp::Label(label)],
                            func_code: Seq::empty(),
                            locals: m,
                            next_local: nl,
                            func: Some((l[1]->Var_0, label)),
                            next_label: (label + 1) as usize,
                        };
                        match emit_unit(nested, l[3]) {
                            Some((fcode, nl2)) => {
                                let s1 = EmitState {
                                    func_code: s.func_code + fcode
                                        + seq![ByteOp::Return(1)],
                                    next_label: nl2,
                                    ..s
                                };
                                let s2 = emit1(
                                    emit1(s1, ByteOp::PushFunc(label)),
                                    ByteOp::AddLocal,
                                );
                                if s2.next_local == usize::MAX {
                                    None
                                } else {
                                    let s3 = EmitState {
                                        locals: s2.locals.insert(
                                            l[1]->Var_0,
                                            s2.next_local,
                                        ),
                                        next_local: (s2.next_local + 1) as usize,
                                        ..s2
                                    };
                                    emit_tree(s3, l[5])
                                }
                            },
                            None => None,
                        }
                    },
                    None => None,
                }
            }
        } else if cg_let_form(l) {
            match emit_decls(s, l[1]->List_0) {
                Some(s2) => emit_tree(s2, l[3]),
                None => None,
            }
        } else if cg_if_form(l) {
            match emit_tree(s, l[1]) {
                Some(s1) => if s1.next_label == usize::MAX {
                    None
                } else if s1.next_label + 1 == usize::MAX {
                    None
                } else {
                    let fals = s1.next_label;
                    let merge = (fals + 1) as usize;
                    let s2 = emit1(
                        EmitState { next_label: (fals + 2) as usize, ..s1 },
                        ByteOp::BrFalse(fals),
                    );
                    match emit_tree(s2, l[2]) {
                        Some(s3) => {
                            let s4 = emit1(
                                emit1(s3, ByteOp::Jump(merge)),
                                ByteOp::Label(fals),
                            );
                            match emit_tree(s4, l[3]) {
                                Some(s5) => Some(emit1(s5, ByteOp::Label(merge))),
                                None => None,
                            }
                        },
                        None => None,
                    }
                },
                None => None,
            }
        } else if cg_cons_form(l) {
            match emit_tree(s, l[1]) {
                Some(s1) => match emit_tree(s1, l[2]) {
                    Some(s2) => Some(emit1(s2, ByteOp::MkCons)),
                    None => None,
                },
                None => None,
            }
        } else if l.len() >= 1 {
            match emit_args(s, l.drop_first()) {
                Some(s1) => match emit_tree(s1, l[0]) {
                    Some(s2) => Some(emit1(s2, ByteOp::Call((l.len() - 1) as usize))),
                    None => None,
                },
                None => None,
            }
        } else {
            Some(emit1(s, ByteOp::PushNil))
        },
    }
}

/// Compiles the first two operands of a variadic operator, the operator,
/// and then the remaining operands left-associatively.
pub open spec fn emit_chain(s: EmitState, op: ByteOp, l: Seq<Tree>) -> Option<EmitState>
    decreases l, 0int,
{
    if l.len() < 3 {
        None
    } else {
        match emit_tree(s, l[1]) {
            Some(s1) => match emit_tree(s1, l[2]) {
                Some(s2) => emit_rest(emit1(s2, op), op, l.skip(3)),
                None => None,
            },
            None => None,
        }
    }
}

/// Compiles each further operand followed by the operator.
pub open spec fn emit_rest(s: EmitState, op: ByteOp, rest: Seq<Tree>) -> Option<EmitState>
    decreases rest, 0int,
{
    if rest.len() == 0 {
        Some(s)
    } else {
        match emit_tree(s, rest[0]) {
            Some(s1) => emit_rest(emit1(s1, op), op, rest.drop_first()),
            None => None,
        }
    }
}

/// Compiles each declaration of a declaration-list `let`: its value,
/// then a bind of that value to the next free local slot.
pub open spec fn emit_decls(s: EmitState, decls: Seq<Tree>) -> Option<EmitState>
    decreases decls, 0int,
{
    if decls.len() == 0 {
        Some(s)
    } else {
        match decls[0] {
            Tree::List(p) => if p.len() >= 2 && p[0] is Var {
                match emit_tree(s, p[1]) {
                    Some(s1) => if s1.next_local == usize::MAX {
                        None
                    } else {
                        let s2 = EmitState {
                            locals: s1.locals.insert(p[0]->Var_0, s1.next_local),
                            next_local: (s1.next_local + 1) as usize,
                            ..emit1(s1, ByteOp::AddLocal)
                        };
                        emit_decls(s2, decls.drop_first())
                    },
                    None => None,
                }
            } else {
                None
            },
            _ => None,
        }
    }
}

/// Compiles each argument of a function application, left to right.
pub open spec fn emit_args(s: EmitState, items: Seq<Tree>) -> Option<EmitState>
    decreases items, 0int,
{
    if items.len() == 0 {
        Some(s)
    } else {
        match emit_tree(s, items[0]) {
            Some(s1) => emit_args(s1, items.drop_first()),
            None => None,
        }
    }
}

/// The bytecode a whole resolved unit compiles to, labels still symbolic.
pub open spec fn codegen_of(t: Tree) -> Option<Seq<ByteOp>> {
    match emit_unit(init_emit(0), t) {
        Some(p) => Some(p.0),
        None => None,
    }
}

/// Allocates one local slot, in order, for each position id of a list
/// that is already converted to plain ids.
pub open spec fn bind_ids(
    locals: Map<usize, usize>,
    next_local: usize,
    ids: Seq<usize>,
) -> Option<(Map<usize, usize>, usize)>
    decreases ids,
{
    if ids.len() == 0 {
        Some((locals, next_local))
    } else if next_local < usize::MAX {
        bind_ids(locals.insert(ids[0], next_local), (next_local + 1) as usize,
            ids.drop_first())
    } else {
        None
    }
}

/// Binding ids never fails while the slot counter has room for them.
proof fn lemma_bind_ids_total(locals: Map<usize, usize>, next_local: usize, ids: Seq<usize>)
    requires
        next_local + ids.len() <= usize::MAX,
    ensures
        bind_ids(locals, next_local, ids) is Some,
    decreases ids,
{
    if ids.len() > 0 {
        lemma_bind_ids_total(
            locals.insert(ids[0], next_local),
            (next_local + 1) as usize,
            ids.drop_first(),
        );
    }
}

/// Binding a parameter list whose every element is the variable
/// reference of the matching id binds exactly those ids.
proof fn lemma_bind_args_ids(
    locals: Map<usize, usize>,
    next_local: usize,
    args: Seq<Tree>,
    ids: Seq<usize>,
)
    requires
        args.len() == ids.len(),
        forall|i: int| 0 <= i < args.len() ==> #[trigger] args[i] == Tree::Var(ids[i]),
    ensures
        bind_args(locals, next_local, args) == bind_ids(locals, next_local, ids),
    decreases args,
{
    if args.len() > 0 {
        assert(args[0] == Tree::Var(ids[0]));
        if next_local < usize::MAX {
            lemma_bind_args_ids(
                locals.insert(ids[0], next_local),
                (next_local + 1) as usize,
                args.drop_first(),
                ids.drop_first(),
            );
        }
    }
}

/// Binding a parameter list fails when some parameter is no variable
/// reference, whatever came before it.
proof fn lemma_bind_args_none(
    locals: Map<usize, usize>,
    next_local: usize,
    args: Seq<Tree>,
    a: int,
)
    requires
        0 <= a < args.len(),
        forall|i: int| 0 <= i < a ==> #[trigger] args[i] is Var,
        !(args[a] is Var),
    ensures
        bind_args(locals, next_local, args) is None,
    decreases a,
{
    if a > 0 && next_local < usize::MAX {
        lemma_bind_args_none(
            locals.insert(args[0]->Var_0, next_local),
            (next_local + 1) as usize,
            args.drop_first(),
            a - 1,
        );
    }
}

/// The enclosing function's self binding: its position id and the label
/// of its entry point.
struct FnInfo {
    var: usize,
    label: usize,
}

/// One emitter: compiles one unit (the top level, or one function body)
/// into a bytecode stream with symbolic labels.
pub struct Codegen {
    code: Vec<ByteOp>,
    func_code: Vec<ByteOp>,
    locals: IdMap,
    next_local: usize,
    func: Option<FnInfo>,
    next_label: usize,
}

impl Codegen {
    /// The ghost state of this emitter.
    pub closed spec fn view(&self) -> EmitState {
        EmitState {
            code: self.code@,
            func_code: self.func_code@,
            locals: self.locals@,
            next_local: self.next_local,
            func: match self.func {
                Some(fi) => Some((fi.var, fi.label)),
                None => None,
            },
            next_label: self.next_label,
        }
    }

    /// A fresh emitter whose label counter starts at `next_label`.
    fn seeded(next_label: usize) -> (r: Self)
        ensures
            r@ == init_emit(next_label),
    {
        let r = Codegen {
            code: Vec::new(),
            func_code: Vec::new(),
            locals: IdMap::new(),
            next_local: 0,
            func: None,
            next_label: next_label,
        };
        proof {
            assert(r@ =~~= init_emit(next_label));
        }
        r
    }
}

impl Default for Codegen {
    /// A fresh top-level emitter.
    fn default() -> (r: Self)
        ensures
            r@ == init_emit(0),
    {
        Codegen::seeded(0)
    }
}

impl Codegen {
    /// Marks this emitter as compiling the body of the function bound at
    /// `var`, and opens its block with the entry label marker.
    pub fn with_func(self, var: usize, label: usize) -> (r: Self)
        ensures
            r@ == (EmitState {
                code: self@.code.push(ByteOp::Label(label)),
                func: Some((var, label)),
                ..self@
            }),
    {
        let mut this = self;
        this.func = Some(FnInfo { var, label });
        this.emit(ByteOp::Label(label));
        this
    }

    /// Allocates the first local slots, in order, to the given position
    /// ids: the function's parameters.
    pub fn with_args(self, args: Vec<usize>) -> (r: Self)
        requires
            self@.next_local + args@.len() <= usize::MAX,
        ensures
            bind_ids(self@.locals, self@.next_local, args@) matches Some(b) && r@
                == (EmitState { locals: b.0, next_local: b.1, ..self@ }),
    {
        proof {
            lemma_bind_ids_total(self@.locals, self@.next_local, args@);
        }
        let mut this = self;
        let ghost full = bind_ids(this@.locals, this@.next_local, args@);
        let mut k: usize = 0;
        proof {
            assert(args@.skip(0) =~= args@);
        }
        while k < args.len()
            invariant
                k <= args@.len(),
                this@.next_local + (args@.len() - k) <= usize::MAX,
                this@.code == self@.code,
                this@.func_code == self@.func_code,
                this@.func == self@.func,
                this@.next_label == self@.next_label,
                full == bind_ids(this@.locals, this@.next_local, args@.skip(k as int)),
            decreases args@.len() - k,
        {
            proof {
                assert(args@.skip(k as int)[0] == args@[k as int]);
                assert(args@.skip(k as int).drop_first() =~= args@.skip(k + 1));
            }
            let id = args[k];
            let slot = this.next_local;
            this.next_local = this.next_local + 1;
            this.locals.insert(id, slot);
            k = k + 1;
        }
        proof {
            assert(args@.skip(args@.len() as int) =~= Seq::<usize>::empty());
            assert(this@ =~~= (EmitState {
                locals: full->Some_0.0,
                next_local: full->Some_0.1,
                ..self@
            }));
        }
        this
    }

    /// Appends one instruction to the main stream.
    fn emit(&mut self, byte: ByteOp)
        ensures
            final(self)@ == emit1(old(self)@, byte),
    {
        self.code.push(byte);
        proof {
            assert(self@ =~~= emit1(old(self)@, byte));
        }
    }

    /// Draws the next label id; labels are unique across the unit.
    fn next_label_fresh(&mut self) -> (r: Result<usize, CodegenFault>)
        ensures
            match r {
                Ok(lab) => old(self)@.next_label < usize::MAX && lab == old(self)@.next_label
                    && final(self)@ == (EmitState {
                        next_label: (old(self)@.next_label + 1) as usize,
                        ..old(self)@
                    }),
                Err(_) => old(self)@.next_label == usize::MAX && final(self)@ == old(self)@,
            },
    {
        if self.next_label == usize::MAX {
            return Err(CodegenFault::TooManyLabels);
        }
        let lab = self.next_label;
        self.next_label = self.next_label + 1;
        proof {
            assert(self@ =~~= (EmitState {
                next_label: (old(self)@.next_label + 1) as usize,
                ..old(self)@
            }));
        }
        Ok(lab)
    }

    /// Compiles one unit from this state: the main stream, an implicit
    /// halt at the top level only, then the compiled function blocks.
    fn compile_unit(self, sexp: &SExp) -> (r: Result<(Vec<ByteOp>, usize), CodegenFault>)
        ensures
            match emit_unit(self@, sexp@) {
                Some(p) => r matches Ok(q) && q.0@ == p.0 && q.1 == p.1,
                None => r is Err,
            },
        decreases sexp, 2int,
    {
        let mut this = self;
        match this.visit(sexp) {
            Ok(()) => {},
            Err(f) => {
                return Err(f);
            },
        }
        let ghost s2 = this@;
        if this.func.is_none() {
            this.code.push(ByteOp::Halt);
        }
        let ghost base = this.code@;
        proof {
            if s2.func is None {
                assert(base =~= s2.code + seq![ByteOp::Halt]);
            } else {
                assert(base =~= s2.code + Seq::<ByteOp>::empty());
            }
        }
        let mut i: usize = 0;
        while i < this.func_code.len()
            invariant
                i <= this.func_code@.len(),
                this.func_code@ == s2.func_code,
                this.next_label == s2.next_label,
                this.code@ == base + s2.func_code.take(i as int),
            decreases this.func_code@.len() - i,
        {
            let op = this.func_code[i];
            this.code.push(op);
            proof {
                assert(this.code@ =~= base + s2.func_code.take(i + 1));
            }
            i = i + 1;
        }
        proof {
            assert(s2.func_code.take(s2.func_code.len() as int) =~= s2.func_code);
            assert(this.code@ =~= s2.code + (if s2.func is None {
                seq![ByteOp::Halt]
            } else {
                Seq::<ByteOp>::empty()
            }) + s2.func_code);
        }
        Ok((this.code, this.next_label))
    }

    /// Compiles a whole resolved unit into a program with symbolic
    /// labels, exactly as [`emit_unit`] says from this emitter's state.
    pub fn run(self, sexp: &SExp) -> (r: Result<Program, CodegenFault>)
        ensures
            match emit_unit(self@, sexp@) {
                Some(p) => r matches Ok(prog) && prog.code@ == p.0,
                None => r is Err,
            },
    {
        match self.compile_unit(sexp) {
            Ok((code, _)) => Ok(Program { code }),
            Err(f) => Err(f),
        }
    }

    /// Compiles one subtree, exactly as [`emit_tree`] says.
    fn visit(&mut self, sexp: &SExp) -> (r: Result<(), CodegenFault>)
        ensures
            match emit_tree(old(self)@, sexp@) {
                Some(s2) => r is Ok && final(self)@ == s2,
                None => r is Err,
            },
        decreases sexp, 1int,
    {
        match sexp {
            SExp::ConstNumber(v) => {
                self.emit(ByteOp::PushConstNumber(*v));
                Ok(())
            },
            SExp::Ident(_) => {
                if ident_is(sexp, "true") {
                    self.emit(ByteOp::PushTrue);
                    Ok(())
                } else if ident_is(sexp, "false") {
                    self.emit(ByteOp::PushFalse);
                    Ok(())
                } else {
                    Err(CodegenFault::UnknownForm)
                }
            },
            SExp::Var(pos) => {
                let fninfo: Option<(usize, usize)> = match &self.func {
                    Some(fi) => Some((fi.var, fi.label)),
                    None => None,
                };
                let selfref = match fninfo {
                    Some(p) => p.0 == *pos,
                    None => false,
                };
                if selfref {
                    let fl = match fninfo {
                        Some(p) => p.1,
                        None => {
                            proof {
                                assert(false);
                            }
                            0
                        },
                    };
                    self.emit(ByteOp::PushFunc(fl));
                    Ok(())
                } else {
                    match self.locals.get(*pos) {
                        Some(slot) => {
                            self.emit(ByteOp::LoadLocal(slot));
                            Ok(())
                        },
                        None => Err(CodegenFault::UnboundVariable),
                    }
                }
            },
            SExp::List(l) => {
                let n = l.len();
                let plus = n >= 3 && ident_is(&l[0], "+");
                let minus = n >= 3 && ident_is(&l[0], "-");
                let less = n >= 3 && ident_is(&l[0], "<");
                let fnform = n == 6 && ident_is(&l[0], "let")
                    && matches!(&l[1], SExp::Var(_)) && matches!(&l[2], SExp::List(_))
                    && ident_is(&l[4], "in");
                let letform = n == 4 && ident_is(&l[0], "let")
                    && matches!(&l[1], SExp::List(_)) && ident_is(&l[2], "in");
                let ifform = n == 4 && ident_is(&l[0], "if");
                let consform = n == 3 && ident_is(&l[0], "cons");
                proof {
                    broadcast use lemma_view_trees;

                    let lv = view_trees(l@);
                    assert(chain_op(lv) == (if plus {
                        Some(ByteOp::Add)
                    } else if minus {
                        Some(ByteOp::Sub)
                    } else if less {
                        Some(ByteOp::Less)
                    } else {
                        None::<ByteOp>
                    }));
                    assert(fnform == cg_fn_form(lv));
                    assert(letform == cg_let_form(lv));
                    assert(ifform == cg_if_form(lv));
                    assert(consform == cg_cons_form(lv));
                }
                if plus {
                    self.binary_op(sexp, ByteOp::Add)
                } else if minus {
                    self.binary_op(sexp, ByteOp::Sub)
                } else if less {
                    self.binary_op(sexp, ByteOp::Less)
                } else if fnform {
                    self.visit_fn_let(sexp)
                } else if letform {
                    self.visit_let(sexp)
                } else if ifform {
                    self.visit_if(sexp)
                } else if consform {
                    self.visit_cons(sexp)
                } else if n >= 1 {
                    self.visit_app(sexp)
                } else {
                    proof {
                        assert(view_trees(l@) =~= Seq::<Tree>::empty());
                    }
                    self.emit(ByteOp::PushNil);
                    Ok(())
                }
            },
        }
    }

    /// Compiles a variadic operator form: the first two operands, the
    /// operator, then each further operand with the operator again.
    #[verifier::loop_isolation(false)]
    #[verifier::rlimit(60)]
    fn binary_op(&mut self, sexp: &SExp, op: ByteOp) -> (r: Result<(), CodegenFault>)
        requires
            sexp@ is List,
            chain_op(sexp@->List_0) == Some(op),
        ensures
            match emit_tree(old(self)@, sexp@) {
                Some(s2) => r is Ok && final(self)@ == s2,
                None => r is Err,
            },
        decreases sexp, 0int,
    {
        let l = match sexp {
            SExp::List(l) => l,
            _ => {
                proof {
                    assert(false);
                }
                return Err(CodegenFault::ExpectedList);
            },
        };
        let ghost lv = view_trees(l@);
        proof {
            broadcast use lemma_view_trees;

            assert(lv[1] == l@[1]@);
            assert(lv[2] == l@[2]@);
            assert(decreases_to!(*sexp => *l));
            assert(decreases_to!(*l => l@));
            assert(decreases_to!(*sexp => l@));
            assert(decreases_to!(l@ => l@[1]));
            assert(decreases_to!(l@ => l@[2]));
        }
        match self.visit(&l[1]) {
            Ok(()) => {},
            Err(f) => {
                return Err(f);
            },
        }
        match self.visit(&l[2]) {
            Ok(()) => {},
            Err(f) => {
                return Err(f);
            },
        }
        self.emit(op);
        let ghost full = emit_chain(old(self)@, op, lv);
        proof {
            assert(full == emit_rest(self@, op, lv.skip(3)));
        }
        let mut k: usize = 3;
        while k < l.len()
            invariant
                3 <= k <= l@.len(),
                full == emit_rest(self@, op, lv.skip(k as int)),
            decreases l@.len() - k,
        {
            proof {
                broadcast use lemma_view_trees;

                assert(lv.skip(k as int)[0] == lv[k as int]);
                assert(lv[k as int] == l@[k as int]@);
                assert(decreases_to!(l@ => l@[k as int]));
            }
            match self.visit(&l[k]) {
                Ok(()) => {},
                Err(f) => {
                    return Err(f);
                },
            }
            self.emit(op);
            proof {
                assert(lv.skip(k as int).drop_first() =~= lv.skip(k + 1));
            }
            k = k + 1;
        }
        proof {
            assert(lv.skip(l@.len() as int) =~= Seq::<Tree>::empty());
        }
        Ok(())
    }

    /// Compiles a named function binding: the body in a nested emitter
    /// seeded with the self binding and parameters, spliced into the
    /// side buffer with its one-value return, then the function value
    /// bound as a local and the continuation compiled.
    #[verifier::loop_isolation(false)]
    #[verifier::rlimit(80)]
    fn visit_fn_let(&mut self, sexp: &SExp) -> (r: Result<(), CodegenFault>)
        requires
            sexp@ is List,
            cg_fn_form(sexp@->List_0),
            chain_op(sexp@->List_0) is None,
        ensures
            match emit_tree(old(self)@, sexp@) {
                Some(s2) => r is Ok && final(self)@ == s2,
                None => r is Err,
            },
        decreases sexp, 0int,
    {
        let l = match sexp {
            SExp::List(l) => l,
            _ => {
                proof {
                    assert(false);
                }
                return Err(CodegenFault::ExpectedList);
            },
        };
        let ghost lv = view_trees(l@);
        proof {
            broadcast use lemma_view_trees;

            assert(lv[1] == l@[1]@);
            assert(lv[2] == l@[2]@);
            assert(lv[3] == l@[3]@);
            assert(lv[5] == l@[5]@);
        }
        let fvar = match &l[1] {
            SExp::Var(p) => *p,
            _ => {
                proof {
                    assert(false);
                }
                return Err(CodegenFault::ExpectedVar);
            },
        };
        let args: &Vec<SExp> = match &l[2] {
            SExp::List(a) => a,
            _ => {
                proof {
                    assert(false);
                }
                return Err(CodegenFault::ExpectedList);
            },
        };
        let ghost aview = view_trees(args@);
        proof {
            assert(lv[2]->List_0 == aview);
        }
        let label = match self.next_label_fresh() {
            Ok(lab) => lab,
            Err(f) => {
                return Err(f);
            },
        };
        let mut ids: Vec<usize> = Vec::new();
        let mut a: usize = 0;
        while a < args.len()
            invariant
                a <= args@.len(),
                ids@.len() == a,
                forall|i: int| 0 <= i < a ==> #[trigger] aview[i] == Tree::Var(ids@[i]),
            decreases args@.len() - a,
        {
            proof {
                broadcast use lemma_view_trees;

                assert(aview[a as int] == args@[a as int]@);
            }
            match args[a].expect_var() {
                Ok(id) => {
                    ids.push(id);
                },
                Err(_) => {
                    proof {
                        lemma_bind_args_none(Map::empty(), 0, aview, a as int);
                    }
                    return Err(CodegenFault::ExpectedVar);
                },
            }
            a = a + 1;
        }
        proof {
            lemma_bind_args_ids(Map::empty(), 0, aview, ids@);
            lemma_bind_ids_total(Map::empty(), 0, ids@);
        }
        let nested = Codegen::seeded(self.next_label).with_func(fvar, label).with_args(ids);
        let ghost spec_nested = EmitState {
            code: seq![ByteOp::Label(label)],
            func_code: Seq::empty(),
            locals: bind_args(Map::empty(), 0, aview)->Some_0.0,
            next_local: bind_args(Map::empty(), 0, aview)->Some_0.1,
            func: Some((fvar, label)),
            next_label: (label + 1) as usize,
        };
        proof {
            assert(nested@.code =~= spec_nested.code);
            assert(nested@ =~~= spec_nested);
        }
        let (mut fcode, nl2) = match nested.compile_unit(&l[3]) {
            Ok(q) => q,
            Err(f) => {
                return Err(f);
            },
        };
        fcode.push(ByteOp::Return(1));
        let ghost s_before = self@;
        let ghost fbase = self.func_code@;
        let mut i: usize = 0;
        while i < fcode.len()
            invariant
                i <= fcode@.len(),
                self@ == (EmitState {
                    func_code: fbase + fcode@.take(i as int),
                    ..s_before
                }),
            decreases fcode@.len() - i,
        {
            let op = fcode[i];
            self.func_code.push(op);
            proof {
                assert(self.func_code@ =~= fbase + fcode@.take(i + 1));
                assert(self@ =~~= (EmitState {
                    func_code: fbase + fcode@.take(i + 1),
                    ..s_before
                }));
            }
            i = i + 1;
        }
        self.next_label = nl2;
        let ghost unitspec = emit_unit(spec_nested, lv[3]);
        proof {
            assert(unitspec matches Some(p) && fcode@ == p.0.push(ByteOp::Return(1)));
            assert(fcode@.take(fcode@.len() as int) =~= fcode@);
            assert(fcode@.drop_last() =~= unitspec->Some_0.0);
            assert(unitspec->Some_0.0 + seq![ByteOp::Return(1)] =~= fcode@);
            assert(self@ =~~= (EmitState {
                func_code: old(self)@.func_code + unitspec->Some_0.0
                    + seq![ByteOp::Return(1)],
                next_label: nl2,
                ..old(self)@
            }));
        }
        let ghost s1spec = EmitState {
            func_code: old(self)@.func_code + unitspec->Some_0.0 + seq![ByteOp::Return(1)],
            next_label: unitspec->Some_0.1,
            ..old(self)@
        };
        self.emit(ByteOp::PushFunc(label));
        self.emit(ByteOp::AddLocal);
        proof {
            assert(self@ =~~= emit1(emit1(s1spec, ByteOp::PushFunc(label)), ByteOp::AddLocal));
        }
        let ghost s2spec = emit1(emit1(s1spec, ByteOp::PushFunc(label)), ByteOp::AddLocal);
        if self.next_local == usize::MAX {
            return Err(CodegenFault::TooManyLocals);
        }
        let slot = self.next_local;
        self.next_local = self.next_local + 1;
        self.locals.insert(fvar, slot);
        proof {
            broadcast use lemma_view_trees;

            assert(self@ =~~= (EmitState {
                locals: s2spec.locals.insert(fvar, s2spec.next_local),
                next_local: (s2spec.next_local + 1) as usize,
                ..s2spec
            }));
            assert(decreases_to!(*sexp => *l));
            assert(decreases_to!(*l => l@));
            assert(decreases_to!(l@ => l@[5]));
            assert(decreases_to!(*sexp => l@[5 as int]));
        }
        self.visit(&l[5])
    }

    /// Compiles a declaration-list binding: each value followed by a
    /// bind to the next local slot, then the body.
    #[verifier::loop_isolation(false)]
    #[verifier::rlimit(60)]
    fn visit_let(&mut self, sexp: &SExp) -> (r: Result<(), CodegenFault>)
        requires
            sexp@ is List,
            cg_let_form(sexp@->List_0),
            chain_op(sexp@->List_0) is None,
            !cg_fn_form(sexp@->List_0),
        ensures
            match emit_tree(old(self)@, sexp@) {
                Some(s2) => r is Ok && final(self)@ == s2,
                None => r is Err,
            },
        decreases sexp, 0int,
    {
        let l = match sexp {
            SExp::List(l) => l,
            _ => {
                proof {
                    assert(false);
                }
                return Err(CodegenFault::ExpectedList);
            },
        };
        let ghost lv = view_trees(l@);
        proof {
            broadcast use lemma_view_trees;

            assert(lv[1] == l@[1]@);
            assert(lv[3] == l@[3]@);
        }
        let decls: &Vec<SExp> = match &l[1] {
            SExp::List(d) => d,
            _ => {
                proof {
                    assert(false);
                }
                return Err(CodegenFault::ExpectedList);
            },
        };
        let ghost dview = view_trees(decls@);
        proof {
            assert(lv[1]->List_0 == dview);
            assert(decreases_to!(*sexp => *l));
            assert(decreases_to!(*l => l@));
            assert(decreases_to!(l@ => l@[1]));
            assert(decreases_to!(l@[1 as int] => *decls));
            assert(decreases_to!(*decls => decls@));
            assert(decreases_to!(*sexp => decls@));
        }
        let ghost full = emit_decls(old(self)@, dview);
        proof {
            assert(dview.skip(0) =~= dview);
        }
        let mut d: usize = 0;
        while d < decls.len()
            invariant
                d <= decls@.len(),
                full == emit_decls(self@, dview.skip(d as int)),
            decreases decls@.len() - d,
        {
            proof {
                broadcast use lemma_view_trees;

                assert(dview.skip(d as int)[0] == dview[d as int]);
                assert(dview[d as int] == decls@[d as int]@);
            }
            let el = &decls[d];
            let p: &Vec<SExp> = match el {
                SExp::List(pp) => pp,
                _ => {
                    return Err(CodegenFault::ExpectedList);
                },
            };
            proof {
                broadcast use lemma_view_trees;

                assert(decls@[d as int]@ == Tree::List(view_trees(p@)));
            }
            if p.len() < 2 {
                return Err(CodegenFault::MissingPart);
            }
            proof {
                assert(view_trees(p@)[0] == p@[0]@);
                assert(view_trees(p@)[1] == p@[1]@);
            }
            let id = match p[0].expect_var() {
                Ok(v) => v,
                Err(_) => {
                    return Err(CodegenFault::ExpectedVar);
                },
            };
            proof {
                assert(decreases_to!(decls@ => decls@[d as int]));
                assert(decreases_to!(decls@[d as int] => *p));
                assert(decreases_to!(*p => p@));
                assert(decreases_to!(p@ => p@[1 as int]));
                assert(decreases_to!(*sexp => p@[1 as int]));
            }
            match self.visit(&p[1]) {
                Ok(()) => {},
                Err(f) => {
                    return Err(f);
                },
            }
            if self.next_local == usize::MAX {
                return Err(CodegenFault::TooManyLocals);
            }
            self.emit(ByteOp::AddLocal);
            let slot = self.next_local;
            self.next_local = self.next_local + 1;
            self.locals.insert(id, slot);
            proof {
                assert(dview.skip(d as int).drop_first() =~= dview.skip(d + 1));
            }
            d = d + 1;
        }
        proof {
            assert(dview.skip(decls@.len() as int) =~= Seq::<Tree>::empty());
            assert(decreases_to!(l@ => l@[3]));
            assert(decreases_to!(*sexp => l@[3 as int]));
        }
        self.visit(&l[3])
    }

    /// Compiles a conditional: the condition, a branch over the `else`
    /// code, the two arms, and the two label markers.
    #[verifier::rlimit(60)]
    fn visit_if(&mut self, sexp: &SExp) -> (r: Result<(), CodegenFault>)
        requires
            sexp@ is List,
            cg_if_form(sexp@->List_0),
            chain_op(sexp@->List_0) is None,
            !cg_fn_form(sexp@->List_0),
            !cg_let_form(sexp@->List_0),
        ensures
            match emit_tree(old(self)@, sexp@) {
                Some(s2) => r is Ok && final(self)@ == s2,
                None => r is Err,
            },
        decreases sexp, 0int,
    {
        let l = match sexp {
            SExp::List(l) => l,
            _ => {
                proof {
                    assert(false);
                }
                return Err(CodegenFault::ExpectedList);
            },
        };
        proof {
            broadcast use lemma_view_trees;

            assert(view_trees(l@)[1] == l@[1]@);
            assert(view_trees(l@)[2] == l@[2]@);
            assert(view_trees(l@)[3] == l@[3]@);
            assert(decreases_to!(*sexp => *l));
            assert(decreases_to!(*l => l@));
            assert(decreases_to!(l@ => l@[1]));
            assert(decreases_to!(l@ => l@[2]));
            assert(decreases_to!(l@ => l@[3]));
        }
        match self.visit(&l[1]) {
            Ok(()) => {},
            Err(f) => {
                return Err(f);
            },
        }
        let fals = match self.next_label_fresh() {
            Ok(lab) => lab,
            Err(f) => {
                return Err(f);
            },
        };
        let merge = match self.next_label_fresh() {
            Ok(lab) => lab,
            Err(f) => {
                return Err(f);
            },
        };
        self.emit(ByteOp::BrFalse(fals));
        match self.visit(&l[2]) {
            Ok(()) => {},
            Err(f) => {
                return Err(f);
            },
        }
        self.emit(ByteOp::Jump(merge));
        self.emit(ByteOp::Label(fals));
        match self.visit(&l[3]) {
            Ok(()) => {},
            Err(f) => {
                return Err(f);
            },
        }
        self.emit(ByteOp::Label(merge));
        Ok(())
    }

    /// Compiles a cons form: both halves, then the cell allocation.
    fn visit_cons(&mut self, sexp: &SExp) -> (r: Result<(), CodegenFault>)
        requires
            sexp@ is List,
            cg_cons_form(sexp@->List_0),
            chain_op(sexp@->List_0) is None,
            !cg_fn_form(sexp@->List_0),
            !cg_let_form(sexp@->List_0),
            !cg_if_form(sexp@->List_0),
        ensures
            match emit_tree(old(self)@, sexp@) {
                Some(s2) => r is Ok && final(self)@ == s2,
                None => r is Err,
            },
        decreases sexp, 0int,
    {
        let l = match sexp {
            SExp::List(l) => l,
            _ => {
                proof {
                    assert(false);
                }
                return Err(CodegenFault::ExpectedList);
            },
        };
        proof {
            broadcast use lemma_view_trees;

            assert(view_trees(l@)[1] == l@[1]@);
            assert(view_trees(l@)[2] == l@[2]@);
            assert(decreases_to!(*sexp => *l));
            assert(decreases_to!(*l => l@));
            assert(decreases_to!(l@ => l@[1]));
            assert(decreases_to!(l@ => l@[2]));
        }
        match self.visit(&l[1]) {
            Ok(()) => {},
            Err(f) => {
                return Err(f);
            },
        }
        match self.visit(&l[2]) {
            Ok(()) => {},
            Err(f) => {
                return Err(f);
            },
        }
        self.emit(ByteOp::MkCons);
        Ok(())
    }

    /// Compiles a function application: every argument left to right,
    /// then the callee, then the call with the argument count.
    #[verifier::loop_isolation(false)]
    #[verifier::rlimit(60)]
    fn visit_app(&mut self, sexp: &SExp) -> (r: Result<(), CodegenFault>)
        requires
            sexp@ is List,
            sexp@->List_0.len() >= 1,
            chain_op(sexp@->List_0) is None,
            !cg_fn_form(sexp@->List_0),
            !cg_let_form(sexp@->List_0),
            !cg_if_form(sexp@->List_0),
            !cg_cons_form(sexp@->List_0),
        ensures
            match emit_tree(old(self)@, sexp@) {
                Some(s2) => r is Ok && final(self)@ == s2,
                None => r is Err,
            },
        decreases sexp, 0int,
    {
        let l = match sexp {
            SExp::List(l) => l,
            _ => {
                proof {
                    assert(false);
                }
                return Err(CodegenFault::ExpectedList);
            },
        };
        let ghost lv = view_trees(l@);
        proof {
            broadcast use lemma_view_trees;

            assert(decreases_to!(*sexp => *l));
            assert(decreases_to!(*l => l@));
            assert(decreases_to!(*sexp => l@));
            assert(lv.drop_first() =~= lv.skip(1));
        }
        let ghost full = emit_args(old(self)@, lv.drop_first());
        let mut k: usize = 1;
        while k < l.len()
            invariant
                1 <= k <= l@.len(),
                full == emit_args(self@, lv.skip(k as int)),
            decreases l@.len() - k,
        {
            proof {
                broadcast use lemma_view_trees;

                assert(lv.skip(k as int)[0] == lv[k as int]);
                assert(lv[k as int] == l@[k as int]@);
                assert(decreases_to!(l@ => l@[k as int]));
            }
            match self.visit(&l[k]) {
                Ok(()) => {},
                Err(f) => {
                    return Err(f);
                },
            }
            proof {
                assert(lv.skip(k as int).drop_first() =~= lv.skip(k + 1));
            }
            k = k + 1;
        }
        proof {
            assert(lv.skip(l@.len() as int) =~= Seq::<Tree>::empty());
            assert(lv[0] == l@[0]@);
            assert(decreases_to!(l@ => l@[0 as int]));
        }
        match self.visit(&l[0]) {
            Ok(()) => {},
            Err(f) => {
                return Err(f);
            },
        }
        let argc = l.len() - 1;
        self.emit(ByteOp::Call(argc));
        Ok(())
    }
}

} // verus!
