//! General laws of the pipeline, stated and proved once for all inputs.

use vstd::prelude::*;
use crate::parser::Tree;
use crate::normalize::{resolve_tree, resolve_list, resolved, lookup, is_decl_let, is_fn_let};
use crate::runtime::{ByteOp, Step, init_state, step1, stepn};

verus! {

/// A tree that holds no binding form anywhere: no declaration-list `let`
/// and no named-function `let` at any depth.
pub open spec fn no_binding_forms(t: Tree) -> bool
    decreases t,
{
    match t {
        Tree::List(l) => !is_decl_let(l) && !is_fn_let(l) && no_binding_forms_in(l),
        _ => true,
    }
}

/// Every element of the sequence holds no binding form.
pub open spec fn no_binding_forms_in(l: Seq<Tree>) -> bool
    decreases l,
{
    if l.len() == 0 {
        true
    } else {
        no_binding_forms(l[0]) && no_binding_forms_in(l.drop_first())
    }
}

/// A stack of empty scopes binds nothing.
proof fn lemma_lookup_empty(env: Seq<Map<Seq<char>, usize>>, name: Seq<char>)
    requires
        forall|i: int| 0 <= i < env.len() ==> #[trigger] env[i] == Map::<Seq<char>, usize>::empty(),
    ensures
        lookup(env, name) is None,
    decreases env.len(),
{
    if env.len() > 0 {
        assert(env.last() == Map::<Seq<char>, usize>::empty());
        assert(!env.last().contains_key(name));
        lemma_lookup_empty(env.drop_last(), name);
    }
}

/// Under empty scopes, a tree without binding forms resolves to itself
/// and draws no ids.
proof fn lemma_resolve_noop(env: Seq<Map<Seq<char>, usize>>, next: usize, t: Tree)
    requires
        no_binding_forms(t),
        forall|i: int| 0 <= i < env.len() ==> #[trigger] env[i] == Map::<Seq<char>, usize>::empty(),
    ensures
        resolve_tree(env, next, t) == Some((t, next)),
    decreases t,
{
    match t {
        Tree::List(l) => {
            lemma_resolve_list_noop(env, next, l);
        },
        Tree::Ident(name) => {
            lemma_lookup_empty(env, name);
        },
        _ => {},
    }
}

/// Under empty scopes, a list of trees without binding forms resolves
/// elementwise to itself.
proof fn lemma_resolve_list_noop(env: Seq<Map<Seq<char>, usize>>, next: usize, l: Seq<Tree>)
    requires
        no_binding_forms_in(l),
        forall|i: int| 0 <= i < env.len() ==> #[trigger] env[i] == Map::<Seq<char>, usize>::empty(),
    ensures
        resolve_list(env, next, l) == Some((l, next)),
    decreases l,
{
    if l.len() == 0 {
        assert(l =~= Seq::<Tree>::empty());
    } else {
        lemma_resolve_noop(env, next, l[0]);
        lemma_resolve_list_noop(env, next, l.drop_first());
        assert(seq![l[0]] + l.drop_first() =~= l);
    }
}

/// Law: resolution is a no-op on a tree with no binding forms — in
/// particular on the trees resolution itself produces, as long as they
/// hold no declaration-list `let`. (A resolved declaration-list `let`
/// still matches the binding shape, and re-resolving it faults on the
/// variable reference standing where a name is required, so such trees
/// are left out here.)
pub proof fn lemma_resolve_roundtrip(t: Tree)
    requires
        no_binding_forms(t),
    ensures
        resolved(t) == Some(t),
{
    let env = seq![Map::<Seq<char>, usize>::empty()];
    assert(forall|i: int| 0 <= i < env.len()
        ==> #[trigger] env[i] == Map::<Seq<char>, usize>::empty());
    lemma_resolve_noop(env, 0, t);
}

/// An outcome that has ended never changes as more steps are taken.
proof fn lemma_stepn_absorbing(code: Seq<ByteOp>, st: Step, n: nat)
    requires
        !(st is Run),
    ensures
        stepn(code, st, n) == st,
    decreases n,
{
    if n > 0 {
        lemma_stepn_absorbing(code, st, (n - 1) as nat);
    }
}

/// Stepping composes: `n1 + n2` steps are `n1` steps, then `n2` more.
proof fn lemma_stepn_add(code: Seq<ByteOp>, st: Step, n1: nat, n2: nat)
    ensures
        stepn(code, st, n1 + n2) == stepn(code, stepn(code, st, n1), n2),
    decreases n2,
{
    if n2 > 0 {
        lemma_stepn_add(code, st, n1, (n2 - 1) as nat);
    }
}

/// Law: execution is deterministic. However many steps it takes two
/// observers to see the machine end on the same program, they see the
/// same ending — the same final state, result and heap, or the same
/// fault. Together with the compiler's exact contracts this makes the
/// whole pipeline deterministic: compiling and running one source twice
/// yields identical programs, results and heaps.
pub proof fn lemma_run_deterministic(code: Seq<ByteOp>, n1: nat, n2: nat)
    requires
        !(stepn(code, Step::Run(init_state()), n1) is Run),
        !(stepn(code, Step::Run(init_state()), n2) is Run),
    ensures
        stepn(code, Step::Run(init_state()), n1) == stepn(code, Step::Run(init_state()), n2),
{
    let st = Step::Run(init_state());
    if n1 <= n2 {
        lemma_stepn_add(code, st, n1, (n2 - n1) as nat);
        lemma_stepn_absorbing(code, stepn(code, st, n1), (n2 - n1) as nat);
    } else {
        lemma_stepn_add(code, st, n2, (n1 - n2) as nat);
        lemma_stepn_absorbing(code, stepn(code, st, n2), (n1 - n2) as nat);
    }
}

/// How many of the first `n` steps successfully executed a call.
pub open spec fn call_steps(code: Seq<ByteOp>, n: nat) -> nat
    decreases n,
{
    if n == 0 {
        0
    } else {
        call_steps(code, (n - 1) as nat) + (match stepn(
            code,
            Step::Run(init_state()),
            (n - 1) as nat,
        ) {
            Step::Run(s) => if 0 <= s.pc < code.len() && code[s.pc] is Call
                && step1(code, s) is Run {
                1nat
            } else {
                0nat
            },
            _ => 0nat,
        })
    }
}

/// How many of the first `n` steps successfully executed a return.
pub open spec fn ret_steps(code: Seq<ByteOp>, n: nat) -> nat
    decreases n,
{
    if n == 0 {
        0
    } else {
        ret_steps(code, (n - 1) as nat) + (match stepn(
            code,
            Step::Run(init_state()),
            (n - 1) as nat,
        ) {
            Step::Run(s) => if 0 <= s.pc < code.len() && code[s.pc] is Return
                && step1(code, s) is Run {
                1nat
            } else {
                0nat
            },
            _ => 0nat,
        })
    }
}

/// One successful step grows the frame stack only at a call, shrinks it
/// only at a return, and a return runs only with a caller left below.
proof fn lemma_step_frames(code: Seq<ByteOp>, s: crate::runtime::MState)
    requires
        0 <= s.pc < code.len(),
        step1(code, s) is Run,
        s.frames.len() >= 1,
    ensures
        ({
            let s2 = step1(code, s)->Run_0;
            if code[s.pc] is Call {
                s2.frames.len() == s.frames.len() + 1
            } else if code[s.pc] is Return {
                s.frames.len() >= 2 && s2.frames.len() == s.frames.len() - 1
            } else {
                s2.frames.len() == s.frames.len()
            }
        }),
{
}

/// Law: across any run, successful returns never outnumber successful
/// calls plus one, and while the machine is still running its frame
/// stack is never empty — so every instruction, return or not, executes
/// with a live frame. The balance is exact: live frames plus returns
/// equal calls plus the one initial frame.
pub proof fn lemma_call_return_balance(code: Seq<ByteOp>, n: nat)
    ensures
        ret_steps(code, n) <= call_steps(code, n) + 1,
        (match stepn(code, Step::Run(init_state()), n) {
            Step::Run(s) => s.frames.len() + ret_steps(code, n) == 1 + call_steps(code, n)
                && s.frames.len() >= 1,
            _ => true,
        }),
    decreases n,
{
    if n > 0 {
        lemma_call_return_balance(code, (n - 1) as nat);
        let prev = stepn(code, Step::Run(init_state()), (n - 1) as nat);
        match prev {
            Step::Run(s) => {
                if 0 <= s.pc < code.len() && step1(code, s) is Run {
                    lemma_step_frames(code, s);
                }
            },
            _ => {},
        }
    }
}

} // verus!
