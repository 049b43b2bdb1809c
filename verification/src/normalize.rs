//! Name resolution: replaces every lexically bound identifier by a
//! positional variable reference, with innermost-first shadowing.
//!
//! Scopes form a stack; a declaration-list `let` pushes one scope and
//! grows it left to right, each declaration's value resolved before its
//! own name becomes visible (sequential, not simultaneous, binding); a
//! named function `let` binds the function's own name before its body so
//! it can call itself, and its parameters in an inner scope. Position
//! ids come from one counter for the whole unit and are never reused.
//! An identifier bound nowhere is left as it is.

use vstd::prelude::*;
use crate::parser::{SExp, ShapeFault, Tree, view_trees, lemma_view_trees, ident_is};

verus! {

/// The binding this scope stack gives a name: innermost scope first.
pub open spec fn lookup(env: Seq<Map<Seq<char>, usize>>, name: Seq<char>) -> Option<usize>
    decreases env.len(),
{
    if env.len() == 0 {
        None
    } else if env.last().contains_key(name) {
        Some(env.last()[name])
    } else {
        lookup(env.drop_last(), name)
    }
}

/// A declaration-list binding form: `(let ((name value) ...) in body)`.
pub open spec fn is_decl_let(l: Seq<Tree>) -> bool {
    l.len() == 4 && l[0] == Tree::Ident("let"@) && l[1] is List && l[2] == Tree::Ident("in"@)
}

/// A named recursive function binding form:
/// `(let name (params ...) fn_body in body)`.
pub open spec fn is_fn_let(l: Seq<Tree>) -> bool {
    l.len() == 6 && l[0] == Tree::Ident("let"@) && l[1] is Ident && l[2] is List
        && l[4] == Tree::Ident("in"@)
}

/// Resolves one tree under a scope stack, with `next` the first unused
/// position id; yields the resolved tree and the next unused id.
pub open spec fn resolve_tree(
    env: Seq<Map<Seq<char>, usize>>,
    next: usize,
    t: Tree,
) -> Option<(Tree, usize)>
    decreases t,
{
    match t {
        Tree::List(l) => if is_decl_let(l) {
            match resolve_decls(env.push(Map::empty()), next, l[1]->List_0) {
                Some((rdecls, env2, next2)) => match resolve_tree(env2, next2, l[3]) {
                    Some((body2, next3)) => Some(
                        (Tree::List(seq![l[0], Tree::List(rdecls), l[2], body2]), next3),
                    ),
                    None => None,
                },
                None => None,
            }
        } else if is_fn_let(l) {
            if next == usize::MAX {
                None
            } else {
                let id = next;
                let env1 = env.push(Map::empty().insert(l[1]->Ident_0, id));
                match resolve_params(Map::empty(), (next + 1) as usize, l[2]->List_0) {
                    Some((rargs, pmap, next2)) => match resolve_tree(env1.push(pmap), next2, l[3]) {
                        Some((fb2, next3)) => match resolve_tree(env1, next3, l[5]) {
                            Some((body2, next4)) => Some(
                                (
                                    Tree::List(
                                        seq![
                                            l[0],
                                            Tree::Var(id),
                                            Tree::List(rargs),
                                            fb2,
                                            l[4],
                                            body2,
                                        ],
                                    ),
                                    next4,
                                ),
                            ),
                            None => None,
                        },
                        None => None,
                    },
                    None => None,
                }
            }
        } else {
            match resolve_list(env, next, l) {
                Some((items2, next2)) => Some((Tree::List(items2), next2)),
                None => None,
            }
        },
        Tree::Ident(name) => match lookup(env, name) {
            Some(pos) => Some((Tree::Var(pos), next)),
            None => Some((t, next)),
        },
        _ => Some((t, next)),
    }
}

/// Resolves the declarations of a declaration-list `let` left to right.
/// Each declaration must be a list whose first element is an identifier;
/// its value is resolved before the name enters the innermost scope.
pub open spec fn resolve_decls(
    env: Seq<Map<Seq<char>, usize>>,
    next: usize,
    decls: Seq<Tree>,
) -> Option<(Seq<Tree>, Seq<Map<Seq<char>, usize>>, usize)>
    decreases decls,
{
    if decls.len() == 0 {
        Some((Seq::empty(), env, next))
    } else {
        match decls[0] {
            Tree::List(p) => if p.len() >= 2 && p[0] is Ident && next < usize::MAX {
                let name = p[0]->Ident_0;
                let id = next;
                match resolve_tree(env, (next + 1) as usize, p[1]) {
                    Some((v2, n1)) => {
                        let env2 = env.update(env.len() - 1, env.last().insert(name, id));
                        match resolve_decls(env2, n1, decls.drop_first()) {
                            Some((rest, env3, n2)) => Some(
                                (
                                    seq![Tree::List(seq![Tree::Var(id), v2])] + rest,
                                    env3,
                                    n2,
                                ),
                            ),
                            None => None,
                        }
                    },
                    None => None,
                }
            } else {
                None
            },
            _ => None,
        }
    }
}

/// Binds each parameter name, which must be an identifier, to the next
/// fresh position id, later parameters shadowing earlier ones of the
/// same name.
pub open spec fn resolve_params(
    pmap: Map<Seq<char>, usize>,
    next: usize,
    args: Seq<Tree>,
) -> Option<(Seq<Tree>, Map<Seq<char>, usize>, usize)>
    decreases args,
{
    if args.len() == 0 {
        Some((Seq::empty(), pmap, next))
    } else {
        match args[0] {
            Tree::Ident(nm) => if next < usize::MAX {
                match resolve_params(pmap.insert(nm, next), (next + 1) as usize,
                    args.drop_first()) {
                    Some((rest, pm, n2)) => Some((seq![Tree::Var(next)] + rest, pm, n2)),
                    None => None,
                }
            } else {
                None
            },
            _ => None,
        }
    }
}

/// Resolves the elements of a list that is no binding form, left to
/// right, threading the id counter.
pub open spec fn resolve_list(
    env: Seq<Map<Seq<char>, usize>>,
    next: usize,
    items: Seq<Tree>,
) -> Option<(Seq<Tree>, usize)>
    decreases items,
{
    if items.len() == 0 {
        Some((Seq::empty(), next))
    } else {
        match resolve_tree(env, next, items[0]) {
            Some((t2, n1)) => match resolve_list(env, n1, items.drop_first()) {
                Some((ts, n2)) => Some((seq![t2] + ts, n2)),
                None => None,
            },
            None => None,
        }
    }
}

/// The resolution of a whole unit: one empty scope, ids from zero.
pub open spec fn resolved(t: Tree) -> Option<Tree> {
    match resolve_tree(seq![Map::empty()], 0, t) {
        Some((t2, _)) => Some(t2),
        None => None,
    }
}

/// The map described by a list of name bindings: later entries shadow
/// earlier ones with the same name.
pub open spec fn assoc_names(s: Seq<(String, usize)>) -> Map<Seq<char>, usize>
    decreases s.len(),
{
    if s.len() == 0 {
        Map::empty()
    } else {
        assoc_names(s.drop_last()).insert(s.last().0@, s.last().1)
    }
}

/// Entries at or after position `i` whose names differ from `name`
/// cannot change what the bindings hold at `name`.
proof fn lemma_names_skip(s: Seq<(String, usize)>, i: int, name: Seq<char>)
    requires
        0 <= i <= s.len(),
        forall|j: int| i <= j < s.len() ==> (#[trigger] s[j]).0@ != name,
    ensures
        assoc_names(s).contains_key(name) == assoc_names(s.take(i)).contains_key(name),
        assoc_names(s).contains_key(name)
            ==> assoc_names(s)[name] == assoc_names(s.take(i))[name],
    decreases s.len() - i,
{
    if i == s.len() {
        assert(s.take(i) =~= s);
    } else {
        lemma_names_skip(s.drop_last(), i, name);
        assert(s.drop_last().take(i) =~= s.take(i));
    }
}

/// Scopes at or after position `k` that do not bind `name` cannot
/// change what the scope stack gives it.
proof fn lemma_lookup_skip(env: Seq<Map<Seq<char>, usize>>, k: int, name: Seq<char>)
    requires
        0 <= k <= env.len(),
        forall|j: int| k <= j < env.len() ==> !(#[trigger] env[j]).contains_key(name),
    ensures
        lookup(env, name) == lookup(env.take(k), name),
    decreases env.len() - k,
{
    if k == env.len() {
        assert(env.take(k) =~= env);
    } else {
        assert(!env.last().contains_key(name));
        lemma_lookup_skip(env.drop_last(), k, name);
        assert(env.drop_last().take(k) =~= env.take(k));
    }
}

/// One scope: the bindings made by a single binding form.
struct Scope {
    locals: Vec<(String, usize)>,
}

impl Scope {
    /// The map of names this scope binds.
    pub closed spec fn view(&self) -> Map<Seq<char>, usize> {
        assoc_names(self.locals@)
    }

    /// An empty scope.
    fn new() -> (r: Self)
        ensures
            r@ == Map::<Seq<char>, usize>::empty(),
    {
        let r = Scope { locals: Vec::new() };
        proof {
            assert(r@ =~= Map::<Seq<char>, usize>::empty());
        }
        r
    }

    /// Binds `name` to `id`, shadowing any earlier binding of it here.
    fn insert(&mut self, name: String, id: usize)
        ensures
            final(self)@ == old(self)@.insert(name@, id),
    {
        self.locals.push((name, id));
        proof {
            assert(self.locals@.drop_last() =~= old(self).locals@);
        }
    }

    /// Looks the name up in this scope alone.
    fn get(&self, name: &str) -> (r: Option<usize>)
        ensures
            r == (if self@.contains_key(name@) {
                Some(self@[name@])
            } else {
                None::<usize>
            }),
    {
        let mut i = self.locals.len();
        while i > 0
            invariant
                i <= self.locals@.len(),
                forall|j: int| i <= j < self.locals@.len()
                    ==> (#[trigger] self.locals@[j]).0@ != name@,
            decreases i,
        {
            let hit = {
                let k = name.to_owned();
                self.locals[i - 1].0.eq(&k)
            };
            if hit {
                let v = self.locals[i - 1].1;
                proof {
                    lemma_names_skip(self.locals@, i as int, name@);
                    assert(self.locals@.take(i as int).drop_last()
                        =~= self.locals@.take(i - 1));
                    assert(self.locals@.take(i as int).last() == self.locals@[i - 1]);
                }
                return Some(v);
            }
            i = i - 1;
        }
        proof {
            lemma_names_skip(self.locals@, 0, name@);
            assert(self.locals@.take(0) =~= Seq::<(String, usize)>::empty());
        }
        None
    }
}

/// The elementwise image of a stack of scopes.
spec fn view_scopes(s: Seq<Scope>) -> Seq<Map<Seq<char>, usize>>
    decreases s,
{
    if s.len() == 0 {
        Seq::empty()
    } else {
        seq![s[0]@] + view_scopes(s.drop_first())
    }
}

/// `view_scopes` keeps the length and maps each element to its image.
broadcast proof fn lemma_view_scopes(s: Seq<Scope>)
    ensures
        (#[trigger] view_scopes(s)).len() == s.len(),
        forall|i: int|
            #![trigger view_scopes(s)[i]]
            #![trigger s[i]@]
            0 <= i < s.len() ==> view_scopes(s)[i] == s[i]@,
    decreases s,
{
    if s.len() > 0 {
        lemma_view_scopes(s.drop_first());
        assert forall|i: int| 0 <= i < s.len() implies view_scopes(s)[i] == #[trigger] s[i]@ by {
            if i > 0 {
                assert(view_scopes(s)[i] == view_scopes(s.drop_first())[i - 1]);
                assert(s.drop_first()[i - 1] == s[i]);
            }
        }
    }
}

/// The name-resolution pass: a stack of scopes and the one position-id
/// counter of the unit.
pub struct Normalize {
    scopes: Vec<Scope>,
    next_id: usize,
}

impl Normalize {
    /// The stack of scopes currently open, innermost last.
    pub closed spec fn scopes_view(&self) -> Seq<Map<Seq<char>, usize>> {
        view_scopes(self.scopes@)
    }

    /// The first unused position id.
    pub closed spec fn next_spec(&self) -> usize {
        self.next_id
    }
}

impl Default for Normalize {
    /// A fresh resolver: no open scope, ids from zero.
    fn default() -> (r: Self)
        ensures
            r.scopes_view() == Seq::<Map<Seq<char>, usize>>::empty(),
            r.next_spec() == 0,
    {
        let r = Normalize { scopes: Vec::new(), next_id: 0 };
        proof {
            assert(r.scopes_view() =~= Seq::<Map<Seq<char>, usize>>::empty());
        }
        r
    }
}

impl Normalize {
    /// Resolves a whole unit: every bound identifier occurrence becomes
    /// a positional variable reference, exactly as [`resolved`] says.
    pub fn run(self, sexp: SExp) -> (r: Result<SExp, ShapeFault>)
        requires
            self.scopes_view() == Seq::<Map<Seq<char>, usize>>::empty(),
            self.next_spec() == 0,
        ensures
            match r {
                Ok(e) => resolved(sexp@) == Some(e@),
                Err(_) => resolved(sexp@) is None,
            },
    {
        let mut this = self;
        this.scopes.push(Scope::new());
        proof {
            broadcast use lemma_view_scopes;

            assert(this.scopes_view() =~= seq![Map::<Seq<char>, usize>::empty()]);
        }
        this.visit(&sexp)
    }

    /// Draws the next position id; ids are never reused.
    fn next_fresh(&mut self) -> (r: Result<usize, ShapeFault>)
        ensures
            final(self).scopes_view() == old(self).scopes_view(),
            match r {
                Ok(id) => old(self).next_spec() < usize::MAX && id == old(self).next_spec()
                    && final(self).next_spec() == old(self).next_spec() + 1,
                Err(_) => old(self).next_spec() == usize::MAX
                    && final(self).next_spec() == old(self).next_spec(),
            },
    {
        if self.next_id == usize::MAX {
            return Err(ShapeFault::TooManyIds);
        }
        let id = self.next_id;
        self.next_id = self.next_id + 1;
        Ok(id)
    }

    /// The innermost binding of `name`, if any scope holds one.
    fn get_pos(&self, name: &str) -> (r: Option<usize>)
        ensures
            r == lookup(self.scopes_view(), name@),
    {
        proof {
            broadcast use lemma_view_scopes;

        }
        let mut k = self.scopes.len();
        while k > 0
            invariant
                k <= self.scopes@.len(),
                forall|j: int| k <= j < self.scopes@.len()
                    ==> !(#[trigger] view_scopes(self.scopes@)[j]).contains_key(name@),
            decreases k,
        {
            proof {
                broadcast use lemma_view_scopes;

            }
            match self.scopes[k - 1].get(name) {
                Some(p) => {
                    proof {
                        lemma_lookup_skip(self.scopes_view(), k as int, name@);
                        assert(self.scopes_view().take(k as int).drop_last()
                            =~= self.scopes_view().take(k - 1));
                        assert(self.scopes_view().take(k as int).last()
                            == self.scopes_view()[k - 1]);
                    }
                    return Some(p);
                },
                None => {},
            }
            k = k - 1;
        }
        proof {
            lemma_lookup_skip(self.scopes_view(), 0, name@);
            assert(self.scopes_view().take(0)
                =~= Seq::<Map<Seq<char>, usize>>::empty());
        }
        None
    }

    /// Binds `name` to `id` in the innermost scope.
    fn scope_insert(&mut self, name: String, id: usize)
        requires
            old(self).scopes_view().len() > 0,
        ensures
            final(self).next_spec() == old(self).next_spec(),
            final(self).scopes_view() == old(self).scopes_view().update(
                old(self).scopes_view().len() - 1,
                old(self).scopes_view().last().insert(name@, id),
            ),
    {
        proof {
            broadcast use lemma_view_scopes;

        }
        let mut top = match self.scopes.pop() {
            Some(t) => t,
            None => {
                proof {
                    assert(false);
                }
                return ;
            },
        };
        top.insert(name, id);
        self.scopes.push(top);
        proof {
            broadcast use lemma_view_scopes;

            assert(self.scopes@.drop_last() =~= old(self).scopes@.drop_last());
            assert(self.scopes_view() =~= old(self).scopes_view().update(
                old(self).scopes_view().len() - 1,
                old(self).scopes_view().last().insert(name@, id),
            ));
        }
    }

    /// Opens a fresh, empty scope.
    fn push_scope(&mut self)
        ensures
            final(self).next_spec() == old(self).next_spec(),
            final(self).scopes_view() == old(self).scopes_view().push(
                Map::<Seq<char>, usize>::empty(),
            ),
    {
        self.scopes.push(Scope::new());
        proof {
            broadcast use lemma_view_scopes;

            assert(self.scopes@.drop_last() =~= old(self).scopes@);
            assert(self.scopes_view() =~= old(self).scopes_view().push(
                Map::<Seq<char>, usize>::empty(),
            ));
        }
    }

    /// Closes the innermost scope.
    fn pop_scope(&mut self)
        requires
            old(self).scopes_view().len() > 0,
        ensures
            final(self).next_spec() == old(self).next_spec(),
            final(self).scopes_view() == old(self).scopes_view().drop_last(),
    {
        proof {
            broadcast use lemma_view_scopes;

        }
        let _ = self.scopes.pop();
        proof {
            broadcast use lemma_view_scopes;

            assert(self.scopes_view() =~= old(self).scopes_view().drop_last());
        }
    }

    /// Resolves one subtree under the open scopes, exactly as
    /// [`resolve_tree`] says; on success the scopes are as before and
    /// the id counter has advanced to the returned next id.
    fn visit(&mut self, sexp: &SExp) -> (r: Result<SExp, ShapeFault>)
        ensures
            match resolve_tree(old(self).scopes_view(), old(self).next_spec(), sexp@) {
                Some(p) => r matches Ok(e) && e@ == p.0 && final(self).next_spec() == p.1
                    && final(self).scopes_view() == old(self).scopes_view(),
                None => r is Err,
            },
        decreases sexp, 1int,
    {
        match sexp {
            SExp::ConstNumber(v) => Ok(SExp::ConstNumber(*v)),
            SExp::Var(p) => Ok(SExp::Var(*p)),
            SExp::Ident(s) => {
                match self.get_pos(s.as_str()) {
                    Some(pos) => Ok(SExp::Var(pos)),
                    None => Ok(SExp::Ident(s.clone())),
                }
            },
            SExp::List(l) => {
                let n = l.len();
                let is_decl = n == 4 && ident_is(&l[0], "let")
                    && matches!(&l[1], SExp::List(_)) && ident_is(&l[2], "in");
                let is_fn = n == 6 && ident_is(&l[0], "let")
                    && matches!(&l[1], SExp::Ident(_)) && matches!(&l[2], SExp::List(_))
                    && ident_is(&l[4], "in");
                proof {
                    broadcast use lemma_view_trees;

                    assert(is_decl == is_decl_let(view_trees(l@)));
                    assert(is_fn == is_fn_let(view_trees(l@)));
                }
                if is_decl {
                    self.visit_decl(sexp)
                } else if is_fn {
                    self.visit_fn(sexp)
                } else {
                    self.visit_other(sexp)
                }
            },
        }
    }

    /// Resolves a declaration-list `let`: one fresh scope, grown left to
    /// right, each value resolved before its own name becomes visible.
    #[verifier::loop_isolation(false)]
    #[verifier::rlimit(60)]
    fn visit_decl(&mut self, sexp: &SExp) -> (r: Result<SExp, ShapeFault>)
        requires
            sexp@ is List,
            is_decl_let(sexp@->List_0),
        ensures
            match resolve_tree(old(self).scopes_view(), old(self).next_spec(), sexp@) {
                Some(p) => r matches Ok(e) && e@ == p.0 && final(self).next_spec() == p.1
                    && final(self).scopes_view() == old(self).scopes_view(),
                None => r is Err,
            },
        decreases sexp, 0int,
    {
        let ghost env0 = self.scopes_view();
        let ghost next0 = self.next_spec();
        let l = match sexp {
            SExp::List(l) => l,
            _ => {
                proof {
                    assert(false);
                }
                return Err(ShapeFault::ExpectedList);
            },
        };
        proof {
            broadcast use lemma_view_trees;

            assert(view_trees(l@)[1] == l@[1]@);
            assert(view_trees(l@)[3] == l@[3]@);
        }
        let decls: &Vec<SExp> = match &l[1] {
            SExp::List(d) => d,
            _ => {
                proof {
                    assert(false);
                }
                return Err(ShapeFault::ExpectedList);
            },
        };
        let ghost dview = view_trees(decls@);
        proof {
            assert(view_trees(l@)[1]->List_0 == dview);
            assert(decreases_to!(*sexp => *l));
            assert(decreases_to!(*l => l@));
            assert(decreases_to!(l@ => l@[1]));
            assert(decreases_to!(l@[1 as int] => *decls));
            assert(decreases_to!(*decls => decls@));
            assert(decreases_to!(*sexp => decls@));
        }
        self.push_scope();
        let ghost envp = self.scopes_view();
        let ghost full = resolve_decls(envp, next0, dview);
        let mut normalized: Vec<SExp> = Vec::new();
        let mut d: usize = 0;
        proof {
            broadcast use lemma_view_trees;

            assert(dview.skip(0) =~= dview);
            assert(view_trees(normalized@) =~= Seq::<Tree>::empty());
            if let Some(q) = resolve_decls(envp, next0, dview) {
                assert(view_trees(normalized@) + q.0 =~= q.0);
            }
        }
        while d < decls.len()
            invariant
                d <= decls@.len(),
                self.scopes_view().len() == env0.len() + 1,
                self.scopes_view().drop_last() == env0,
                full == (match resolve_decls(
                    self.scopes_view(),
                    self.next_spec(),
                    dview.skip(d as int),
                ) {
                    Some(p) => Some((view_trees(normalized@) + p.0, p.1, p.2)),
                    None => None::<(Seq<Tree>, Seq<Map<Seq<char>, usize>>, usize)>,
                }),
            decreases decls@.len() - d,
        {
            proof {
                broadcast use lemma_view_trees;

                assert(dview.skip(d as int)[0] == dview[d as int]);
                assert(dview[d as int] == decls@[d as int]@);
            }
            let el = &decls[d];
            let p: &Vec<SExp> = match el {
                SExp::List(pp) => pp,
                _ => {
                    return Err(ShapeFault::ExpectedList);
                },
            };
            proof {
                broadcast use lemma_view_trees;

                assert(decls@[d as int]@ == Tree::List(view_trees(p@)));
            }
            if p.len() < 2 {
                return Err(ShapeFault::MissingPart);
            }
            proof {
                assert(view_trees(p@)[0] == p@[0]@);
                assert(view_trees(p@)[1] == p@[1]@);
            }
            let name = match p[0].expect_ident() {
                Ok(s) => s,
                Err(f) => {
                    return Err(f);
                },
            };
            let id = match self.next_fresh() {
                Ok(i) => i,
                Err(f) => {
                    return Err(f);
                },
            };
            proof {
                assert(decreases_to!(decls@ => decls@[d as int]));
                assert(decreases_to!(decls@[d as int] => *p));
                assert(decreases_to!(*p => p@));
                assert(decreases_to!(p@ => p@[1 as int]));
                assert(decreases_to!(*sexp => p@[1 as int]));
            }
            let value = match self.visit(&p[1]) {
                Ok(v) => v,
                Err(f) => {
                    return Err(f);
                },
            };
            self.scope_insert(name.to_owned(), id);
            let mut pair: Vec<SExp> = Vec::new();
            pair.push(SExp::Var(id));
            pair.push(value);
            let ghost pairview = view_trees(pair@);
            let ghost before = view_trees(normalized@);
            normalized.push(SExp::List(pair));
            proof {
                broadcast use lemma_view_trees;

                assert(pairview =~= seq![Tree::Var(id), pair@[1]@]);
                assert(view_trees(normalized@) =~= before.push(Tree::List(pairview)));
                assert(dview.skip(d as int).drop_first() =~= dview.skip(d + 1));
                if let Some(q) = resolve_decls(
                    self.scopes_view(),
                    self.next_spec(),
                    dview.skip(d + 1),
                ) {
                    assert(before.push(Tree::List(pairview)) + q.0
                        =~= before + (seq![Tree::List(pairview)] + q.0));
                }
            }
            d = d + 1;
        }
        proof {
            assert(dview.skip(decls@.len() as int) =~= Seq::<Tree>::empty());
            if let Some(q) = resolve_decls(
                self.scopes_view(),
                self.next_spec(),
                dview.skip(decls@.len() as int),
            ) {
                assert(view_trees(normalized@) + q.0 =~= view_trees(normalized@));
            }
            assert(decreases_to!(l@ => l@[3]));
            assert(decreases_to!(*sexp => l@[3 as int]));
        }
        let body = match self.visit(&l[3]) {
            Ok(b) => b,
            Err(f) => {
                return Err(f);
            },
        };
        self.pop_scope();
        let mut items: Vec<SExp> = Vec::new();
        items.push(SExp::Ident("let".to_owned()));
        items.push(SExp::List(normalized));
        items.push(SExp::Ident("in".to_owned()));
        items.push(body);
        let result = SExp::List(items);
        proof {
            broadcast use lemma_view_trees;

            let lv = view_trees(l@);
            let spec_res = resolve_tree(env0, next0, sexp@);
            assert(spec_res matches Some(p) && view_trees(items@) =~= p.0->List_0);
            assert(spec_res matches Some(p) && result@ == p.0);
        }
        Ok(result)
    }

    /// Resolves a named recursive function `let`: the function's own
    /// name is bound before its body, its parameters in an inner scope,
    /// and the continuation sees only the name binding.
    #[verifier::loop_isolation(false)]
    #[verifier::rlimit(60)]
    fn visit_fn(&mut self, sexp: &SExp) -> (r: Result<SExp, ShapeFault>)
        requires
            sexp@ is List,
            is_fn_let(sexp@->List_0),
            !is_decl_let(sexp@->List_0),
        ensures
            match resolve_tree(old(self).scopes_view(), old(self).next_spec(), sexp@) {
                Some(p) => r matches Ok(e) && e@ == p.0 && final(self).next_spec() == p.1
                    && final(self).scopes_view() == old(self).scopes_view(),
                None => r is Err,
            },
        decreases sexp, 0int,
    {
        let ghost env0 = self.scopes_view();
        let ghost next0 = self.next_spec();
        let l = match sexp {
            SExp::List(l) => l,
            _ => {
                proof {
                    assert(false);
                }
                return Err(ShapeFault::ExpectedList);
            },
        };
        proof {
            broadcast use lemma_view_trees;

            assert(view_trees(l@)[1] == l@[1]@);
            assert(view_trees(l@)[2] == l@[2]@);
            assert(view_trees(l@)[3] == l@[3]@);
            assert(view_trees(l@)[5] == l@[5]@);
        }
        let fname: &String = match &l[1] {
            SExp::Ident(s) => s,
            _ => {
                proof {
                    assert(false);
                }
                return Err(ShapeFault::ExpectedIdent);
            },
        };
        let args: &Vec<SExp> = match &l[2] {
            SExp::List(a) => a,
            _ => {
                proof {
                    assert(false);
                }
                return Err(ShapeFault::ExpectedList);
            },
        };
        let ghost aview = view_trees(args@);
        proof {
            assert(view_trees(l@)[2]->List_0 == aview);
            assert(view_trees(l@)[1]->Ident_0 == fname@);
        }
        let id = match self.next_fresh() {
            Ok(i) => i,
            Err(f) => {
                return Err(f);
            },
        };
        self.push_scope();
        self.scope_insert(fname.clone(), id);
        let ghost env1 = self.scopes_view();
        proof {
            assert(env1 =~= env0.push(
                Map::<Seq<char>, usize>::empty().insert(fname@, id),
            ));
        }
        self.push_scope();
        let ghost nextp = self.next_spec();
        let ghost full = resolve_params(Map::empty(), nextp, aview);
        let mut rargs: Vec<SExp> = Vec::new();
        let mut a: usize = 0;
        proof {
            broadcast use lemma_view_trees;

            assert(aview.skip(0) =~= aview);
            assert(view_trees(rargs@) =~= Seq::<Tree>::empty());
            assert(self.scopes_view().last() =~= Map::<Seq<char>, usize>::empty());
            if let Some(q) = resolve_params(self.scopes_view().last(), nextp, aview) {
                assert(view_trees(rargs@) + q.0 =~= q.0);
            }
        }
        while a < args.len()
            invariant
                a <= args@.len(),
                self.scopes_view().len() == env1.len() + 1,
                self.scopes_view().drop_last() == env1,
                full == (match resolve_params(
                    self.scopes_view().last(),
                    self.next_spec(),
                    aview.skip(a as int),
                ) {
                    Some(p) => Some((view_trees(rargs@) + p.0, p.1, p.2)),
                    None => None::<(Seq<Tree>, Map<Seq<char>, usize>, usize)>,
                }),
            decreases args@.len() - a,
        {
            proof {
                broadcast use lemma_view_trees;

                assert(aview.skip(a as int)[0] == aview[a as int]);
                assert(aview[a as int] == args@[a as int]@);
            }
            let pname = match args[a].expect_ident() {
                Ok(s) => s,
                Err(f) => {
                    return Err(f);
                },
            };
            let pid = match self.next_fresh() {
                Ok(i) => i,
                Err(f) => {
                    return Err(f);
                },
            };
            self.scope_insert(pname.to_owned(), pid);
            let ghost before = view_trees(rargs@);
            rargs.push(SExp::Var(pid));
            proof {
                broadcast use lemma_view_trees;

                assert(view_trees(rargs@) =~= before.push(Tree::Var(pid)));
                assert(aview.skip(a as int).drop_first() =~= aview.skip(a + 1));
                if let Some(q) = resolve_params(
                    self.scopes_view().last(),
                    self.next_spec(),
                    aview.skip(a + 1),
                ) {
                    assert(before.push(Tree::Var(pid)) + q.0
                        =~= before + (seq![Tree::Var(pid)] + q.0));
                }
            }
            a = a + 1;
        }
        proof {
            assert(aview.skip(args@.len() as int) =~= Seq::<Tree>::empty());
            if let Some(q) = resolve_params(
                self.scopes_view().last(),
                self.next_spec(),
                aview.skip(args@.len() as int),
            ) {
                assert(view_trees(rargs@) + q.0 =~= view_trees(rargs@));
            }
            assert(env1.push(self.scopes_view().last()) =~= self.scopes_view());
            assert(decreases_to!(*sexp => *l));
            assert(decreases_to!(*l => l@));
            assert(decreases_to!(l@ => l@[3]));
            assert(decreases_to!(*sexp => l@[3 as int]));
        }
        let fn_body = match self.visit(&l[3]) {
            Ok(b) => b,
            Err(f) => {
                return Err(f);
            },
        };
        self.pop_scope();
        proof {
            assert(self.scopes_view() == env1);
            assert(decreases_to!(l@ => l@[5]));
            assert(decreases_to!(*sexp => l@[5 as int]));
        }
        let body = match self.visit(&l[5]) {
            Ok(b) => b,
            Err(f) => {
                return Err(f);
            },
        };
        self.pop_scope();
        proof {
            assert(env1.drop_last() =~= env0);
        }
        let mut items: Vec<SExp> = Vec::new();
        items.push(SExp::Ident("let".to_owned()));
        items.push(SExp::Var(id));
        items.push(SExp::List(rargs));
        items.push(fn_body);
        items.push(SExp::Ident("in".to_owned()));
        items.push(body);
        let result = SExp::List(items);
        proof {
            broadcast use lemma_view_trees;

            let spec_res = resolve_tree(env0, next0, sexp@);
            assert(spec_res matches Some(p) && view_trees(items@) =~= p.0->List_0);
            assert(spec_res matches Some(p) && result@ == p.0);
        }
        Ok(result)
    }

    /// Resolves a list that is no binding form by resolving its elements
    /// left to right.
    #[verifier::loop_isolation(false)]
    #[verifier::rlimit(60)]
    fn visit_other(&mut self, sexp: &SExp) -> (r: Result<SExp, ShapeFault>)
        requires
            sexp@ is List,
            !is_decl_let(sexp@->List_0),
            !is_fn_let(sexp@->List_0),
        ensures
            match resolve_tree(old(self).scopes_view(), old(self).next_spec(), sexp@) {
                Some(p) => r matches Ok(e) && e@ == p.0 && final(self).next_spec() == p.1
                    && final(self).scopes_view() == old(self).scopes_view(),
                None => r is Err,
            },
        decreases sexp, 0int,
    {
        let ghost env0 = self.scopes_view();
        let ghost next0 = self.next_spec();
        let l = match sexp {
            SExp::List(l) => l,
            _ => {
                proof {
                    assert(false);
                }
                return Err(ShapeFault::ExpectedList);
            },
        };
        let ghost lview = view_trees(l@);
        let ghost full = resolve_list(env0, next0, lview);
        proof {
            assert(decreases_to!(*sexp => *l));
            assert(decreases_to!(*l => l@));
            assert(decreases_to!(*sexp => l@));
        }
        let mut items: Vec<SExp> = Vec::new();
        let mut k: usize = 0;
        proof {
            broadcast use lemma_view_trees;

            assert(lview.skip(0) =~= lview);
            assert(view_trees(items@) =~= Seq::<Tree>::empty());
            if let Some(q) = resolve_list(env0, next0, lview) {
                assert(view_trees(items@) + q.0 =~= q.0);
            }
        }
        while k < l.len()
            invariant
                k <= l@.len(),
                self.scopes_view() == env0,
                full == (match resolve_list(env0, self.next_spec(), lview.skip(k as int)) {
                    Some(p) => Some((view_trees(items@) + p.0, p.1)),
                    None => None::<(Seq<Tree>, usize)>,
                }),
            decreases l@.len() - k,
        {
            proof {
                broadcast use lemma_view_trees;

                assert(lview.skip(k as int)[0] == lview[k as int]);
                assert(lview[k as int] == l@[k as int]@);
                assert(decreases_to!(l@ => l@[k as int]));
            }
            let item = match self.visit(&l[k]) {
                Ok(v) => v,
                Err(f) => {
                    return Err(f);
                },
            };
            let ghost before = view_trees(items@);
            let ghost itemv = item@;
            items.push(item);
            proof {
                broadcast use lemma_view_trees;

                assert(view_trees(items@) =~= before.push(itemv));
                assert(lview.skip(k as int).drop_first() =~= lview.skip(k + 1));
                if let Some(q) = resolve_list(env0, self.next_spec(), lview.skip(k + 1)) {
                    assert(before.push(itemv) + q.0 =~= before + (seq![itemv] + q.0));
                }
            }
            k = k + 1;
        }
        proof {
            assert(lview.skip(l@.len() as int) =~= Seq::<Tree>::empty());
            if let Some(q) = resolve_list(env0, self.next_spec(), lview.skip(l@.len() as int)) {
                assert(view_trees(items@) + q.0 =~= view_trees(items@));
            }
        }
        let result = SExp::List(items);
        proof {
            let spec_res = resolve_tree(env0, next0, sexp@);
            assert(spec_res matches Some(p) && result@ == p.0);
        }
        Ok(result)
    }
}

} // verus!
