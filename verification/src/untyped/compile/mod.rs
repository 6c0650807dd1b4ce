//! Closure conversion of an untyped term into a small imperative language.
use vstd::prelude::*;

pub mod target;

use crate::fresh_var;
use crate::hindley_milner::terms::Tm;
use crate::names::{decimal, decimal_text, fresh_name, name_views, Name, NameSet};
use crate::untyped::compile::target::{
    statements, typed_names, Ast, AstModel, Expr, ExprModel, Func, FuncModel, Path, Stmt,
    StmtModel, Type, TypeDef, TypeModel,
};
use crate::untyped::Term;

verus! {

/// What the conversion of a term gives: the expression that stands for the term, and the
/// program and the statements of the enclosing function as the conversion leaves them.
pub struct Lowered {
    pub expr: ExprModel,
    pub ast: AstModel,
    pub stmts: Seq<StmtModel>,
}

/// The name `prefix` followed by the decimal numeral of `n`.
pub open spec fn tagged(prefix: Seq<char>, n: nat) -> Name {
    prefix + decimal(n)
}

/// The name of the parameter through which a closure with the parameter `param` reads what
/// it captured: `env`, unless the parameter has that name.
pub open spec fn env_name(param: Name) -> Name {
    if param == "env"@ {
        fresh_name(set![param])
    } else {
        "env"@
    }
}

/// Where the body of a closure finds each name: its parameter by itself, a captured name as
/// a field of the environment.
pub open spec fn closure_context(captured: Seq<Name>, env: Name, param: Name) -> Map<
    Name,
    Seq<Name>,
> {
    Map::new(
        |n: Name| captured.contains(n) || n == param,
        |n: Name|
            if n == param {
                seq![param]
            } else {
                seq![env, n]
            },
    )
}

/// The fields of a closure's struct type: the code, then each captured name.
pub open spec fn closure_fields(captured: Seq<Name>) -> Seq<(Name, TypeModel)> {
    seq![("code"@, TypeModel::FnPtr)] + captured.map_values(|c: Name| (c, TypeModel::Any))
}

/// The fields of a closure's value: the function that holds its code, then each captured
/// name with the place where it is found in `ctx`.
pub open spec fn closure_values(captured: Seq<Name>, code: Name, ctx: Map<Name, Seq<Name>>) -> Seq<
    (Name, ExprModel),
> {
    seq![("code"@, ExprModel::Read(seq![code]))] + captured.map_values(
        |c: Name| (c, ExprModel::Read(ctx[c])),
    )
}

/// The conversion of the term `t` inside a function whose statements so far are `stmts`,
/// with the program `ast` so far, where `ctx` gives the place of each free name.
///
/// A variable is read from its place. A function becomes a struct type `Closure<n>` that
/// holds the code and the free names of the function, a function `closure_<n>` that takes
/// that struct and the parameter, and a value of the struct; `n` is the number of struct
/// types before it. An application assigns the function to `f<k>`, where `k` is the number
/// of statements before it, and calls its code on it and on the argument. Terms of the
/// untyped calculus have no `let`; for one the conversion changes nothing.
pub open spec fn lower(t: Tm, ast: AstModel, ctx: Map<Name, Seq<Name>>, stmts: Seq<StmtModel>)
    -> Lowered
    decreases t,
{
    match t {
        Tm::Variable(v) => Lowered { expr: ExprModel::Read(ctx[v]), ast, stmts },
        Tm::Abstraction(v, b) => {
            let captured = t.free_order();
            let n = ast.type_defs.len();
            let ty_name = tagged("Closure"@, n);
            let fn_name = tagged("closure_"@, n);
            let env = env_name(v);
            let declared = AstModel {
                type_defs: ast.type_defs.push((ty_name, closure_fields(captured))),
                func_defs: ast.func_defs,
            };
            let inner = lower(*b, declared, closure_context(captured, env, v), Seq::empty());
            let code = FuncModel {
                args: seq![(env, TypeModel::Named(ty_name)), (v, TypeModel::Any)],
                ret_type: TypeModel::Any,
                body: inner.stmts,
                ret: inner.expr,
            };
            Lowered {
                expr: ExprModel::StructLit(ty_name, closure_values(captured, fn_name, ctx)),
                ast: AstModel {
                    type_defs: inner.ast.type_defs,
                    func_defs: inner.ast.func_defs.push((fn_name, code)),
                },
                stmts,
            }
        },
        Tm::Application(f, a) => {
            let first = lower(*f, ast, ctx, stmts);
            let name = tagged("f"@, first.stmts.len());
            let second = lower(
                *a,
                first.ast,
                ctx,
                first.stmts.push(StmtModel { lhs: name, rhs: first.expr }),
            );
            Lowered {
                expr: ExprModel::Call(
                    seq![name, "code"@],
                    seq![ExprModel::Read(seq![name]), second.expr],
                ),
                ast: second.ast,
                stmts: second.stmts,
            }
        },
        Tm::Let(_, _, _) => Lowered { expr: ExprModel::Read(Seq::empty()), ast, stmts },
    }
}

/// The program of a function `t`: the closures of its body, followed by the function `main`
/// that takes the parameter of `t` and returns what its body converts to.
pub open spec fn program(t: Tm) -> AstModel
    recommends
        t is Abstraction,
{
    match t {
        Tm::Abstraction(v, b) => {
            let inner = lower(
                *b,
                AstModel { type_defs: Seq::empty(), func_defs: Seq::empty() },
                map![v => seq![v]],
                Seq::empty(),
            );
            let main = FuncModel {
                args: seq![(v, TypeModel::Any)],
                ret_type: TypeModel::Any,
                body: inner.stmts,
                ret: inner.expr,
            };
            AstModel {
                type_defs: inner.ast.type_defs,
                func_defs: inner.ast.func_defs.push(("main"@, main)),
            }
        },
        _ => AstModel { type_defs: Seq::empty(), func_defs: Seq::empty() },
    }
}

/// The number of functions in a term.
pub open spec fn functions(t: Tm) -> nat
    decreases t,
{
    match t {
        Tm::Variable(_) => 0,
        Tm::Abstraction(_, b) => 1 + functions(*b),
        Tm::Application(f, a) => functions(*f) + functions(*a),
        Tm::Let(_, _, _) => 0,
    }
}

/// The number of applications in a term that stand inside no function of the term.
pub open spec fn calls(t: Tm) -> nat
    decreases t,
{
    match t {
        Tm::Variable(_) => 0,
        Tm::Abstraction(_, _) => 0,
        Tm::Application(f, a) => 1 + calls(*f) + calls(*a),
        Tm::Let(_, _, _) => 0,
    }
}

/// The conversion of a term adds one struct type and one function for each function of the
/// term, and one statement for each application outside them, and keeps what was there.
pub proof fn lemma_lower_counts(t: Tm, ast: AstModel, ctx: Map<Name, Seq<Name>>, stmts: Seq<StmtModel>)
    ensures
        ({
            let l = lower(t, ast, ctx, stmts);
            &&& l.ast.type_defs.len() == ast.type_defs.len() + functions(t)
            &&& l.ast.func_defs.len() == ast.func_defs.len() + functions(t)
            &&& l.stmts.len() == stmts.len() + calls(t)
            &&& l.ast.type_defs.take(ast.type_defs.len() as int) == ast.type_defs
            &&& l.ast.func_defs.take(ast.func_defs.len() as int) == ast.func_defs
            &&& l.stmts.take(stmts.len() as int) == stmts
        }),
    decreases t,
{
    let l = lower(t, ast, ctx, stmts);
    match t {
        Tm::Variable(_) => {},
        Tm::Abstraction(v, b) => {
            let captured = t.free_order();
            let n = ast.type_defs.len();
            let declared = AstModel {
                type_defs: ast.type_defs.push((tagged("Closure"@, n), closure_fields(captured))),
                func_defs: ast.func_defs,
            };
            lemma_lower_counts(
                *b,
                declared,
                closure_context(captured, env_name(v), v),
                Seq::empty(),
            );
            let inner = lower(*b, declared, closure_context(captured, env_name(v), v), Seq::empty());
            assert(inner.ast.type_defs.take(n as int) =~= inner.ast.type_defs.take(
                declared.type_defs.len() as int,
            ).take(n as int));
            assert(declared.type_defs.take(n as int) =~= ast.type_defs);
        },
        Tm::Application(f, a) => {
            lemma_lower_counts(*f, ast, ctx, stmts);
            let first = lower(*f, ast, ctx, stmts);
            let name = tagged("f"@, first.stmts.len());
            let between = first.stmts.push(StmtModel { lhs: name, rhs: first.expr });
            lemma_lower_counts(*a, first.ast, ctx, between);
            let second = lower(*a, first.ast, ctx, between);
            assert(second.ast.type_defs.take(ast.type_defs.len() as int) =~= second.ast.type_defs.take(
                first.ast.type_defs.len() as int,
            ).take(ast.type_defs.len() as int));
            assert(second.ast.func_defs.take(ast.func_defs.len() as int) =~= second.ast.func_defs.take(
                first.ast.func_defs.len() as int,
            ).take(ast.func_defs.len() as int));
            assert(second.stmts.take(stmts.len() as int) =~= second.stmts.take(
                between.len() as int,
            ).take(stmts.len() as int));
            assert(between.take(stmts.len() as int) =~= first.stmts.take(stmts.len() as int));
        },
        Tm::Let(_, _, _) => {},
    }
    assert(l.ast.type_defs.take(ast.type_defs.len() as int) =~= ast.type_defs);
    assert(l.ast.func_defs.take(ast.func_defs.len() as int) =~= ast.func_defs);
    assert(l.stmts.take(stmts.len() as int) =~= stmts);
}

/// The program of a function has one struct type for each function in its body, one
/// function for each of them and the function `main`, which comes last and has one
/// statement for each application of the body outside those functions.
pub proof fn lemma_program_counts(v: Name, b: Tm)
    ensures
        ({
            let p = program(Tm::Abstraction(v, Box::new(b)));
            &&& p.type_defs.len() == functions(b)
            &&& p.func_defs.len() == functions(b) + 1
            &&& p.func_defs.last().0 == "main"@
            &&& p.func_defs.last().1.body.len() == calls(b)
        }),
{
    lemma_lower_counts(
        b,
        AstModel { type_defs: Seq::empty(), func_defs: Seq::empty() },
        map![v => seq![v]],
        Seq::empty(),
    );
}

/// The places of the names inside one function: its parameter, and the parameter through
/// which it reads every other name.
struct Scope {
    env: String,
    param: String,
}

impl Scope {
    /// The place of `name`.
    spec fn path(&self, name: Name) -> Seq<Name> {
        if name == self.param@ {
            seq![name]
        } else {
            seq![self.env@, name]
        }
    }

    /// Whether the scope gives every free name of `t` the place that `ctx` gives it.
    spec fn covers(&self, t: Tm, ctx: Map<Name, Seq<Name>>) -> bool {
        forall|n: Name| #[trigger]
            t.free_vars().contains(n) ==> ctx.dom().contains(n) && ctx[n] == self.path(n)
    }

    fn path_to(&self, name: &String) -> (path: Path)
        ensures
            path@ == self.path(name@),
    {
        let mut parts: Vec<String> = Vec::new();
        if *name != self.param {
            parts.push(self.env.clone());
        }
        parts.push(name.clone());
        assert(name_views(parts@) =~= self.path(name@));
        Path { parts }
    }
}

/// The text of `prefix` followed by the decimal numeral of `n`.
fn tagged_text(prefix: &str, n: usize) -> (text: String)
    ensures
        text@ == tagged(prefix@, n as nat),
{
    let mut text = String::from_str(prefix);
    text.append(decimal_text(n as u64).as_str());
    text
}

/// The path that is the one name `name`.
fn single(name: &String) -> (path: Path)
    ensures
        path@ == seq![name@],
{
    let mut parts: Vec<String> = Vec::new();
    parts.push(name.clone());
    assert(name_views(parts@) =~= seq![name@]);
    Path { parts }
}

/// The name of the environment parameter of a closure with the parameter `param`.
fn env_text(param: &String) -> (env: String)
    ensures
        env@ == env_name(param@),
{
    let usual = String::from_str("env");
    if *param == usual {
        let mut taken = NameSet::new();
        taken.insert(param.clone());
        assert(taken@ =~= set![param@]);
        fresh_var(&taken)
    } else {
        usual
    }
}

/// The struct type of a closure that captures `captured`.
fn closure_type(captured: &NameSet) -> (def: TypeDef)
    ensures
        def@ == closure_fields(captured.order()),
{
    let mut fields: Vec<(String, Type)> = Vec::new();
    fields.push((String::from_str("code"), Type::FnPtr));
    let mut i: usize = 0;
    while i < captured.len()
        invariant
            i <= captured.order().len(),
            fields@.len() == i + 1,
            typed_names(fields@)[0] == ("code"@, TypeModel::FnPtr),
            forall|j: int|
                0 <= j < i ==> typed_names(fields@)[j + 1] == (
                    captured.order()[j],
                    TypeModel::Any,
                ),
        decreases captured.order().len() - i,
    {
        fields.push((captured.get(i).clone(), Type::Any));
        i = i + 1;
    }
    assert(typed_names(fields@) =~= closure_fields(captured.order()));
    TypeDef::Struct { fields }
}

/// The value of a closure that captures `captured`, whose code is the function `code`.
fn closure_value(
    ty_name: String,
    code: &String,
    captured: &NameSet,
    scope: &Scope,
    Ghost(ctx): Ghost<Map<Name, Seq<Name>>>,
) -> (value: Expr)
    requires
        forall|i: int|
            0 <= i < captured.order().len() ==> ctx[#[trigger] captured.order()[i]] == scope.path(
                captured.order()[i],
            ),
    ensures
        value@ == ExprModel::StructLit(ty_name@, closure_values(captured.order(), code@, ctx)),
{
    let mut fields: Vec<(String, Expr)> = Vec::new();
    fields.push((String::from_str("code"), Expr::Read { path: single(code) }));
    let mut i: usize = 0;
    while i < captured.len()
        invariant
            i <= captured.order().len(),
            fields@.len() == i + 1,
            fields@[0].0@ == "code"@,
            fields@[0].1@ == ExprModel::Read(seq![code@]),
            forall|j: int|
                0 <= j < i ==> (#[trigger] fields@[j + 1]).0@ == captured.order()[j]
                    && fields@[j + 1].1@ == ExprModel::Read(ctx[captured.order()[j]]),
            forall|i: int|
                0 <= i < captured.order().len() ==> ctx[#[trigger] captured.order()[i]]
                    == scope.path(captured.order()[i]),
        decreases captured.order().len() - i,
    {
        let name = captured.get(i);
        let ghost before = fields@;
        fields.push((name.clone(), Expr::Read { path: scope.path_to(name) }));
        proof {
            assert(forall|j: int| 0 <= j < i + 1 ==> fields@[j] == before[j]);
            assert(fields@[i + 1].1@ == ExprModel::Read(ctx[captured.order()[i as int]]));
        }
        i = i + 1;
    }
    let value = Expr::StructLit { name: ty_name, fields };
    proof {
        let made = value@;
        assert(made is StructLit);
        assert(made->StructLit_1 =~= closure_values(captured.order(), code@, ctx)) by {
            assert forall|j: int| 0 <= j < fields@.len() implies made->StructLit_1[j]
                == closure_values(captured.order(), code@, ctx)[j] by {
                if j > 0 {
                    assert(fields@[(j - 1) + 1].0@ == captured.order()[j - 1]);
                }
            }
        }
    }
    value
}

/// The call of the code of the closure that `name` holds, on the closure and on `arg`.
fn closure_call(name: String, arg: Expr) -> (call: Expr)
    ensures
        call@ == ExprModel::Call(seq![name@, "code"@], seq![ExprModel::Read(seq![name@]), arg@]),
{
    let mut parts: Vec<String> = Vec::new();
    parts.push(name.clone());
    parts.push(String::from_str("code"));
    assert(name_views(parts@) =~= seq![name@, "code"@]);
    let mut args: Vec<Expr> = Vec::new();
    let closure = Expr::Read { path: single(&name) };
    assert(closure@ == ExprModel::Read(seq![name@]));
    args.push(closure);
    args.push(arg);
    let call = Expr::Call { func: Path { parts }, args };
    proof {
        let made = call@;
        assert(made is Call);
        assert(args@[0] == closure && args@[1] == arg);
        assert(made->Call_1 =~= seq![ExprModel::Read(seq![name@]), arg@]);
    }
    call
}

/// Converts `term` inside a function with the statements `stmts` and the places of `scope`.
fn compile_impl(
    term: &Term,
    ast: &mut Ast,
    scope: &Scope,
    stmts: &mut Vec<Stmt>,
    Ghost(ctx): Ghost<Map<Name, Seq<Name>>>,
) -> (expr: Expr)
    requires
        scope.covers(term@, ctx),
    ensures
        expr@ == lower(term@, old(ast)@, ctx, statements(old(stmts)@)).expr,
        final(ast)@ == lower(term@, old(ast)@, ctx, statements(old(stmts)@)).ast,
        statements(final(stmts)@) == lower(term@, old(ast)@, ctx, statements(old(stmts)@)).stmts,
    decreases term,
{
    match term {
        Term::Variable(v) => {
            assert(term@.free_vars().contains(v@));
            Expr::Read { path: scope.path_to(v) }
        },
        Term::Abstraction(v, b) => {
            let captured = term.free_vars();
            let closure_num = ast.type_defs.len();
            let ty_name = tagged_text("Closure", closure_num);
            let fn_name = tagged_text("closure_", closure_num);
            let ghost before = ast@;
            ast.type_defs.push((ty_name.clone(), closure_type(&captured)));
            let ghost declared = AstModel {
                type_defs: before.type_defs.push((ty_name@, closure_fields(captured.order()))),
                func_defs: before.func_defs,
            };
            assert(ast@.type_defs =~= declared.type_defs);
            let inner = Scope { env: env_text(v), param: v.clone() };
            let ghost inner_ctx = closure_context(captured.order(), inner.env@, v@);
            proof {
                captured.lemma_order();
                assert forall|n: Name| #[trigger] b@.free_vars().contains(n) implies inner_ctx.dom().contains(n)
                    && inner_ctx[n] == inner.path(n) by {
                    if n != v@ {
                        assert(term@.free_vars().contains(n));
                        assert(captured.order().to_set().contains(n));
                    }
                }
            }
            let mut body: Vec<Stmt> = Vec::new();
            assert(statements(body@) =~= Seq::empty());
            let ret = compile_impl(b, ast, &inner, &mut body, Ghost(inner_ctx));
            let mut args: Vec<(String, Type)> = Vec::new();
            args.push((inner.env.clone(), Type::Named { ident: ty_name.clone() }));
            args.push((v.clone(), Type::Any));
            assert(typed_names(args@) =~= seq![
                (inner.env@, TypeModel::Named(ty_name@)),
                (v@, TypeModel::Any),
            ]);
            let code = Func { args, ret_type: Type::Any, body, ret };
            let ghost lowered = ast@;
            ast.func_defs.push((fn_name.clone(), code));
            assert(ast@.func_defs =~= lowered.func_defs.push((fn_name@, code@)));
            assert(ast@.type_defs =~= lowered.type_defs);
            proof {
                assert forall|i: int| 0 <= i < captured.order().len() implies ctx[#[trigger] captured.order()[i]]
                    == scope.path(captured.order()[i]) by {
                    assert(captured.order().to_set().contains(captured.order()[i]));
                    assert(term@.free_vars().contains(captured.order()[i]));
                }
            }
            closure_value(ty_name, &fn_name, &captured, scope, Ghost(ctx))
        },
        Term::Application(f, a) => {
            proof {
                assert forall|n: Name| #[trigger] f@.free_vars().contains(n) implies ctx.dom().contains(n)
                    && ctx[n] == scope.path(n) by {
                    assert(term@.free_vars().contains(n));
                }
                assert forall|n: Name| #[trigger] a@.free_vars().contains(n) implies ctx.dom().contains(n)
                    && ctx[n] == scope.path(n) by {
                    assert(term@.free_vars().contains(n));
                }
            }
            let closure_expr = compile_impl(f, ast, scope, stmts, Ghost(ctx));
            let closure_name = tagged_text("f", stmts.len());
            let ghost first = statements(stmts@);
            stmts.push(Stmt::Assign { lhs: closure_name.clone(), rhs: closure_expr });
            assert(statements(stmts@) =~= first.push(
                StmtModel { lhs: closure_name@, rhs: closure_expr@ },
            ));
            let arg = compile_impl(a, ast, scope, stmts, Ghost(ctx));
            closure_call(closure_name, arg)
        },
    }
}

/// Converts the function `term`, which has no free name, into a program: one struct type
/// and one function for each function inside it, and the function `main` for `term` itself.
pub fn compile_toplevel(term: &Term) -> (ast: Ast)
    requires
        term@ is Abstraction,
        term@.free_vars() == Set::<Name>::empty(),
    ensures
        ast@ == program(term@),
{
    match term {
        Term::Abstraction(v, b) => {
            let mut out = Ast::new();
            let mut body: Vec<Stmt> = Vec::new();
            assert(statements(body@) =~= Seq::empty());
            let scope = Scope { env: String::from_str(""), param: v.clone() };
            let ghost ctx = map![v@ => seq![v@]];
            proof {
                assert forall|n: Name| #[trigger] b@.free_vars().contains(n) implies ctx.dom().contains(n)
                    && ctx[n] == scope.path(n) by {
                    if n != v@ {
                        assert(term@.free_vars().contains(n));
                    }
                }
            }
            let ret = compile_impl(b, &mut out, &scope, &mut body, Ghost(ctx));
            let mut args: Vec<(String, Type)> = Vec::new();
            args.push((v.clone(), Type::Any));
            assert(typed_names(args@) =~= seq![(v@, TypeModel::Any)]);
            let main = Func { args, ret_type: Type::Any, body, ret };
            let ghost lowered = out@;
            out.func_defs.push((String::from_str("main"), main));
            assert(out@.func_defs =~= lowered.func_defs.push(("main"@, main@)));
            assert(out@.type_defs =~= lowered.type_defs);
            out
        },
        _ => Ast::new(),
    }
}

} // verus!
