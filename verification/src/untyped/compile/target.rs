//! A simple imperative language.
use vstd::prelude::*;

use crate::names::{name_views, Name};

verus! {

/// The mathematical value of a type of the language.
pub enum TypeModel {
    Int,
    FnPtr,
    Named(Name),
    Any,
}

/// The mathematical value of an expression.
pub enum ExprModel {
    /// The value at a path.
    Read(Seq<Name>),
    /// A call of the function at a path.
    Call(Seq<Name>, Seq<ExprModel>),
    /// A value of a struct type: the name of the type, and the fields with their values.
    StructLit(Name, Seq<(Name, ExprModel)>),
}

/// The mathematical value of a statement: the name that is assigned and what is assigned.
pub struct StmtModel {
    pub lhs: Name,
    pub rhs: ExprModel,
}

/// The mathematical value of a function definition.
pub struct FuncModel {
    pub args: Seq<(Name, TypeModel)>,
    pub ret_type: TypeModel,
    pub body: Seq<StmtModel>,
    pub ret: ExprModel,
}

/// The mathematical value of a program: the struct types with their fields, and the
/// functions, each under its name.
pub struct AstModel {
    pub type_defs: Seq<(Name, Seq<(Name, TypeModel)>)>,
    pub func_defs: Seq<(Name, FuncModel)>,
}

/// A program: type definitions and function definitions, each under its name.
#[derive(Debug)]
pub struct Ast {
    pub type_defs: Vec<(String, TypeDef)>,
    pub func_defs: Vec<(String, Func)>,
}

/// A type definition.
#[derive(Debug)]
pub enum TypeDef {
    Struct { fields: Vec<(String, Type)> },
}

/// A type.
#[derive(Debug)]
pub enum Type {
    Int,
    FnPtr,
    Named { ident: String },
    Any,
}

/// A function definition: the parameters, the type of the result, the statements of the
/// body, and the expression that gives the result.
#[derive(Debug)]
pub struct Func {
    pub args: Vec<(String, Type)>,
    pub ret_type: Type,
    pub body: Vec<Stmt>,
    pub ret: Expr,
}

/// A statement.
#[derive(Debug)]
pub enum Stmt {
    Assign { lhs: String, rhs: Expr },
}

/// An expression.
#[derive(Debug)]
pub enum Expr {
    Read { path: Path },
    Call { func: Path, args: Vec<Expr> },
    StructLit { name: String, fields: Vec<(String, Expr)> },
}

/// A path: a name and the fields that are read from it, one after the other.
#[derive(Debug)]
pub struct Path {
    pub parts: Vec<String>,
}

impl View for Path {
    type V = Seq<Name>;

    open spec fn view(&self) -> Seq<Name> {
        name_views(self.parts@)
    }
}

impl Clone for Path {
    fn clone(&self) -> (copy: Self)
        ensures
            copy@ == self@,
    {
        let mut parts: Vec<String> = Vec::new();
        let mut i: usize = 0;
        while i < self.parts.len()
            invariant
                i <= self.parts.len(),
                parts@.len() == i,
                forall|j: int| 0 <= j < i ==> parts@[j]@ == self.parts@[j]@,
            decreases self.parts.len() - i,
        {
            parts.push(self.parts[i].clone());
            i = i + 1;
        }
        assert(name_views(parts@) =~= name_views(self.parts@));
        Path { parts }
    }
}

impl View for Type {
    type V = TypeModel;

    open spec fn view(&self) -> TypeModel {
        match self {
            Type::Int => TypeModel::Int,
            Type::FnPtr => TypeModel::FnPtr,
            Type::Named { ident } => TypeModel::Named(ident@),
            Type::Any => TypeModel::Any,
        }
    }
}

/// The mathematical values of a list of fields or parameters with their types.
pub open spec fn typed_names(fields: Seq<(String, Type)>) -> Seq<(Name, TypeModel)> {
    fields.map_values(|f: (String, Type)| (f.0@, f.1@))
}

impl View for TypeDef {
    type V = Seq<(Name, TypeModel)>;

    open spec fn view(&self) -> Seq<(Name, TypeModel)> {
        match self {
            TypeDef::Struct { fields } => typed_names(fields@),
        }
    }
}

impl Expr {
    /// The mathematical value of the expression.
    pub open spec fn model(&self) -> ExprModel
        decreases self,
    {
        match self {
            Expr::Read { path } => ExprModel::Read(path@),
            Expr::Call { func, args } => ExprModel::Call(
                func@,
                Seq::new(
                    args@.len(),
                    |i: int|
                        if 0 <= i < args@.len() {
                            args@[i].model()
                        } else {
                            arbitrary()
                        },
                ),
            ),
            Expr::StructLit { name, fields } => ExprModel::StructLit(
                name@,
                Seq::new(
                    fields@.len(),
                    |i: int|
                        if 0 <= i < fields@.len() {
                            (fields@[i].0@, fields@[i].1.model())
                        } else {
                            arbitrary()
                        },
                ),
            ),
        }
    }
}

impl View for Expr {
    type V = ExprModel;

    open spec fn view(&self) -> ExprModel {
        self.model()
    }
}

impl View for Stmt {
    type V = StmtModel;

    open spec fn view(&self) -> StmtModel {
        match self {
            Stmt::Assign { lhs, rhs } => StmtModel { lhs: lhs@, rhs: rhs@ },
        }
    }
}

/// The mathematical values of a list of statements.
pub open spec fn statements(stmts: Seq<Stmt>) -> Seq<StmtModel> {
    stmts.map_values(|s: Stmt| s@)
}

impl View for Func {
    type V = FuncModel;

    open spec fn view(&self) -> FuncModel {
        FuncModel {
            args: typed_names(self.args@),
            ret_type: self.ret_type@,
            body: statements(self.body@),
            ret: self.ret@,
        }
    }
}

impl View for Ast {
    type V = AstModel;

    open spec fn view(&self) -> AstModel {
        AstModel {
            type_defs: self.type_defs@.map_values(|d: (String, TypeDef)| (d.0@, d.1@)),
            func_defs: self.func_defs@.map_values(|d: (String, Func)| (d.0@, d.1@)),
        }
    }
}

impl Clone for Type {
    fn clone(&self) -> (copy: Self)
        ensures
            copy@ == self@,
    {
        match self {
            Type::Int => Type::Int,
            Type::FnPtr => Type::FnPtr,
            Type::Named { ident } => Type::Named { ident: ident.clone() },
            Type::Any => Type::Any,
        }
    }
}

/// A copy of a list of fields or parameters with their types.
fn typed_names_copy(fields: &Vec<(String, Type)>) -> (copy: Vec<(String, Type)>)
    ensures
        typed_names(copy@) == typed_names(fields@),
{
    let mut copy: Vec<(String, Type)> = Vec::new();
    let mut i: usize = 0;
    while i < fields.len()
        invariant
            i <= fields.len(),
            copy@.len() == i,
            forall|j: int|
                0 <= j < i ==> (#[trigger] copy@[j]).0@ == fields@[j].0@ && copy@[j].1@
                    == fields@[j].1@,
        decreases fields.len() - i,
    {
        copy.push((fields[i].0.clone(), fields[i].1.clone()));
        i = i + 1;
    }
    assert(typed_names(copy@) =~= typed_names(fields@));
    copy
}

impl Clone for TypeDef {
    fn clone(&self) -> (copy: Self)
        ensures
            copy@ == self@,
    {
        match self {
            TypeDef::Struct { fields } => TypeDef::Struct { fields: typed_names_copy(fields) },
        }
    }
}

impl Clone for Expr {
    fn clone(&self) -> (copy: Self)
        ensures
            copy@ == self@,
        decreases self,
    {
        match self {
            Expr::Read { path } => Expr::Read { path: path.clone() },
            Expr::Call { func, args } => {
                let mut copies: Vec<Expr> = Vec::new();
                let mut i: usize = 0;
                while i < args.len()
                    invariant
                        *self is Call,
                        self->Call_args == *args,
                        i <= args.len(),
                        copies@.len() == i,
                        forall|j: int|
                            0 <= j < i ==> (#[trigger] copies@[j]).model() == args@[j].model(),
                    decreases args.len() - i,
                {
                    copies.push(args[i].clone());
                    i = i + 1;
                }
                let copy = Expr::Call { func: func.clone(), args: copies };
                assert(copy.model()->Call_1 =~= self.model()->Call_1);
                copy
            },
            Expr::StructLit { name, fields } => {
                let mut copies: Vec<(String, Expr)> = Vec::new();
                let mut i: usize = 0;
                while i < fields.len()
                    invariant
                        *self is StructLit,
                        self->StructLit_fields == *fields,
                        i <= fields.len(),
                        copies@.len() == i,
                        forall|j: int|
                            0 <= j < i ==> (#[trigger] copies@[j]).0@ == fields@[j].0@
                                && copies@[j].1.model() == fields@[j].1.model(),
                    decreases fields.len() - i,
                {
                    copies.push((fields[i].0.clone(), fields[i].1.clone()));
                    i = i + 1;
                }
                let copy = Expr::StructLit { name: name.clone(), fields: copies };
                assert(copy.model()->StructLit_1 =~= self.model()->StructLit_1);
                copy
            },
        }
    }
}

impl Clone for Stmt {
    fn clone(&self) -> (copy: Self)
        ensures
            copy@ == self@,
    {
        match self {
            Stmt::Assign { lhs, rhs } => Stmt::Assign { lhs: lhs.clone(), rhs: rhs.clone() },
        }
    }
}

impl Clone for Func {
    fn clone(&self) -> (copy: Self)
        ensures
            copy@ == self@,
    {
        let mut body: Vec<Stmt> = Vec::new();
        let mut i: usize = 0;
        while i < self.body.len()
            invariant
                i <= self.body.len(),
                body@.len() == i,
                forall|j: int| 0 <= j < i ==> (#[trigger] body@[j])@ == self.body@[j]@,
            decreases self.body.len() - i,
        {
            body.push(self.body[i].clone());
            i = i + 1;
        }
        assert(statements(body@) =~= statements(self.body@));
        Func {
            args: typed_names_copy(&self.args),
            ret_type: self.ret_type.clone(),
            body,
            ret: self.ret.clone(),
        }
    }
}

impl Clone for Ast {
    fn clone(&self) -> (copy: Self)
        ensures
            copy@ == self@,
    {
        let mut type_defs: Vec<(String, TypeDef)> = Vec::new();
        let mut i: usize = 0;
        while i < self.type_defs.len()
            invariant
                i <= self.type_defs.len(),
                type_defs@.len() == i,
                forall|j: int|
                    0 <= j < i ==> (#[trigger] type_defs@[j]).0@ == self.type_defs@[j].0@
                        && type_defs@[j].1@ == self.type_defs@[j].1@,
            decreases self.type_defs.len() - i,
        {
            type_defs.push((self.type_defs[i].0.clone(), self.type_defs[i].1.clone()));
            i = i + 1;
        }
        let mut func_defs: Vec<(String, Func)> = Vec::new();
        let mut k: usize = 0;
        while k < self.func_defs.len()
            invariant
                k <= self.func_defs.len(),
                func_defs@.len() == k,
                forall|j: int|
                    0 <= j < k ==> (#[trigger] func_defs@[j]).0@ == self.func_defs@[j].0@
                        && func_defs@[j].1@ == self.func_defs@[j].1@,
            decreases self.func_defs.len() - k,
        {
            func_defs.push((self.func_defs[k].0.clone(), self.func_defs[k].1.clone()));
            k = k + 1;
        }
        let copy = Ast { type_defs, func_defs };
        assert(copy@.type_defs =~= self@.type_defs);
        assert(copy@.func_defs =~= self@.func_defs);
        copy
    }
}

impl Ast {
    /// The empty program.
    pub fn new() -> (ast: Self)
        ensures
            ast@ == (AstModel { type_defs: Seq::empty(), func_defs: Seq::empty() }),
    {
        let ast = Ast { type_defs: Vec::new(), func_defs: Vec::new() };
        assert(ast@.type_defs =~= Seq::empty());
        assert(ast@.func_defs =~= Seq::empty());
        ast
    }
}

impl Default for Ast {
    fn default() -> (ast: Self)
        ensures
            ast@ == (AstModel { type_defs: Seq::empty(), func_defs: Seq::empty() }),
    {
        Ast::new()
    }
}

} // verus!
