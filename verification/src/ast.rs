use vstd::prelude::*;

verus! {

/// A node of the abstract syntax tree: a variable reference, an
/// application of one expression to another, or a `let`-binding
/// `let name = bound in body`.
///
/// Identifiers are non-empty and never equal to a reserved keyword
/// (`let`, `in`); a successful parse establishes this. The tree is
/// immutable and strictly owned: each compound node owns its children.
#[derive(PartialEq, Eq, PartialOrd, Ord, Debug)]
pub enum Expr {
    Var(String),
    App(Box<Expr>, Box<Expr>),
    Let(String, Box<Expr>, Box<Expr>),
}

/// The mathematical shape of an [`Expr`]: the same tree with every
/// identifier read as its character sequence. The grammar in
/// [`crate::grammar`] derives values of this type, and the parser's
/// contract ties each returned [`Expr`] to one of them.
pub enum SpecExpr {
    Var(Seq<char>),
    App(Box<SpecExpr>, Box<SpecExpr>),
    Let(Seq<char>, Box<SpecExpr>, Box<SpecExpr>),
}

impl Clone for Expr {
    /// A clone of a node is equal to it.
    fn clone(&self) -> (res: Self)
        ensures
            res == *self,
        decreases self,
    {
        match self {
            Expr::Var(name) => Expr::Var(name.clone()),
            Expr::App(func, arg) => Expr::App(
                Box::new((&**func).clone()),
                Box::new((&**arg).clone()),
            ),
            Expr::Let(name, bound, body) => Expr::Let(
                name.clone(),
                Box::new((&**bound).clone()),
                Box::new((&**body).clone()),
            ),
        }
    }
}

impl Expr {
    /// The mathematical value of this node.
    pub open spec fn to_spec(&self) -> SpecExpr
        decreases self,
    {
        match self {
            Expr::Var(name) => SpecExpr::Var(name@),
            Expr::App(func, arg) => SpecExpr::App(
                Box::new(func.to_spec()),
                Box::new(arg.to_spec()),
            ),
            Expr::Let(name, bound, body) => SpecExpr::Let(
                name@,
                Box::new(bound.to_spec()),
                Box::new(body.to_spec()),
            ),
        }
    }
}

} // verus!
