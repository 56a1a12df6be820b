//! Parsed statements, as far as the engine's decisions read them.

use crate::types::Instant;
use vstd::prelude::*;

verus! {

/// A literal. A floating-point literal is carried by its IEEE 754 bits.
#[derive(Debug)]
pub enum Literal {
    Int(i64),
    Float(u64),
    Str(String),
    Bool(bool),
    Null,
}

/// An expression.
#[derive(Debug)]
pub enum Expr {
    Literal(Literal),
    Param(String),
    Neg(Box<Expr>),
    Prop { var: String, prop: String },
    Var(String),
    FnCall { args: Vec<Expr> },
    Other,
}

/// Labels required of a node: all of them, or any of them.
#[derive(Debug)]
pub enum LabelSpec {
    All(Vec<String>),
    Any(Vec<String>),
}

impl LabelSpec {
    pub open spec fn empty_spec(&self) -> bool {
        match self {
            LabelSpec::All(l) => l@.len() == 0,
            LabelSpec::Any(l) => l@.len() == 0,
        }
    }

    pub fn is_empty(&self) -> (r: bool)
        ensures
            r == self.empty_spec(),
    {
        match self {
            LabelSpec::All(l) => l.len() == 0,
            LabelSpec::Any(l) => l.len() == 0,
        }
    }
}

/// The direction of an edge pattern, read left to right.
#[derive(Clone, Copy, Debug, PartialEq, Eq, Structural)]
pub enum Direction {
    Out,
    In,
}

/// `(var:Label {prop: value})`
#[derive(Debug)]
pub struct NodePattern {
    pub var: Option<String>,
    pub labels: LabelSpec,
    pub props: Vec<(String, Expr)>,
}

/// `-[var:Label {prop: value}]->`, with a quantifier or without.
#[derive(Debug)]
pub struct EdgePattern {
    pub var: Option<String>,
    pub label: String,
    pub direction: Direction,
    pub props: Vec<(String, Expr)>,
    pub quantified: bool,
}

/// One hop of a path: an edge and the node it leads to.
#[derive(Debug)]
pub struct Hop {
    pub edge: EdgePattern,
    pub node: NodePattern,
}

/// A path pattern.
#[derive(Debug)]
pub struct PathPattern {
    pub var: Option<String>,
    pub start: NodePattern,
    pub hops: Vec<Hop>,
}

/// `INSERT ... VALID FROM ... TO ...`, with or without a `MATCH`.
#[derive(Debug)]
pub struct InsertStmt {
    pub match_part: Option<Vec<PathPattern>>,
    pub paths: Vec<PathPattern>,
    pub valid_from: Option<Instant>,
    pub valid_to: Option<Instant>,
}

/// What a `MATCH ... DELETE` does to its target.
#[derive(Clone, Copy, Debug, PartialEq, Eq, Structural)]
pub enum MutKind {
    Delete,
    Erase,
}

/// `MATCH ... [DETACH] DELETE|ERASE target`
#[derive(Debug)]
pub struct MutateStmt {
    pub match_part: Vec<PathPattern>,
    pub target: String,
    pub kind: MutKind,
    pub detach: bool,
}

/// One assignment of a `SET`.
#[derive(Debug)]
pub enum SetItem {
    Prop { var: String, prop: String },
    Label { var: String, label: String },
}

/// One item of a `REMOVE`.
#[derive(Debug)]
pub enum RemoveItem {
    Prop { var: String, prop: String },
    Label { var: String, label: String },
}

/// `CREATE GRAPH` and `DROP GRAPH`.
#[derive(Debug)]
pub enum GraphStmt {
    Create(String),
    Drop(String),
}

/// Who a role is granted to.
#[derive(Debug)]
pub enum RoleTarget {
    User(String),
    Role(String),
}

#[derive(Clone, Copy, Debug, PartialEq, Eq, Structural)]
pub enum PrivilegeAction {
    Read,
    Write,
    All,
}

#[derive(Clone, Copy, Debug, PartialEq, Eq, Structural)]
pub enum PrivilegeKind {
    Nodes,
    Edges,
}

/// A privilege as written: an action on a kind of element, in one graph or in
/// all, on listed names or on all.
#[derive(Debug)]
pub struct PrivilegeSpec {
    pub action: PrivilegeAction,
    pub graph: Option<String>,
    pub kind: PrivilegeKind,
    pub names: Option<Vec<String>>,
}

/// Statements on users, roles and privileges.
#[derive(Debug)]
pub enum SecurityStmt {
    CreateRole(String),
    DropRole(String),
    GrantRole { role: String, to: RoleTarget },
    RevokeRole { role: String, from: RoleTarget },
    GrantPrivilege { privilege: PrivilegeSpec, role: String },
    RevokePrivilege { privilege: PrivilegeSpec, role: String },
    GrantAdmin { role: String },
    RevokeAdmin { role: String },
    ShowRoles,
    ShowGrants,
}

impl SecurityStmt {
    pub open spec fn is_show_spec(&self) -> bool {
        self is ShowRoles || self is ShowGrants
    }

    /// Whether the statement only reads.
    pub fn is_show(&self) -> (r: bool)
        ensures
            r == self.is_show_spec(),
    {
        match self {
            SecurityStmt::ShowRoles => true,
            SecurityStmt::ShowGrants => true,
            _ => false,
        }
    }
}

/// `MATCH ... SET items`
#[derive(Debug)]
pub struct SetStmt {
    pub match_part: Vec<PathPattern>,
    pub items: Vec<SetItem>,
}

/// `MATCH ... REMOVE items`
#[derive(Debug)]
pub struct RemoveStmt {
    pub match_part: Vec<PathPattern>,
    pub items: Vec<RemoveItem>,
}

/// A statement of a program.
#[derive(Debug)]
pub enum Statement {
    Query,
    Insert(InsertStmt),
    Mutate(MutateStmt),
    Assign(SetStmt),
    Remove(RemoveStmt),
    Graph(GraphStmt),
    Security(SecurityStmt),
}

} // verus!
