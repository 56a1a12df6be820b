//! Access control by roles and privileges.
//!
//! The policy is itself a graph, kept in a reserved graph: users and roles are
//! members of roles, and roles are granted privileges. A user's privileges are
//! those of every role that the user reaches. What is not granted is denied.

use crate::doc::{Doc, DocView};
use crate::event::{events_wf, Event, Op};
use crate::fold::{fold, lemma_fold_all, lemma_fold_step};
use crate::sorted::{
    clone_text_set, extend_set, lemma_set_items_sorted, lemma_sorted_domain, lemma_sorted_exists,
    sorted_seq, union_into, SortedMap, SortedSet,
};
use crate::text::{clone_texts, concat2, concat4, contains_text, text_is, views};
use crate::types::{Iid, Value, ValueView};
use vstd::prelude::*;
use vstd::string::StringExecFns;

verus! {

/// The reserved graph that holds the policy.
pub const SECURITY_GRAPH: &'static str = "__security";

pub const USER_LABEL: &'static str = "User";

pub const ROLE_LABEL: &'static str = "Role";

pub const PRIVILEGE_LABEL: &'static str = "Privilege";

pub const MEMBER_OF_EDGE: &'static str = "MEMBER_OF";

pub const GRANTED_EDGE: &'static str = "GRANTED";

/// Stands for every graph, or every name, in a privilege.
pub const WILDCARD: &'static str = "*";

/// The `[security]` section.
#[derive(Debug)]
pub struct SecurityTuning {
    /// Whether anything is enforced at all.
    pub enabled: bool,
    /// Subjects that pass every check.
    pub admins: Vec<String>,
}

/// The names granted for one action on one kind of element.
#[derive(Debug)]
pub struct Grants {
    pub wildcard: bool,
    pub names: SortedSet<String>,
}

#[verifier::ext_equal]
pub struct GrantsView {
    pub wildcard: bool,
    pub names: Set<Seq<char>>,
}

impl View for Grants {
    type V = GrantsView;

    open spec fn view(&self) -> GrantsView {
        GrantsView { wildcard: self.wildcard, names: self.names@ }
    }
}

impl GrantsView {
    pub open spec fn none() -> GrantsView {
        GrantsView { wildcard: false, names: Set::empty() }
    }

    pub open spec fn allows(self, name: Seq<char>) -> bool {
        self.wildcard || self.names.contains(name)
    }

    pub open spec fn merged(self, other: GrantsView) -> GrantsView {
        GrantsView {
            wildcard: self.wildcard || other.wildcard,
            names: self.names.union(other.names),
        }
    }
}

impl Grants {
    pub open spec fn wf(&self) -> bool {
        self.names.wf()
    }

    pub fn new() -> (r: Grants)
        ensures
            r.wf(),
            r@ == GrantsView::none(),
    {
        Grants { wildcard: false, names: SortedSet::new() }
    }

    pub fn clone_grants(&self) -> (r: Grants)
        requires
            self.wf(),
        ensures
            r.wf(),
            r@ == self@,
    {
        Grants { wildcard: self.wildcard, names: clone_text_set(&self.names) }
    }

    /// The only labels that are granted, where not all are.
    pub fn only_labels(&self) -> (r: Option<SortedSet<String>>)
        requires
            self.wf(),
        ensures
            match r {
                Some(labels) => !self.wildcard && labels.wf() && labels@ == self.names@,
                None => self.wildcard,
            },
    {
        if self.wildcard {
            None
        } else {
            Some(clone_text_set(&self.names))
        }
    }

    /// Whether `name` is granted.
    pub fn allows(&self, name: &str) -> (r: bool)
        requires
            self.wf(),
        ensures
            r == self@.allows(name@),
    {
        self.wildcard || self.names.contains(&name.to_owned())
    }

    /// Adds the grants of `other`.
    pub fn merge(&mut self, other: &Grants)
        requires
            old(self).wf(),
            other.wf(),
        ensures
            final(self).wf(),
            final(self)@ == old(self)@.merged(other@),
    {
        self.wildcard = self.wildcard || other.wildcard;
        union_into(&mut self.names, &other.names);
    }
}

/// What is granted in one graph.
#[derive(Debug)]
pub struct GraphGrants {
    pub read_nodes: Grants,
    pub read_edges: Grants,
    pub write_nodes: Grants,
    pub write_edges: Grants,
}

#[verifier::ext_equal]
pub struct GraphGrantsView {
    pub read_nodes: GrantsView,
    pub read_edges: GrantsView,
    pub write_nodes: GrantsView,
    pub write_edges: GrantsView,
}

impl View for GraphGrants {
    type V = GraphGrantsView;

    open spec fn view(&self) -> GraphGrantsView {
        GraphGrantsView {
            read_nodes: self.read_nodes@,
            read_edges: self.read_edges@,
            write_nodes: self.write_nodes@,
            write_edges: self.write_edges@,
        }
    }
}

impl GraphGrantsView {
    pub open spec fn none() -> GraphGrantsView {
        GraphGrantsView {
            read_nodes: GrantsView::none(),
            read_edges: GrantsView::none(),
            write_nodes: GrantsView::none(),
            write_edges: GrantsView::none(),
        }
    }

    pub open spec fn merged(self, other: GraphGrantsView) -> GraphGrantsView {
        GraphGrantsView {
            read_nodes: self.read_nodes.merged(other.read_nodes),
            read_edges: self.read_edges.merged(other.read_edges),
            write_nodes: self.write_nodes.merged(other.write_nodes),
            write_edges: self.write_edges.merged(other.write_edges),
        }
    }

    pub open spec fn unrestricted(self) -> bool {
        self.read_nodes.wildcard && self.read_edges.wildcard && self.write_nodes.wildcard
            && self.write_edges.wildcard
    }
}

impl GraphGrants {
    pub open spec fn wf(&self) -> bool {
        self.read_nodes.wf() && self.read_edges.wf() && self.write_nodes.wf()
            && self.write_edges.wf()
    }

    pub fn new() -> (r: GraphGrants)
        ensures
            r.wf(),
            r@ == GraphGrantsView::none(),
    {
        GraphGrants {
            read_nodes: Grants::new(),
            read_edges: Grants::new(),
            write_nodes: Grants::new(),
            write_edges: Grants::new(),
        }
    }

    pub fn clone_grants(&self) -> (r: GraphGrants)
        requires
            self.wf(),
        ensures
            r.wf(),
            r@ == self@,
    {
        GraphGrants {
            read_nodes: self.read_nodes.clone_grants(),
            read_edges: self.read_edges.clone_grants(),
            write_nodes: self.write_nodes.clone_grants(),
            write_edges: self.write_edges.clone_grants(),
        }
    }

    /// Adds the grants of `other`.
    pub fn merge(&mut self, other: &GraphGrants)
        requires
            old(self).wf(),
            other.wf(),
        ensures
            final(self).wf(),
            final(self)@ == old(self)@.merged(other@),
    {
        self.read_nodes.merge(&other.read_nodes);
        self.read_edges.merge(&other.read_edges);
        self.write_nodes.merge(&other.write_nodes);
        self.write_edges.merge(&other.write_edges);
    }

    /// Whether everything is granted.
    pub fn unrestricted(&self) -> (r: bool)
        ensures
            r == self@.unrestricted(),
    {
        self.read_nodes.wildcard && self.read_edges.wildcard && self.write_nodes.wildcard
            && self.write_edges.wildcard
    }
}

/// All privileges of a subject.
#[derive(Debug)]
pub struct SecurityContext {
    pub admin: bool,
    pub all_graphs: GraphGrants,
    pub graphs: SortedMap<String, GraphGrants>,
}

#[verifier::ext_equal]
pub struct ContextView {
    pub admin: bool,
    pub all_graphs: GraphGrantsView,
    pub graphs: Map<Seq<char>, GraphGrantsView>,
}

impl View for SecurityContext {
    type V = ContextView;

    open spec fn view(&self) -> ContextView {
        ContextView {
            admin: self.admin,
            all_graphs: self.all_graphs@,
            graphs: self.graphs@.map_values(|g: GraphGrants| g@),
        }
    }
}

impl ContextView {
    /// No privilege at all.
    pub open spec fn none() -> ContextView {
        ContextView { admin: false, all_graphs: GraphGrantsView::none(), graphs: Map::empty() }
    }

    /// What is granted in `graph`: in all graphs, and in this one.
    pub open spec fn graph_grants(self, graph: Seq<char>) -> GraphGrantsView {
        if self.graphs.dom().contains(graph) {
            self.all_graphs.merged(self.graphs[graph])
        } else {
            self.all_graphs
        }
    }
}

impl SecurityContext {
    pub open spec fn wf(&self) -> bool {
        &&& self.all_graphs.wf()
        &&& self.graphs.wf()
        &&& forall|g: Seq<char>| #[trigger]
            self.graphs@.dom().contains(g) ==> self.graphs@[g].wf()
    }

    pub fn new() -> (r: SecurityContext)
        ensures
            r.wf(),
            r@ == ContextView::none(),
    {
        let r = SecurityContext {
            admin: false,
            all_graphs: GraphGrants::new(),
            graphs: SortedMap::new(),
        };
        assert(r@ =~= ContextView::none());
        r
    }

    /// What is granted in `graph`.
    pub fn graph_grants(&self, graph: &str) -> (r: GraphGrants)
        requires
            self.wf(),
        ensures
            r.wf(),
            r@ == self@.graph_grants(graph@),
    {
        let mut grants = self.all_graphs.clone_grants();
        match self.graphs.get(&graph.to_owned()) {
            Some(scoped) => {
                grants.merge(scoped);
            },
            None => {},
        }
        grants
    }

    pub fn clone_context(&self) -> (r: SecurityContext)
        requires
            self.wf(),
        ensures
            r.wf(),
            r@ == self@,
    {
        let mut graphs: SortedMap<String, GraphGrants> = SortedMap::new();
        let n = self.graphs.len();
        let ghost keys = self.graphs.keys();
        let mut i: usize = 0;
        proof {
            lemma_sorted_domain(self.graphs);
        }
        while i < n
            invariant
                i <= n,
                n == keys.len(),
                keys == self.graphs.keys(),
                self.wf(),
                graphs.wf(),
                self.graphs@.dom() == keys.to_set(),
                forall|k: int|
                    0 <= k < keys.len() ==> self.graphs@.dom().contains(#[trigger] keys[k])
                        && self.graphs@[keys[k]] == self.graphs.values()[k],
                forall|g: Seq<char>| #[trigger]
                    graphs@.dom().contains(g) ==> self.graphs@.dom().contains(g) && graphs@[g]@
                        == self.graphs@[g]@ && graphs@[g].wf(),
                forall|k: int| 0 <= k < i ==> graphs@.dom().contains(#[trigger] keys[k]),
            decreases n - i,
        {
            proof {
                assert(self.graphs@.dom().contains(keys[i as int]));
            }
            graphs.insert(self.graphs.key_at(i).clone(), self.graphs.value_at(i).clone_grants());
            i += 1;
        }
        let r = SecurityContext {
            admin: self.admin,
            all_graphs: self.all_graphs.clone_grants(),
            graphs,
        };
        assert(r@.graphs =~= self@.graphs) by {
            assert forall|g: Seq<char>| self.graphs@.dom().contains(g) implies r.graphs@.dom().contains(g) by {
                let j = keys.index_of(g);
                assert(keys[j] == g);
            }
        }
        r
    }
}

/// Decides whom to restrict, and keeps the privileges of each subject for as
/// long as the policy does not change.
#[derive(Debug)]
pub struct SecurityEnforcer {
    pub enabled: bool,
    pub admins: SortedSet<String>,
    pub cache: SortedMap<String, (u64, SecurityContext)>,
}

impl SecurityEnforcer {
    pub open spec fn wf(&self) -> bool {
        &&& self.admins.wf()
        &&& self.cache.wf()
        &&& forall|u: Seq<char>| #[trigger]
            self.cache@.dom().contains(u) ==> self.cache@[u].1.wf()
    }

    /// Whether checks apply to `user`: they do not where security is off, for
    /// the process owner (no name), and for the configured administrators.
    pub open spec fn enforces_spec(&self, user: Seq<char>) -> bool {
        self.enabled && user.len() > 0 && !self.admins@.contains(user)
    }

    pub fn new(tuning: SecurityTuning) -> (r: SecurityEnforcer)
        ensures
            r.wf(),
            r.enabled == tuning.enabled,
            r.admins@ == views(tuning.admins@).to_set(),
            r.cache@ == Map::<Seq<char>, (u64, SecurityContext)>::empty(),
    {
        let mut admins: SortedSet<String> = SortedSet::new();
        extend_set(&mut admins, &tuning.admins);
        assert(admins@ =~= views(tuning.admins@).to_set());
        SecurityEnforcer { enabled: tuning.enabled, admins, cache: SortedMap::new() }
    }

    /// Whether checks apply to `user`.
    pub fn enforces(&self, user: &str) -> (r: bool)
        requires
            self.wf(),
        ensures
            r == self.enforces_spec(user@),
    {
        self.enabled && !user.is_empty() && !self.admins.contains(&user.to_owned())
    }

    /// The grants to hold `user` to in `graph`; `None` where nothing is to be
    /// filtered. `ctx` holds the user's privileges.
    pub fn enforcement_for(&self, ctx: &SecurityContext, user: &str, graph: &str) -> (r: Option<
        GraphGrants,
    >)
        requires
            self.wf(),
            ctx.wf(),
        ensures
            r is None <==> !self.enforces_spec(user@) || ctx@.admin || ctx@.graph_grants(
                graph@,
            ).unrestricted(),
            r matches Some(g) ==> g.wf() && g@ == ctx@.graph_grants(graph@),
    {
        if !self.enforces(user) || ctx.admin {
            return None;
        }
        let grants = ctx.graph_grants(graph);
        if grants.unrestricted() {
            return None;
        }
        Some(grants)
    }

    /// Whether `user` may change the policy and the catalog.
    pub fn is_admin(&self, ctx: &SecurityContext, user: &str) -> (r: bool)
        requires
            self.wf(),
        ensures
            r == (!self.enforces_spec(user@) || ctx.admin),
    {
        !self.enforces(user) || ctx.admin
    }

    /// The privileges kept for `user`, where they were resolved at this epoch.
    pub fn cached(&self, user: &str, epoch: u64) -> (r: Option<&SecurityContext>)
        requires
            self.wf(),
        ensures
            match r {
                Some(ctx) => self.cache@.dom().contains(user@) && self.cache@[user@] == (
                    epoch,
                    *ctx,
                ) && ctx.wf(),
                None => self.cache@.dom().contains(user@) ==> self.cache@[user@].0 != epoch,
            },
    {
        match self.cache.get(&user.to_owned()) {
            Some(entry) => if entry.0 == epoch {
                Some(&entry.1)
            } else {
                None
            },
            None => None,
        }
    }

    /// The privileges of `user`: those kept for this epoch, else those that
    /// `policy` gives, which are then kept.
    pub fn resolve_cached(&mut self, user: &str, epoch: u64, policy: &Policy) -> (r:
        SecurityContext)
        requires
            old(self).wf(),
            policy.wf(),
        ensures
            final(self).wf(),
            r.wf(),
            final(self).enabled == old(self).enabled,
            final(self).admins == old(self).admins,
            if old(self).cache@.dom().contains(user@) && old(self).cache@[user@].0 == epoch {
                r@ == old(self).cache@[user@].1@ && final(self).cache == old(self).cache
            } else {
                &&& r@ == policy.context_spec(user@)
                &&& final(self).cache@.dom() == old(self).cache@.dom().insert(user@)
                &&& final(self).cache@[user@].0 == epoch
                &&& final(self).cache@[user@].1@ == r@
                &&& forall|u: Seq<char>|
                    u != user@ && old(self).cache@.dom().contains(u) ==> final(self).cache@[u]
                        == old(self).cache@[u]
            },
    {
        match self.cached(user, epoch) {
            Some(ctx) => {
                return ctx.clone_context();
            },
            None => {},
        }
        let ctx = policy.context_for_subject(user);
        let kept = ctx.clone_context();
        self.cache.insert(user.to_owned(), (epoch, kept));
        ctx
    }
}

pub open spec fn user_node_id_spec(subject: Seq<char>) -> Seq<char> {
    "user:"@ + subject
}

pub open spec fn role_node_id_spec(name: Seq<char>) -> Seq<char> {
    "role:"@ + name
}

pub open spec fn privilege_node_id_spec(
    action: Seq<char>,
    graph: Seq<char>,
    kind: Seq<char>,
    name: Seq<char>,
) -> Seq<char> {
    "priv:"@ + action + ":"@ + kind + ":"@ + graph + ":"@ + name
}

pub open spec fn member_edge_id_spec(from: Seq<char>, role: Seq<char>) -> Seq<char> {
    "member:"@ + from + ">"@ + role
}

pub open spec fn grant_edge_id_spec(role: Seq<char>, privilege: Seq<char>) -> Seq<char> {
    "grant:"@ + role + ">"@ + privilege
}

/// The `_id` of a user's node.
pub fn user_node_id(subject: &str) -> (r: String)
    ensures
        r@ == user_node_id_spec(subject@),
{
    concat2("user:", subject)
}

/// The `_id` of a role's node.
pub fn role_node_id(name: &str) -> (r: String)
    ensures
        r@ == role_node_id_spec(name@),
{
    concat2("role:", name)
}

/// The `_id` of a privilege's node.
pub fn privilege_node_id(action: &str, graph: &str, kind: &str, name: &str) -> (r: String)
    ensures
        r@ == privilege_node_id_spec(action@, graph@, kind@, name@),
{
    let mut r = concat4("priv:", action, ":", kind);
    r.append(":");
    r.append(graph);
    r.append(":");
    r.append(name);
    r
}

/// The `_id` of a membership.
pub fn member_edge_id(from_node_id: &str, role_node_id: &str) -> (r: String)
    ensures
        r@ == member_edge_id_spec(from_node_id@, role_node_id@),
{
    concat4("member:", from_node_id, ">", role_node_id)
}

/// The `_id` of a grant.
pub fn grant_edge_id(role_node_id: &str, privilege_node_id: &str) -> (r: String)
    ensures
        r@ == grant_edge_id_spec(role_node_id@, privilege_node_id@),
{
    concat4("grant:", role_node_id, ">", privilege_node_id)
}

pub open spec fn user_node_doc_spec(subject: Seq<char>) -> DocView {
    Map::<Seq<char>, ValueView>::empty().insert(
        "_id"@,
        ValueView::Str(user_node_id_spec(subject)),
    ).insert("subject"@, ValueView::Str(subject))
}

/// The document of a user's node.
pub fn user_node_doc(subject: &str) -> (r: Doc)
    ensures
        r.wf(),
        r@ == user_node_doc_spec(subject@),
{
    let mut doc = Doc::new();
    doc.insert("_id".to_owned(), Value::Str(user_node_id(subject)));
    doc.insert("subject".to_owned(), Value::Str(subject.to_owned()));
    doc
}

pub open spec fn role_node_doc_spec(name: Seq<char>) -> DocView {
    Map::<Seq<char>, ValueView>::empty().insert(
        "_id"@,
        ValueView::Str(role_node_id_spec(name)),
    ).insert("name"@, ValueView::Str(name))
}

/// The document of a role's node.
pub fn role_node_doc(name: &str) -> (r: Doc)
    ensures
        r.wf(),
        r@ == role_node_doc_spec(name@),
{
    let mut doc = Doc::new();
    doc.insert("_id".to_owned(), Value::Str(role_node_id(name)));
    doc.insert("name".to_owned(), Value::Str(name.to_owned()));
    doc
}

pub open spec fn privilege_node_doc_spec(
    action: Seq<char>,
    graph: Seq<char>,
    kind: Seq<char>,
    name: Seq<char>,
) -> DocView {
    Map::<Seq<char>, ValueView>::empty().insert(
        "_id"@,
        ValueView::Str(privilege_node_id_spec(action, graph, kind, name)),
    ).insert("action"@, ValueView::Str(action)).insert("graph"@, ValueView::Str(graph)).insert(
        "kind"@,
        ValueView::Str(kind),
    ).insert("name"@, ValueView::Str(name))
}

/// The document of a privilege's node.
pub fn privilege_node_doc(action: &str, graph: &str, kind: &str, name: &str) -> (r: Doc)
    ensures
        r.wf(),
        r@ == privilege_node_doc_spec(action@, graph@, kind@, name@),
{
    let mut doc = Doc::new();
    doc.insert("_id".to_owned(), Value::Str(privilege_node_id(action, graph, kind, name)));
    doc.insert("action".to_owned(), Value::Str(action.to_owned()));
    doc.insert("graph".to_owned(), Value::Str(graph.to_owned()));
    doc.insert("kind".to_owned(), Value::Str(kind.to_owned()));
    doc.insert("name".to_owned(), Value::Str(name.to_owned()));
    doc
}

pub open spec fn edge_only_doc_spec(id: Seq<char>) -> DocView {
    Map::<Seq<char>, ValueView>::empty().insert("_id"@, ValueView::Str(id))
}

/// The document of a policy edge: its `_id` alone.
pub fn edge_only_doc(id: String) -> (r: Doc)
    ensures
        r.wf(),
        r@ == edge_only_doc_spec(id@),
{
    let mut doc = Doc::new();
    doc.insert("_id".to_owned(), Value::Str(id));
    doc
}

/// One visible element of the policy graph.
#[derive(Debug)]
pub struct PolicyEntity {
    pub iid: Iid,
    pub labels: Vec<String>,
    pub doc: Doc,
    pub src: Option<Iid>,
    pub dst: Option<Iid>,
}

pub struct PolicyEntityView {
    pub iid: Iid,
    pub labels: Seq<Seq<char>>,
    pub doc: DocView,
    pub src: Option<Iid>,
    pub dst: Option<Iid>,
}

impl View for PolicyEntity {
    type V = PolicyEntityView;

    open spec fn view(&self) -> PolicyEntityView {
        PolicyEntityView {
            iid: self.iid,
            labels: views(self.labels@),
            doc: self.doc@,
            src: self.src,
            dst: self.dst,
        }
    }
}

/// The first version of an element that puts something: what is visible of it.
pub open spec fn first_put(versions: Seq<Event>) -> Option<PolicyEntityView>
    decreases versions.len(),
{
    if versions.len() == 0 {
        None
    } else {
        match versions[0].op {
            Op::Put { labels, doc } => Some(
                PolicyEntityView {
                    iid: versions[0].iid,
                    labels: views(labels@),
                    doc: doc@,
                    src: versions[0].src,
                    dst: versions[0].dst,
                },
            ),
            _ => first_put(versions.subrange(1, versions.len() as int)),
        }
    }
}

/// What is visible of an element of the policy graph, from its versions at one
/// time.
pub fn policy_entity(versions: &Vec<Event>) -> (r: Option<PolicyEntity>)
    requires
        events_wf(versions@),
    ensures
        match r {
            Some(e) => e.doc.wf() && first_put(versions@) == Some(e@),
            None => first_put(versions@) is None,
        },
{
    let mut i: usize = 0;
    assert(versions@.subrange(0, versions@.len() as int) =~= versions@);
    while i < versions.len()
        invariant
            i <= versions.len(),
            events_wf(versions@),
            first_put(versions@) == first_put(
                versions@.subrange(i as int, versions@.len() as int),
            ),
        decreases versions.len() - i,
    {
        let version = &versions[i];
        let ghost rest = versions@.subrange(i as int, versions@.len() as int);
        assert(rest[0] == *version);
        assert(rest.subrange(1, rest.len() as int) =~= versions@.subrange(
            i + 1,
            versions@.len() as int,
        ));
        assert(versions@[i as int].wf());
        match &version.op {
            Op::Put { labels, doc } => {
                return Some(
                    PolicyEntity {
                        iid: version.iid,
                        labels: clone_texts(labels),
                        doc: doc.clone_doc(),
                        src: version.src,
                        dst: version.dst,
                    },
                );
            },
            _ => {},
        }
        i += 1;
    }
    None
}

pub open spec fn entities_wf(es: Seq<PolicyEntity>) -> bool {
    forall|i: int| 0 <= i < es.len() ==> (#[trigger] es[i]).doc.wf()
}

/// A privilege: an action on a kind of element, in a graph, for a name.
#[derive(Debug)]
pub struct PrivilegeDoc {
    pub action: String,
    pub graph: String,
    pub kind: String,
    pub name: String,
}

#[verifier::ext_equal]
pub struct PrivilegeView {
    pub action: Seq<char>,
    pub graph: Seq<char>,
    pub kind: Seq<char>,
    pub name: Seq<char>,
}

impl View for PrivilegeDoc {
    type V = PrivilegeView;

    open spec fn view(&self) -> PrivilegeView {
        PrivilegeView {
            action: self.action@,
            graph: self.graph@,
            kind: self.kind@,
            name: self.name@,
        }
    }
}

/// The policy at one instant.
#[derive(Debug)]
pub struct Policy {
    pub users: SortedMap<String, Iid>,
    pub roles: SortedMap<Iid, String>,
    pub privileges: SortedMap<Iid, PrivilegeDoc>,
    pub member_of: SortedMap<Iid, Vec<Iid>>,
    pub granted: SortedMap<Iid, Vec<Iid>>,
}

#[verifier::ext_equal]
pub struct PolicyView {
    pub users: Map<Seq<char>, Iid>,
    pub roles: Map<Iid, Seq<char>>,
    pub privileges: Map<Iid, PrivilegeView>,
    pub member_of: Map<Iid, Seq<Iid>>,
    pub granted: Map<Iid, Seq<Iid>>,
}

impl View for Policy {
    type V = PolicyView;

    open spec fn view(&self) -> PolicyView {
        PolicyView {
            users: self.users@,
            roles: self.roles@.map_values(|n: String| n@),
            privileges: self.privileges@.map_values(|p: PrivilegeDoc| p@),
            member_of: self.member_of@.map_values(|v: Vec<Iid>| v@),
            granted: self.granted@.map_values(|v: Vec<Iid>| v@),
        }
    }
}

impl PolicyView {
    pub open spec fn empty() -> PolicyView {
        PolicyView {
            users: Map::empty(),
            roles: Map::empty(),
            privileges: Map::empty(),
            member_of: Map::empty(),
            granted: Map::empty(),
        }
    }
}

/// A text property of a document, empty where it is missing or no text.
pub open spec fn text_field(doc: DocView, key: Seq<char>) -> Seq<char> {
    if doc.dom().contains(key) && doc[key] is Str {
        doc[key]->Str_0
    } else {
        Seq::empty()
    }
}

/// One more node of the policy graph.
pub open spec fn policy_node(p: PolicyView, e: PolicyEntityView) -> PolicyView {
    if e.labels.contains(USER_LABEL@) {
        if e.doc.dom().contains("subject"@) && e.doc["subject"@] is Str {
            PolicyView { users: p.users.insert(e.doc["subject"@]->Str_0, e.iid), ..p }
        } else {
            p
        }
    } else if e.labels.contains(ROLE_LABEL@) {
        if e.doc.dom().contains("name"@) && e.doc["name"@] is Str {
            PolicyView { roles: p.roles.insert(e.iid, e.doc["name"@]->Str_0), ..p }
        } else {
            p
        }
    } else if e.labels.contains(PRIVILEGE_LABEL@) {
        PolicyView {
            privileges: p.privileges.insert(
                e.iid,
                PrivilegeView {
                    action: text_field(e.doc, "action"@),
                    graph: text_field(e.doc, "graph"@),
                    kind: text_field(e.doc, "kind"@),
                    name: text_field(e.doc, "name"@),
                },
            ),
            ..p
        }
    } else {
        p
    }
}

/// The list of a node with one more entry.
pub open spec fn linked(m: Map<Iid, Seq<Iid>>, src: Iid, dst: Iid) -> Map<Iid, Seq<Iid>> {
    m.insert(
        src,
        if m.dom().contains(src) {
            m[src].push(dst)
        } else {
            seq![dst]
        },
    )
}

/// One more edge of the policy graph.
pub open spec fn policy_edge(p: PolicyView, e: PolicyEntityView) -> PolicyView {
    match (e.src, e.dst) {
        (Some(src), Some(dst)) => if e.labels.contains(MEMBER_OF_EDGE@) {
            PolicyView { member_of: linked(p.member_of, src, dst), ..p }
        } else if e.labels.contains(GRANTED_EDGE@) {
            PolicyView { granted: linked(p.granted, src, dst), ..p }
        } else {
            p
        },
        _ => p,
    }
}

/// The policy that the visible nodes and edges of the policy graph spell.
pub open spec fn policy_spec(
    nodes: Seq<PolicyEntityView>,
    edges: Seq<PolicyEntityView>,
) -> PolicyView {
    fold(
        edges,
        fold(
            nodes,
            PolicyView::empty(),
            |p: PolicyView, e: PolicyEntityView| policy_node(p, e),
        ),
        |p: PolicyView, e: PolicyEntityView| policy_edge(p, e),
    )
}

fn text_of(doc: &Doc, key: &str) -> (r: String)
    requires
        doc.wf(),
    ensures
        r@ == text_field(doc@, key@),
{
    match doc.get(key) {
        Some(Value::Str(s)) => s.clone(),
        _ => {
            let r = String::new();
            assert(r@ =~= Seq::empty());
            r
        },
    }
}

fn link(m: &mut SortedMap<Iid, Vec<Iid>>, src: Iid, dst: Iid)
    requires
        old(m).wf(),
    ensures
        final(m).wf(),
        final(m)@.map_values(|v: Vec<Iid>| v@) == linked(
            old(m)@.map_values(|v: Vec<Iid>| v@),
            src,
            dst,
        ),
{
    let ghost before = m@.map_values(|v: Vec<Iid>| v@);
    let mut list = match m.remove(&src) {
        Some(list) => list,
        None => Vec::new(),
    };
    list.push(dst);
    let ghost now = list@;
    m.insert(src, list);
    assert(now =~= linked(before, src, dst)[src]);
    assert(m@.map_values(|v: Vec<Iid>| v@) =~= linked(before, src, dst));
}

impl Policy {
    pub open spec fn wf(&self) -> bool {
        self.users.wf() && self.roles.wf() && self.privileges.wf() && self.member_of.wf()
            && self.granted.wf()
    }

    fn add_node(&mut self, e: &PolicyEntity)
        requires
            old(self).wf(),
            e.doc.wf(),
        ensures
            final(self).wf(),
            final(self)@ == policy_node(old(self)@, e@),
    {
        let ghost before = self@;
        if contains_text(&e.labels, USER_LABEL) {
            match e.doc.get("subject") {
                Some(Value::Str(subject)) => {
                    self.users.insert(subject.clone(), e.iid);
                },
                _ => {},
            }
        } else if contains_text(&e.labels, ROLE_LABEL) {
            match e.doc.get("name") {
                Some(Value::Str(name)) => {
                    self.roles.insert(e.iid, name.clone());
                },
                _ => {},
            }
        } else if contains_text(&e.labels, PRIVILEGE_LABEL) {
            self.privileges.insert(
                e.iid,
                PrivilegeDoc {
                    action: text_of(&e.doc, "action"),
                    graph: text_of(&e.doc, "graph"),
                    kind: text_of(&e.doc, "kind"),
                    name: text_of(&e.doc, "name"),
                },
            );
        }
        assert(self@ =~= policy_node(before, e@));
    }

    fn add_edge(&mut self, e: &PolicyEntity)
        requires
            old(self).wf(),
        ensures
            final(self).wf(),
            final(self)@ == policy_edge(old(self)@, e@),
    {
        let ghost before = self@;
        match (e.src, e.dst) {
            (Some(src), Some(dst)) => {
                if contains_text(&e.labels, MEMBER_OF_EDGE) {
                    link(&mut self.member_of, src, dst);
                } else if contains_text(&e.labels, GRANTED_EDGE) {
                    link(&mut self.granted, src, dst);
                }
            },
            _ => {},
        }
        assert(self@ =~= policy_edge(before, e@));
    }

    /// The policy that the visible nodes and edges of the policy graph spell.
    pub fn load_policy(nodes: &Vec<PolicyEntity>, edges: &Vec<PolicyEntity>) -> (r: Policy)
        requires
            entities_wf(nodes@),
            entities_wf(edges@),
        ensures
            r.wf(),
            r@ == policy_spec(views(nodes@), views(edges@)),
    {
        let mut policy = Policy {
            users: SortedMap::new(),
            roles: SortedMap::new(),
            privileges: SortedMap::new(),
            member_of: SortedMap::new(),
            granted: SortedMap::new(),
        };
        let ghost node_step = |p: PolicyView, e: PolicyEntityView| policy_node(p, e);
        let ghost edge_step = |p: PolicyView, e: PolicyEntityView| policy_edge(p, e);
        let ghost ns = views(nodes@);
        let ghost es = views(edges@);
        let mut i: usize = 0;
        proof {
            assert(policy@ =~= PolicyView::empty());
            lemma_fold_all(ns, PolicyView::empty(), node_step);
        }
        while i < nodes.len()
            invariant
                i <= nodes.len(),
                entities_wf(nodes@),
                policy.wf(),
                ns == views(nodes@),
                node_step == (|p: PolicyView, e: PolicyEntityView| policy_node(p, e)),
                policy@ == fold(ns.subrange(0, i as int), PolicyView::empty(), node_step),
            decreases nodes.len() - i,
        {
            proof {
                lemma_fold_step(ns, PolicyView::empty(), node_step, i as int);
                assert(ns[i as int] == nodes@[i as int]@);
            }
            policy.add_node(&nodes[i]);
            i += 1;
        }
        proof {
            lemma_fold_all(ns, PolicyView::empty(), node_step);
        }
        let ghost start = policy@;
        let mut k: usize = 0;
        proof {
            lemma_fold_all(es, start, edge_step);
        }
        while k < edges.len()
            invariant
                k <= edges.len(),
                policy.wf(),
                es == views(edges@),
                edge_step == (|p: PolicyView, e: PolicyEntityView| policy_edge(p, e)),
                policy@ == fold(es.subrange(0, k as int), start, edge_step),
            decreases edges.len() - k,
        {
            proof {
                lemma_fold_step(es, start, edge_step, k as int);
                assert(es[k as int] == edges@[k as int]@);
            }
            policy.add_edge(&edges[k]);
            k += 1;
        }
        proof {
            lemma_fold_all(es, start, edge_step);
        }
        policy
    }
}

/// `b` is a role that `a` is directly a member of.
pub open spec fn direct_member(p: PolicyView, a: Iid, b: Iid) -> bool {
    p.member_of.dom().contains(a) && p.member_of[a].contains(b) && p.roles.dom().contains(b)
}

/// `role` is reached from `start` in `n` steps of membership.
pub open spec fn reaches(p: PolicyView, start: Iid, role: Iid, n: nat) -> bool
    decreases n,
{
    if n == 0 {
        false
    } else if n == 1 {
        direct_member(p, start, role)
    } else {
        exists|mid: Iid|
            reaches(p, start, mid, (n - 1) as nat) && #[trigger] direct_member(p, mid, role)
    }
}

/// The roles that are reached from `start` by membership.
pub open spec fn roles_of(p: PolicyView, start: Iid) -> Set<Iid> {
    Set::new(|r: Iid| exists|n: nat| reaches(p, start, r, n))
}

/// A set that holds the direct roles of `start` and of all its members holds
/// every role that is reached.
proof fn lemma_closed_holds_all(p: PolicyView, start: Iid, s: Set<Iid>, r: Iid, n: nat)
    requires
        reaches(p, start, r, n),
        forall|b: Iid| direct_member(p, start, b) ==> s.contains(b),
        forall|a: Iid, b: Iid| s.contains(a) && #[trigger] direct_member(p, a, b) ==> s.contains(b),
    ensures
        s.contains(r),
    decreases n,
{
    reveal_with_fuel(reaches, 2);
    if n > 1 {
        let mid = choose|mid: Iid|
            reaches(p, start, mid, (n - 1) as nat) && #[trigger] direct_member(p, mid, r);
        lemma_closed_holds_all(p, start, s, mid, (n - 1) as nat);
    }
}

proof fn lemma_step_reaches(p: PolicyView, start: Iid, a: Iid, b: Iid)
    requires
        a == start || roles_of(p, start).contains(a),
        direct_member(p, a, b),
    ensures
        roles_of(p, start).contains(b),
{
    if a == start {
        assert(reaches(p, start, b, 1));
    }
    if roles_of(p, start).contains(a) {
        let n = choose|n: nat| reaches(p, start, a, n);
        assert(reaches(p, start, b, n + 1));
    }
}

impl Policy {
    /// The roles that are reached from `start` by membership.
    pub fn transitive_roles(&self, start: Iid) -> (r: SortedSet<Iid>)
        requires
            self.wf(),
        ensures
            r.wf(),
            r@ == roles_of(self@, start),
    {
        let ghost p = self@;
        let mut queue: Vec<Iid> = Vec::new();
        queue.push(start);
        let mut roles: SortedSet<Iid> = SortedSet::new();
        proof {
            lemma_sorted_domain(self.roles);
            assert(p.roles.dom() =~= self.roles@.dom());
            assert(queue@[0] == start);
        }
        while queue.len() > 0
            invariant
                self.wf(),
                roles.wf(),
                p == self@,
                p.roles.dom().finite(),
                roles@.finite(),
                roles@.subset_of(p.roles.dom()),
                roles@.subset_of(roles_of(p, start)),
                forall|i: int|
                    0 <= i < queue@.len() ==> (#[trigger] queue@[i]) == start || roles@.contains(
                        queue@[i],
                    ),
                forall|a: Iid, b: Iid|
                    (a == start || roles@.contains(a)) && !queue@.contains(a)
                        && #[trigger] direct_member(p, a, b) ==> roles@.contains(b),
            decreases 2 * (p.roles.dom().len() - roles@.len()) + queue@.len(),
        {
            let ghost q0 = queue@;
            let ghost r0 = roles@;
            let node = queue[queue.len() - 1];
            queue.pop();
            proof {
                vstd::set_lib::lemma_len_subset(r0, p.roles.dom());
            }
            match self.member_of.get(&node) {
                None => {
                    proof {
                        assert forall|a: Iid, b: Iid|
                            (a == start || roles@.contains(a)) && !queue@.contains(a)
                                && #[trigger] direct_member(p, a, b) implies roles@.contains(b) by {
                            if q0.contains(a) {
                                let j = q0.index_of(a);
                                if j < queue@.len() {
                                    assert(queue@[j] == a);
                                }
                            }
                        }
                    }
                },
                Some(next) => {
                    assert(p.member_of[node] == next@);
                    let ghost q1 = queue@;
                    let mut i: usize = 0;
                    while i < next.len()
                        invariant
                            i <= next.len(),
                            self.wf(),
                            roles.wf(),
                            p == self@,
                            p.roles.dom().finite(),
                            p.member_of.dom().contains(node),
                            p.member_of[node] == next@,
                            node == start || r0.contains(node),
                            roles@.finite(),
                            r0.subset_of(roles@),
                            roles@.subset_of(p.roles.dom()),
                            r0.subset_of(roles_of(p, start)),
                            roles@.subset_of(roles_of(p, start)),
                            forall|k: int|
                                0 <= k < queue@.len() ==> (#[trigger] queue@[k]) == start
                                    || roles@.contains(queue@[k]),
                            q1.len() <= queue@.len(),
                            forall|k: int| 0 <= k < q1.len() ==> #[trigger] q1[k] == queue@[k],
                            forall|x: Iid|
                                roles@.contains(x) && !r0.contains(x) ==> #[trigger] queue@.contains(
                                    x,
                                ),
                            forall|k: int|
                                0 <= k < i && p.roles.dom().contains(#[trigger] next@[k])
                                    ==> roles@.contains(next@[k]),
                            2 * (p.roles.dom().len() - roles@.len()) + queue@.len() <= 2 * (
                            p.roles.dom().len() - r0.len()) + q1.len(),
                        decreases next.len() - i,
                    {
                        let role = next[i];
                        let ghost r1 = roles@;
                        let ghost qb = queue@;
                        if self.roles.contains_key(&role) && roles.insert(role) {
                            queue.push(role);
                            proof {
                                assert(next@[i as int] == role);
                                assert(next@.contains(role));
                                lemma_step_reaches(p, start, node, role);
                                assert forall|x: Iid|
                                    roles@.contains(x) && !r0.contains(x) implies #[trigger] queue@.contains(
                                    x,
                                ) by {
                                    if x == role {
                                        assert(queue@[qb.len() as int] == x);
                                    } else {
                                        assert(qb.contains(x));
                                        let j = qb.index_of(x);
                                        assert(queue@[j] == x);
                                    }
                                }
                            }
                        }
                        i += 1;
                    }
                    proof {
                        assert forall|a: Iid, b: Iid|
                            (a == start || roles@.contains(a)) && !queue@.contains(a)
                                && #[trigger] direct_member(p, a, b) implies roles@.contains(b) by {
                            if a == node {
                                let j = next@.index_of(b);
                                assert(next@[j] == b);
                            } else if a == start || r0.contains(a) {
                                assert(!q0.contains(a)) by {
                                    if q0.contains(a) {
                                        let j = q0.index_of(a);
                                        assert(q0[j] == a);
                                        assert(j < q1.len());
                                        assert(q1[j] == a);
                                        assert(queue@[j] == a);
                                    }
                                }
                            }
                        }
                    }
                },
            }
            proof {
                vstd::set_lib::lemma_len_subset(roles@, p.roles.dom());
            }
        }
        proof {
            assert(!queue@.contains(start));
            assert(roles@ =~= roles_of(p, start)) by {
                assert forall|r: Iid| roles_of(p, start).contains(r) implies roles@.contains(r) by {
                    let n = choose|n: nat| reaches(p, start, r, n);
                    assert forall|a: Iid, b: Iid|
                        roles@.contains(a) && #[trigger] direct_member(p, a, b) implies roles@.contains(
                        b,
                    ) by {
                        assert(!queue@.contains(a));
                    }
                    lemma_closed_holds_all(p, start, roles@, r, n);
                }
            }
        }
        roles
    }
}

/// A grant set with one more name, or with all.
pub open spec fn granted_name(g: GrantsView, name: Seq<char>) -> GrantsView {
    if name == WILDCARD@ {
        GrantsView { wildcard: true, ..g }
    } else {
        GrantsView { names: g.names.insert(name), ..g }
    }
}

/// The grants of a graph with one more privilege. An action or a kind that is
/// not known is passed over.
pub open spec fn granted_scope(s: GraphGrantsView, p: PrivilegeView) -> GraphGrantsView {
    if p.action == "read"@ && p.kind == "nodes"@ {
        GraphGrantsView { read_nodes: granted_name(s.read_nodes, p.name), ..s }
    } else if p.action == "read"@ && p.kind == "edges"@ {
        GraphGrantsView { read_edges: granted_name(s.read_edges, p.name), ..s }
    } else if p.action == "write"@ && p.kind == "nodes"@ {
        GraphGrantsView { write_nodes: granted_name(s.write_nodes, p.name), ..s }
    } else if p.action == "write"@ && p.kind == "edges"@ {
        GraphGrantsView { write_edges: granted_name(s.write_edges, p.name), ..s }
    } else {
        s
    }
}

/// The privileges of a subject with one more.
pub open spec fn granted_privilege(ctx: ContextView, p: PrivilegeView) -> ContextView {
    if p.action == "admin"@ {
        ContextView { admin: true, ..ctx }
    } else if p.graph == WILDCARD@ {
        ContextView { all_graphs: granted_scope(ctx.all_graphs, p), ..ctx }
    } else {
        let scope = if ctx.graphs.dom().contains(p.graph) {
            ctx.graphs[p.graph]
        } else {
            GraphGrantsView::none()
        };
        ContextView { graphs: ctx.graphs.insert(p.graph, granted_scope(scope, p)), ..ctx }
    }
}

fn grant_name(g: &mut Grants, name: &String)
    requires
        old(g).wf(),
    ensures
        final(g).wf(),
        final(g)@ == granted_name(old(g)@, name@),
{
    if text_is(name, WILDCARD) {
        g.wildcard = true;
    } else {
        g.names.insert(name.clone());
    }
}

fn grant_scope(s: &mut GraphGrants, doc: &PrivilegeDoc)
    requires
        old(s).wf(),
    ensures
        final(s).wf(),
        final(s)@ == granted_scope(old(s)@, doc@),
{
    if text_is(&doc.action, "read") && text_is(&doc.kind, "nodes") {
        grant_name(&mut s.read_nodes, &doc.name);
    } else if text_is(&doc.action, "read") && text_is(&doc.kind, "edges") {
        grant_name(&mut s.read_edges, &doc.name);
    } else if text_is(&doc.action, "write") && text_is(&doc.kind, "nodes") {
        grant_name(&mut s.write_nodes, &doc.name);
    } else if text_is(&doc.action, "write") && text_is(&doc.kind, "edges") {
        grant_name(&mut s.write_edges, &doc.name);
    }
}

/// Adds one privilege to those of a subject.
pub fn apply_privilege(ctx: &mut SecurityContext, doc: &PrivilegeDoc)
    requires
        old(ctx).wf(),
    ensures
        final(ctx).wf(),
        final(ctx)@ == granted_privilege(old(ctx)@, doc@),
{
    let ghost before = ctx@;
    if text_is(&doc.action, "admin") {
        ctx.admin = true;
        return;
    }
    if text_is(&doc.graph, WILDCARD) {
        grant_scope(&mut ctx.all_graphs, doc);
    } else {
        let mut scope = match ctx.graphs.remove(&doc.graph) {
            Some(scope) => scope,
            None => GraphGrants::new(),
        };
        grant_scope(&mut scope, doc);
        ctx.graphs.insert(doc.graph.clone(), scope);
        assert(ctx@ =~= granted_privilege(before, doc@));
    }
}

/// The privileges of a role, added to those of a subject.
pub open spec fn role_privileges(ctx: ContextView, p: PolicyView, role: Iid) -> ContextView {
    if p.granted.dom().contains(role) {
        fold(
            p.granted[role],
            ctx,
            |c: ContextView, iid: Iid|
                if p.privileges.dom().contains(iid) {
                    granted_privilege(c, p.privileges[iid])
                } else {
                    c
                },
        )
    } else {
        ctx
    }
}

impl Policy {
    /// The privileges of a subject: those of all roles it reaches. A subject
    /// that the policy does not know has none.
    pub open spec fn context_spec(&self, subject: Seq<char>) -> ContextView {
        policy_context(self@, subject)
    }

    fn add_role_privileges(&self, ctx: &mut SecurityContext, role: Iid)
        requires
            self.wf(),
            old(ctx).wf(),
        ensures
            final(ctx).wf(),
            final(ctx)@ == role_privileges(old(ctx)@, self@, role),
    {
        let ghost p = self@;
        let ghost start = ctx@;
        match self.granted.get(&role) {
            None => {},
            Some(list) => {
                assert(p.granted[role] == list@);
                let ghost step = |c: ContextView, iid: Iid|
                    if p.privileges.dom().contains(iid) {
                        granted_privilege(c, p.privileges[iid])
                    } else {
                        c
                    };
                let mut i: usize = 0;
                proof {
                    lemma_fold_all(list@, start, step);
                }
                while i < list.len()
                    invariant
                        i <= list.len(),
                        self.wf(),
                        p == self@,
                        ctx.wf(),
                        step == (|c: ContextView, iid: Iid|
                            if p.privileges.dom().contains(iid) {
                                granted_privilege(c, p.privileges[iid])
                            } else {
                                c
                            }),
                        ctx@ == fold(list@.subrange(0, i as int), start, step),
                    decreases list.len() - i,
                {
                    proof {
                        lemma_fold_step(list@, start, step, i as int);
                    }
                    match self.privileges.get(&list[i]) {
                        Some(doc) => {
                            apply_privilege(ctx, doc);
                        },
                        None => {},
                    }
                    i += 1;
                }
                proof {
                    lemma_fold_all(list@, start, step);
                }
            },
        }
    }

    /// The privileges of a subject.
    pub fn context_for_subject(&self, subject: &str) -> (r: SecurityContext)
        requires
            self.wf(),
        ensures
            r.wf(),
            r@ == self.context_spec(subject@),
    {
        let ghost p = self@;
        let mut ctx = SecurityContext::new();
        let user = match self.users.get(&subject.to_owned()) {
            Some(u) => *u,
            None => {
                return ctx;
            },
        };
        let roles = self.transitive_roles(user);
        let ghost items = roles.items();
        let ghost step = |c: ContextView, role: Iid| role_privileges(c, p, role);
        let n = roles.len();
        let mut i: usize = 0;
        proof {
            lemma_set_items_sorted(roles);
            lemma_fold_all(items, ContextView::none(), step);
        }
        while i < n
            invariant
                i <= n,
                n == items.len(),
                items == roles.items(),
                self.wf(),
                p == self@,
                ctx.wf(),
                step == (|c: ContextView, role: Iid| role_privileges(c, p, role)),
                ctx@ == fold(items.subrange(0, i as int), ContextView::none(), step),
            decreases n - i,
        {
            proof {
                lemma_fold_step(items, ContextView::none(), step, i as int);
            }
            self.add_role_privileges(&mut ctx, *roles.item_at(i));
            i += 1;
        }
        proof {
            lemma_fold_all(items, ContextView::none(), step);
        }
        ctx
    }
}

/// The privileges that a policy gives a subject.
pub open spec fn policy_context(p: PolicyView, subject: Seq<char>) -> ContextView {
    if !p.users.dom().contains(subject) {
        ContextView::none()
    } else {
        fold(
            sorted_seq::<Iid>(roles_of(p, p.users[subject])),
            ContextView::none(),
            |c: ContextView, role: Iid| role_privileges(c, p, role),
        )
    }
}

/// All that one set of grants allows, the other allows too.
pub open spec fn grants_within(a: GrantsView, b: GrantsView) -> bool {
    forall|n: Seq<char>| #[trigger] a.allows(n) ==> b.allows(n)
}

pub open spec fn scope_within(a: GraphGrantsView, b: GraphGrantsView) -> bool {
    &&& grants_within(a.read_nodes, b.read_nodes)
    &&& grants_within(a.read_edges, b.read_edges)
    &&& grants_within(a.write_nodes, b.write_nodes)
    &&& grants_within(a.write_edges, b.write_edges)
}

/// All that one subject may do, the other may do too, in every graph.
pub open spec fn context_within(a: ContextView, b: ContextView) -> bool {
    &&& (a.admin ==> b.admin)
    &&& forall|g: Seq<char>| scope_within(#[trigger] a.graph_grants(g), b.graph_grants(g))
}

/// A privilege only adds: whatever was allowed stays allowed.
pub proof fn law_privileges_only_add(ctx: ContextView, p: PrivilegeView)
    ensures
        context_within(ctx, granted_privilege(ctx, p)),
{
    let after = granted_privilege(ctx, p);
    assert forall|g: Seq<char>| scope_within(
        #[trigger] ctx.graph_grants(g),
        after.graph_grants(g),
    ) by {
        let a = ctx.graph_grants(g);
        let b = after.graph_grants(g);
        assert forall|n: Seq<char>| #[trigger] a.read_nodes.allows(n) implies b.read_nodes.allows(
            n,
        ) by {}
        assert forall|n: Seq<char>| #[trigger] a.read_edges.allows(n) implies b.read_edges.allows(
            n,
        ) by {}
        assert forall|n: Seq<char>| #[trigger]
            a.write_nodes.allows(n) implies b.write_nodes.allows(n) by {}
        assert forall|n: Seq<char>| #[trigger]
            a.write_edges.allows(n) implies b.write_edges.allows(n) by {}
    }
}

/// A subject that the policy does not know may do nothing, in no graph.
pub proof fn law_unknown_subjects_may_do_nothing(
    p: PolicyView,
    subject: Seq<char>,
    graph: Seq<char>,
    name: Seq<char>,
)
    requires
        !p.users.dom().contains(subject),
    ensures
        ({
            let ctx = policy_context(p, subject);
            let g = ctx.graph_grants(graph);
            &&& !ctx.admin
            &&& !g.read_nodes.allows(name)
            &&& !g.read_edges.allows(name)
            &&& !g.write_nodes.allows(name)
            &&& !g.write_edges.allows(name)
        }),
{
}

/// The subject may do the action to an element of the kind and name.
pub open spec fn permits(
    ctx: ContextView,
    write: bool,
    edges: bool,
    graph: Seq<char>,
    name: Seq<char>,
) -> bool {
    let g = ctx.graph_grants(graph);
    let grants = if write && edges {
        g.write_edges
    } else if write {
        g.write_nodes
    } else if edges {
        g.read_edges
    } else {
        g.read_nodes
    };
    grants.wildcard || grants.names.contains(name)
}

/// The privilege is one for the action, the kind, the graph and the name; a
/// star stands for every graph or every name.
pub open spec fn covers(
    p: PrivilegeView,
    write: bool,
    edges: bool,
    graph: Seq<char>,
    name: Seq<char>,
) -> bool {
    &&& p.action == if write {
        "write"@
    } else {
        "read"@
    }
    &&& p.kind == if edges {
        "edges"@
    } else {
        "nodes"@
    }
    &&& (p.graph == "*"@ || p.graph == graph)
    &&& (p.name == "*"@ || p.name == name)
}

proof fn lemma_privilege_words()
    ensures
        "read"@ != "write"@,
        "read"@ != "admin"@,
        "write"@ != "admin"@,
        "nodes"@ != "edges"@,
{
    reveal_strlit("read");
    reveal_strlit("write");
    reveal_strlit("admin");
    reveal_strlit("nodes");
    reveal_strlit("edges");
    assert("read"@.len() != "write"@.len());
    assert("read"@.len() != "admin"@.len());
    assert("write"@[0] != "admin"@[0]);
    assert("nodes"@[0] != "edges"@[0]);
}

/// A privilege permits what it covers, besides what was permitted before, and
/// nothing else. Only the administrator's privilege makes an administrator.
pub proof fn law_a_privilege_permits_what_it_covers(
    ctx: ContextView,
    p: PrivilegeView,
    write: bool,
    edges: bool,
    graph: Seq<char>,
    name: Seq<char>,
)
    ensures
        permits(granted_privilege(ctx, p), write, edges, graph, name) <==> permits(
            ctx,
            write,
            edges,
            graph,
            name,
        ) || covers(p, write, edges, graph, name),
        granted_privilege(ctx, p).admin <==> ctx.admin || p.action == "admin"@,
{
    lemma_privilege_words();
}

/// Some privilege of the list covers it.
pub open spec fn some_covers(
    p: PolicyView,
    iids: Seq<Iid>,
    write: bool,
    edges: bool,
    graph: Seq<char>,
    name: Seq<char>,
) -> bool {
    exists|i: int|
        0 <= i < iids.len() && p.privileges.dom().contains(#[trigger] iids[i]) && covers(
            p.privileges[iids[i]],
            write,
            edges,
            graph,
            name,
        )
}

/// Some privilege of the list is the administrator's.
pub open spec fn some_admin(p: PolicyView, iids: Seq<Iid>) -> bool {
    exists|i: int|
        0 <= i < iids.len() && p.privileges.dom().contains(#[trigger] iids[i])
            && p.privileges[iids[i]].action == "admin"@
}

proof fn lemma_privileges_permit(
    ctx: ContextView,
    p: PolicyView,
    iids: Seq<Iid>,
    write: bool,
    edges: bool,
    graph: Seq<char>,
    name: Seq<char>,
)
    ensures
        ({
            let after = fold(
                iids,
                ctx,
                |c: ContextView, iid: Iid|
                    if p.privileges.dom().contains(iid) {
                        granted_privilege(c, p.privileges[iid])
                    } else {
                        c
                    },
            );
            &&& (permits(after, write, edges, graph, name) <==> permits(
                ctx,
                write,
                edges,
                graph,
                name,
            ) || some_covers(p, iids, write, edges, graph, name))
            &&& (after.admin <==> ctx.admin || some_admin(p, iids))
        }),
    decreases iids.len(),
{
    let step = |c: ContextView, iid: Iid|
        if p.privileges.dom().contains(iid) {
            granted_privilege(c, p.privileges[iid])
        } else {
            c
        };
    if iids.len() > 0 {
        let front = iids.drop_last();
        let last = iids.last();
        lemma_privileges_permit(ctx, p, front, write, edges, graph, name);
        let before = fold(front, ctx, step);
        if p.privileges.dom().contains(last) {
            law_a_privilege_permits_what_it_covers(
                before,
                p.privileges[last],
                write,
                edges,
                graph,
                name,
            );
        }
        assert(iids[iids.len() - 1] == last);
        if some_covers(p, front, write, edges, graph, name) {
            let i = choose|i: int|
                0 <= i < front.len() && p.privileges.dom().contains(#[trigger] front[i]) && covers(
                    p.privileges[front[i]],
                    write,
                    edges,
                    graph,
                    name,
                );
            assert(iids[i] == front[i]);
        }
        if some_admin(p, front) {
            let i = choose|i: int|
                0 <= i < front.len() && p.privileges.dom().contains(#[trigger] front[i])
                    && p.privileges[front[i]].action == "admin"@;
            assert(iids[i] == front[i]);
        }
        if some_covers(p, iids, write, edges, graph, name) {
            let i = choose|i: int|
                0 <= i < iids.len() && p.privileges.dom().contains(#[trigger] iids[i]) && covers(
                    p.privileges[iids[i]],
                    write,
                    edges,
                    graph,
                    name,
                );
            if i < front.len() {
                assert(front[i] == iids[i]);
            }
        }
        if some_admin(p, iids) {
            let i = choose|i: int|
                0 <= i < iids.len() && p.privileges.dom().contains(#[trigger] iids[i])
                    && p.privileges[iids[i]].action == "admin"@;
            if i < front.len() {
                assert(front[i] == iids[i]);
            }
        }
    }
}

/// The role is granted a privilege that covers it.
pub open spec fn role_covers(
    p: PolicyView,
    role: Iid,
    write: bool,
    edges: bool,
    graph: Seq<char>,
    name: Seq<char>,
) -> bool {
    p.granted.dom().contains(role) && some_covers(p, p.granted[role], write, edges, graph, name)
}

/// The role is granted the administrator's privilege.
pub open spec fn role_is_admin(p: PolicyView, role: Iid) -> bool {
    p.granted.dom().contains(role) && some_admin(p, p.granted[role])
}

proof fn lemma_roles_permit(
    p: PolicyView,
    roles: Seq<Iid>,
    write: bool,
    edges: bool,
    graph: Seq<char>,
    name: Seq<char>,
)
    ensures
        ({
            let ctx = fold(
                roles,
                ContextView::none(),
                |c: ContextView, role: Iid| role_privileges(c, p, role),
            );
            &&& (permits(ctx, write, edges, graph, name) <==> exists|i: int|
                0 <= i < roles.len() && role_covers(
                    p,
                    #[trigger] roles[i],
                    write,
                    edges,
                    graph,
                    name,
                ))
            &&& (ctx.admin <==> exists|i: int|
                0 <= i < roles.len() && role_is_admin(p, #[trigger] roles[i]))
        }),
    decreases roles.len(),
{
    let step = |c: ContextView, role: Iid| role_privileges(c, p, role);
    if roles.len() > 0 {
        let front = roles.drop_last();
        let last = roles.last();
        lemma_roles_permit(p, front, write, edges, graph, name);
        let before = fold(front, ContextView::none(), step);
        if p.granted.dom().contains(last) {
            lemma_privileges_permit(before, p, p.granted[last], write, edges, graph, name);
        }
        let ctx = fold(roles, ContextView::none(), step);
        assert(roles[roles.len() - 1] == last);
        if exists|i: int|
            0 <= i < front.len() && role_covers(p, #[trigger] front[i], write, edges, graph, name) {
            let i = choose|i: int|
                0 <= i < front.len() && role_covers(
                    p,
                    #[trigger] front[i],
                    write,
                    edges,
                    graph,
                    name,
                );
            assert(roles[i] == front[i]);
        }
        if exists|i: int|
            0 <= i < roles.len() && role_covers(p, #[trigger] roles[i], write, edges, graph, name) {
            let i = choose|i: int|
                0 <= i < roles.len() && role_covers(
                    p,
                    #[trigger] roles[i],
                    write,
                    edges,
                    graph,
                    name,
                );
            if i < front.len() {
                assert(front[i] == roles[i]);
            }
        }
        if exists|i: int| 0 <= i < front.len() && role_is_admin(p, #[trigger] front[i]) {
            let i = choose|i: int| 0 <= i < front.len() && role_is_admin(p, #[trigger] front[i]);
            assert(roles[i] == front[i]);
        }
        if exists|i: int| 0 <= i < roles.len() && role_is_admin(p, #[trigger] roles[i]) {
            let i = choose|i: int| 0 <= i < roles.len() && role_is_admin(p, #[trigger] roles[i]);
            if i < front.len() {
                assert(front[i] == roles[i]);
            }
        }
    }
}

/// A known subject may do exactly what a privilege covers that one of the roles
/// it reaches is granted. It is an administrator exactly where one of these
/// roles is granted that.
pub proof fn law_subjects_may_do_what_their_roles_cover(
    p: PolicyView,
    subject: Seq<char>,
    write: bool,
    edges: bool,
    graph: Seq<char>,
    name: Seq<char>,
)
    requires
        p.users.dom().contains(subject),
        p.roles.dom().finite(),
    ensures
        permits(policy_context(p, subject), write, edges, graph, name) <==> exists|role: Iid|
            roles_of(p, p.users[subject]).contains(role) && #[trigger] role_covers(
                p,
                role,
                write,
                edges,
                graph,
                name,
            ),
        policy_context(p, subject).admin <==> exists|role: Iid|
            roles_of(p, p.users[subject]).contains(role) && #[trigger] role_is_admin(p, role),
{
    let all = roles_of(p, p.users[subject]);
    let roles = sorted_seq::<Iid>(all);
    assert forall|r: Iid| all.contains(r) implies p.roles.dom().contains(r) by {
        let n = choose|n: nat| reaches(p, p.users[subject], r, n);
        reveal_with_fuel(reaches, 2);
    }
    vstd::set_lib::lemma_set_subset_finite(p.roles.dom(), all);
    lemma_sorted_exists::<Iid>(all);
    lemma_roles_permit(p, roles, write, edges, graph, name);
    let ctx = policy_context(p, subject);
    if permits(ctx, write, edges, graph, name) {
        let i = choose|i: int|
            0 <= i < roles.len() && role_covers(p, #[trigger] roles[i], write, edges, graph, name);
        assert(roles.to_set().contains(roles[i]));
    }
    if exists|role: Iid|
        all.contains(role) && #[trigger] role_covers(p, role, write, edges, graph, name) {
        let role = choose|role: Iid|
            all.contains(role) && #[trigger] role_covers(p, role, write, edges, graph, name);
        assert(roles.to_set().contains(role));
        assert(role_covers(p, roles[roles.index_of(role)], write, edges, graph, name));
    }
    if ctx.admin {
        let i = choose|i: int| 0 <= i < roles.len() && role_is_admin(p, #[trigger] roles[i]);
        assert(roles.to_set().contains(roles[i]));
    }
    if exists|role: Iid| all.contains(role) && #[trigger] role_is_admin(p, role) {
        let role = choose|role: Iid| all.contains(role) && #[trigger] role_is_admin(p, role);
        assert(roles.to_set().contains(role));
        assert(role_is_admin(p, roles[roles.index_of(role)]));
    }
}

/// The roles that are reached are those of which the start is a member, those
/// of which one of these is a member, and so on over any distance, and no
/// others.
pub proof fn law_roles_are_reached_over_any_distance(p: PolicyView, start: Iid, s: Set<Iid>)
    ensures
        forall|b: Iid|
            p.member_of.dom().contains(start) && p.member_of[start].contains(b)
                && #[trigger] p.roles.dom().contains(b) ==> roles_of(p, start).contains(b),
        forall|a: Iid, b: Iid|
            roles_of(p, start).contains(a) && p.member_of.dom().contains(a)
                && #[trigger] p.member_of[a].contains(b) && p.roles.dom().contains(b) ==> roles_of(
                p,
                start,
            ).contains(b),
        (forall|a: Iid, b: Iid|
            (a == start || s.contains(a)) && p.member_of.dom().contains(a)
                && #[trigger] p.member_of[a].contains(b) && p.roles.dom().contains(b)
                ==> s.contains(b)) ==> roles_of(p, start).subset_of(s),
{
    assert forall|b: Iid|
        p.member_of.dom().contains(start) && p.member_of[start].contains(b)
            && #[trigger] p.roles.dom().contains(b) implies roles_of(p, start).contains(b) by {
        lemma_step_reaches(p, start, start, b);
    }
    assert forall|a: Iid, b: Iid|
        roles_of(p, start).contains(a) && p.member_of.dom().contains(a)
            && #[trigger] p.member_of[a].contains(b) && p.roles.dom().contains(b) implies roles_of(
        p,
        start,
    ).contains(b) by {
        lemma_step_reaches(p, start, a, b);
    }
    if forall|a: Iid, b: Iid|
        (a == start || s.contains(a)) && p.member_of.dom().contains(a)
            && #[trigger] p.member_of[a].contains(b) && p.roles.dom().contains(b)
            ==> s.contains(b) {
        assert forall|r: Iid| roles_of(p, start).contains(r) implies s.contains(r) by {
            let n = choose|n: nat| reaches(p, start, r, n);
            assert forall|b: Iid| direct_member(p, start, b) implies s.contains(b) by {
                assert(p.member_of[start].contains(b));
            }
            assert forall|a: Iid, b: Iid|
                s.contains(a) && #[trigger] direct_member(p, a, b) implies s.contains(b) by {
                assert(p.member_of[a].contains(b));
            }
            lemma_closed_holds_all(p, start, s, r, n);
        }
    }
}

/// Grants put together allow what one of them allows.
pub proof fn law_merged_grants_allow_both(a: GrantsView, b: GrantsView, name: Seq<char>)
    ensures
        a.merged(b).allows(name) <==> a.wildcard || a.names.contains(name) || b.wildcard
            || b.names.contains(name),
{
}

proof fn lemma_nodes_link_nothing(nodes: Seq<PolicyEntityView>)
    ensures
        ({
            let p = fold(
                nodes,
                PolicyView::empty(),
                |p: PolicyView, e: PolicyEntityView| policy_node(p, e),
            );
            p.member_of == Map::<Iid, Seq<Iid>>::empty() && p.granted == Map::<
                Iid,
                Seq<Iid>,
            >::empty()
        }),
    decreases nodes.len(),
{
    if nodes.len() > 0 {
        lemma_nodes_link_nothing(nodes.drop_last());
    }
}

/// An edge of the policy graph is a membership.
pub open spec fn is_membership(e: PolicyEntityView, a: Iid, b: Iid) -> bool {
    e.labels.contains("MEMBER_OF"@) && e.src == Some(a) && e.dst == Some(b)
}

/// An edge of the policy graph is a grant.
pub open spec fn is_grant_edge(e: PolicyEntityView, a: Iid, b: Iid) -> bool {
    e.labels.contains("GRANTED"@) && !e.labels.contains("MEMBER_OF"@) && e.src == Some(a) && e.dst
        == Some(b)
}

proof fn lemma_pushed<T>(s: Seq<T>, x: T, y: T)
    ensures
        s.push(x).contains(y) <==> s.contains(y) || y == x,
        seq![x].contains(y) <==> y == x,
{
    if s.contains(y) {
        assert(s.push(x)[s.index_of(y)] == y);
    }
    if y == x {
        assert(s.push(x)[s.len() as int] == y);
        assert(seq![x][0] == y);
    }
    if s.push(x).contains(y) && y != x {
        let k = s.push(x).index_of(y);
        assert(s[k] == y);
    }
}

proof fn lemma_edges_link(
    start: PolicyView,
    edges: Seq<PolicyEntityView>,
    a: Iid,
    b: Iid,
)
    requires
        start.member_of == Map::<Iid, Seq<Iid>>::empty(),
        start.granted == Map::<Iid, Seq<Iid>>::empty(),
    ensures
        ({
            let p = fold(edges, start, |p: PolicyView, e: PolicyEntityView| policy_edge(p, e));
            &&& (p.member_of.dom().contains(a) && p.member_of[a].contains(b) <==> exists|i: int|
                0 <= i < edges.len() && is_membership(#[trigger] edges[i], a, b))
            &&& (p.granted.dom().contains(a) && p.granted[a].contains(b) <==> exists|i: int|
                0 <= i < edges.len() && is_grant_edge(#[trigger] edges[i], a, b))
            &&& p.users == start.users
            &&& p.roles == start.roles
            &&& p.privileges == start.privileges
        }),
    decreases edges.len(),
{
    let step = |p: PolicyView, e: PolicyEntityView| policy_edge(p, e);
    if edges.len() > 0 {
        let front = edges.drop_last();
        let e = edges.last();
        lemma_edges_link(start, front, a, b);
        let v = fold(front, start, step);
        assert(edges[edges.len() - 1] == e);
        if e.src is Some && e.dst is Some {
            if v.member_of.dom().contains(a) {
                lemma_pushed(v.member_of[a], e.dst->0, b);
            }
            if v.granted.dom().contains(a) {
                lemma_pushed(v.granted[a], e.dst->0, b);
            }
            lemma_pushed(Seq::<Iid>::empty(), e.dst->0, b);
        }
        if exists|i: int| 0 <= i < front.len() && is_membership(#[trigger] front[i], a, b) {
            let i = choose|i: int| 0 <= i < front.len() && is_membership(#[trigger] front[i], a, b);
            assert(edges[i] == front[i]);
        }
        if exists|i: int| 0 <= i < edges.len() && is_membership(#[trigger] edges[i], a, b) {
            let i = choose|i: int| 0 <= i < edges.len() && is_membership(#[trigger] edges[i], a, b);
            if i < front.len() {
                assert(front[i] == edges[i]);
            }
        }
        if exists|i: int| 0 <= i < front.len() && is_grant_edge(#[trigger] front[i], a, b) {
            let i = choose|i: int| 0 <= i < front.len() && is_grant_edge(#[trigger] front[i], a, b);
            assert(edges[i] == front[i]);
        }
        if exists|i: int| 0 <= i < edges.len() && is_grant_edge(#[trigger] edges[i], a, b) {
            let i = choose|i: int| 0 <= i < edges.len() && is_grant_edge(#[trigger] edges[i], a, b);
            if i < front.len() {
                assert(front[i] == edges[i]);
            }
        }
    }
}

/// The loaded policy knows exactly the memberships and the grants that the edges
/// of the policy graph say, each from its source to its destination.
pub proof fn law_policies_hold_what_the_edges_say(
    nodes: Seq<PolicyEntityView>,
    edges: Seq<PolicyEntityView>,
    a: Iid,
    b: Iid,
)
    ensures
        ({
            let p = policy_spec(nodes, edges);
            &&& (p.member_of.dom().contains(a) && p.member_of[a].contains(b) <==> exists|i: int|
                0 <= i < edges.len() && is_membership(#[trigger] edges[i], a, b))
            &&& (p.granted.dom().contains(a) && p.granted[a].contains(b) <==> exists|i: int|
                0 <= i < edges.len() && is_grant_edge(#[trigger] edges[i], a, b))
        }),
{
    lemma_nodes_link_nothing(nodes);
    lemma_edges_link(
        fold(
            nodes,
            PolicyView::empty(),
            |p: PolicyView, e: PolicyEntityView| policy_node(p, e),
        ),
        edges,
        a,
        b,
    );
}

/// A node of the policy graph that names a role.
pub open spec fn is_role_node(e: PolicyEntityView) -> bool {
    e.labels.contains("Role"@) && !e.labels.contains("User"@) && e.doc.dom().contains("name"@)
        && e.doc["name"@] is Str
}

/// A node of the policy graph that is a privilege.
pub open spec fn is_privilege_node(e: PolicyEntityView) -> bool {
    e.labels.contains("Privilege"@) && !e.labels.contains("User"@) && !e.labels.contains("Role"@)
}

/// A node of the policy graph that names a subject.
pub open spec fn is_user_node(e: PolicyEntityView, subject: Seq<char>) -> bool {
    e.labels.contains("User"@) && e.doc.dom().contains("subject"@) && e.doc["subject"@]
        == ValueView::Str(subject)
}

proof fn lemma_policy_nodes(nodes: Seq<PolicyEntityView>, i: int)
    requires
        0 <= i < nodes.len(),
        forall|k: int| i < k < nodes.len() ==> (#[trigger] nodes[k]).iid != nodes[i].iid,
    ensures
        ({
            let p = fold(
                nodes,
                PolicyView::empty(),
                |p: PolicyView, e: PolicyEntityView| policy_node(p, e),
            );
            let e = nodes[i];
            &&& (is_role_node(e) ==> p.roles.dom().contains(e.iid) && e.doc["name"@]
                == ValueView::Str(p.roles[e.iid]))
            &&& (is_privilege_node(e) ==> p.privileges.dom().contains(e.iid) && (
            e.doc.dom().contains("action"@) && e.doc["action"@] is Str ==> e.doc["action"@]
                == ValueView::Str(p.privileges[e.iid].action)) && (e.doc.dom().contains("graph"@)
                && e.doc["graph"@] is Str ==> e.doc["graph"@] == ValueView::Str(
                p.privileges[e.iid].graph,
            )) && (e.doc.dom().contains("kind"@) && e.doc["kind"@] is Str ==> e.doc["kind"@]
                == ValueView::Str(p.privileges[e.iid].kind)) && (e.doc.dom().contains("name"@)
                && e.doc["name"@] is Str ==> e.doc["name"@] == ValueView::Str(
                p.privileges[e.iid].name,
            )))
        }),
    decreases nodes.len(),
{
    if i < nodes.len() - 1 {
        let front = nodes.drop_last();
        assert forall|k: int| i < k < front.len() implies (#[trigger] front[k]).iid
            != front[i].iid by {
            assert(front[k] == nodes[k]);
        }
        lemma_policy_nodes(front, i);
        assert(nodes[nodes.len() - 1].iid != nodes[i].iid);
    }
}

proof fn lemma_policy_users(nodes: Seq<PolicyEntityView>, i: int, subject: Seq<char>)
    requires
        0 <= i < nodes.len(),
        is_user_node(nodes[i], subject),
        forall|k: int| i < k < nodes.len() ==> !is_user_node(#[trigger] nodes[k], subject),
    ensures
        ({
            let p = fold(
                nodes,
                PolicyView::empty(),
                |p: PolicyView, e: PolicyEntityView| policy_node(p, e),
            );
            p.users.dom().contains(subject) && p.users[subject] == nodes[i].iid
        }),
    decreases nodes.len(),
{
    if i < nodes.len() - 1 {
        let front = nodes.drop_last();
        assert forall|k: int| i < k < front.len() implies !is_user_node(
            #[trigger] front[k],
            subject,
        ) by {
            assert(front[k] == nodes[k]);
        }
        lemma_policy_users(front, i, subject);
        let e = nodes[nodes.len() - 1];
        assert(!is_user_node(e, subject));
    }
}

/// The loaded policy knows every role and every privilege that the nodes of the
/// policy graph say, with the name of the one and the scope of the other.
pub proof fn law_policies_hold_what_the_nodes_say(
    nodes: Seq<PolicyEntityView>,
    edges: Seq<PolicyEntityView>,
    i: int,
)
    requires
        0 <= i < nodes.len(),
        forall|k: int| i < k < nodes.len() ==> (#[trigger] nodes[k]).iid != nodes[i].iid,
    ensures
        ({
            let p = policy_spec(nodes, edges);
            let e = nodes[i];
            &&& (is_role_node(e) ==> p.roles.dom().contains(e.iid) && e.doc["name"@]
                == ValueView::Str(p.roles[e.iid]))
            &&& (is_privilege_node(e) ==> p.privileges.dom().contains(e.iid) && (
            e.doc.dom().contains("action"@) && e.doc["action"@] is Str ==> e.doc["action"@]
                == ValueView::Str(p.privileges[e.iid].action)) && (e.doc.dom().contains("graph"@)
                && e.doc["graph"@] is Str ==> e.doc["graph"@] == ValueView::Str(
                p.privileges[e.iid].graph,
            )) && (e.doc.dom().contains("kind"@) && e.doc["kind"@] is Str ==> e.doc["kind"@]
                == ValueView::Str(p.privileges[e.iid].kind)) && (e.doc.dom().contains("name"@)
                && e.doc["name"@] is Str ==> e.doc["name"@] == ValueView::Str(
                p.privileges[e.iid].name,
            )))
        }),
{
    let start = fold(
        nodes,
        PolicyView::empty(),
        |p: PolicyView, e: PolicyEntityView| policy_node(p, e),
    );
    lemma_policy_nodes(nodes, i);
    lemma_nodes_link_nothing(nodes);
    lemma_edges_link(start, edges, nodes[i].iid, nodes[i].iid);
}

/// The loaded policy finds a subject at the last node that names it.
pub proof fn law_policies_find_subjects(
    nodes: Seq<PolicyEntityView>,
    edges: Seq<PolicyEntityView>,
    i: int,
    subject: Seq<char>,
)
    requires
        0 <= i < nodes.len(),
        is_user_node(nodes[i], subject),
        forall|k: int| i < k < nodes.len() ==> !is_user_node(#[trigger] nodes[k], subject),
    ensures
        policy_spec(nodes, edges).users.dom().contains(subject),
        policy_spec(nodes, edges).users[subject] == nodes[i].iid,
{
    let start = fold(
        nodes,
        PolicyView::empty(),
        |p: PolicyView, e: PolicyEntityView| policy_node(p, e),
    );
    lemma_policy_users(nodes, i, subject);
    lemma_nodes_link_nothing(nodes);
    lemma_edges_link(start, edges, nodes[i].iid, nodes[i].iid);
}

} // verus!
