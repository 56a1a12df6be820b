//! Who may read and write what.

use varve_engine::ast::{
    PrivilegeAction, PrivilegeKind, PrivilegeSpec, RoleTarget, SecurityStmt,
};
use varve_engine::bindings::BindingKind;
use varve_engine::ddl::{privilege_scopes, resolve_security_stmt, PolicyIds};
use varve_engine::doc::Doc;
use varve_engine::effects::{Effects, SideEffects};
use varve_engine::error::EngineError;
use varve_engine::event::{Event, Op};
use varve_engine::program::enforce_write_effects;
use varve_engine::security::{
    edge_only_doc, grant_edge_id, member_edge_id, policy_entity, privilege_node_doc,
    privilege_node_id, role_node_doc, role_node_id, user_node_doc, user_node_id, GraphGrants,
    Policy, PolicyEntity, SecurityEnforcer, SecurityTuning, GRANTED_EDGE, MEMBER_OF_EDGE,
    PRIVILEGE_LABEL, ROLE_LABEL, USER_LABEL,
};
use varve_engine::types::{Iid, Instant};
use varve_engine::visible::{IncidentEdges, Payload, Visible};

fn text(t: &str) -> String {
    t.to_string()
}

fn iid(n: u128) -> Iid {
    Iid { bits: n }
}

fn node(n: u128, label: &str, doc: Doc) -> PolicyEntity {
    PolicyEntity { iid: iid(n), labels: vec![text(label)], doc, src: None, dst: None }
}

fn edge(n: u128, label: &str, src: u128, dst: u128) -> PolicyEntity {
    PolicyEntity {
        iid: iid(n),
        labels: vec![text(label)],
        doc: edge_only_doc(format!("{n}")),
        src: Some(iid(src)),
        dst: Some(iid(dst)),
    }
}

/// `ada` has the role `lead`, which has the role `dev`; `dev` may read the
/// nodes `P` of every graph and write the edges `K` of `g`.
fn policy() -> Policy {
    let nodes = vec![
        node(1, USER_LABEL, user_node_doc("ada")),
        node(2, ROLE_LABEL, role_node_doc("lead")),
        node(3, ROLE_LABEL, role_node_doc("dev")),
        node(4, PRIVILEGE_LABEL, privilege_node_doc("read", "*", "nodes", "P")),
        node(5, PRIVILEGE_LABEL, privilege_node_doc("write", "g", "edges", "K")),
    ];
    let edges = vec![
        edge(10, MEMBER_OF_EDGE, 1, 2),
        edge(11, MEMBER_OF_EDGE, 2, 3),
        edge(12, GRANTED_EDGE, 3, 4),
        edge(13, GRANTED_EDGE, 3, 5),
    ];
    Policy::load_policy(&nodes, &edges)
}

#[test]
fn elements_of_the_policy_have_fixed_names() {
    assert_eq!(user_node_id("ada"), "user:ada");
    assert_eq!(role_node_id("dev"), "role:dev");
    assert_eq!(privilege_node_id("read", "g", "nodes", "P"), "priv:read:nodes:g:P");
    assert_eq!(member_edge_id("user:ada", "role:dev"), "member:user:ada>role:dev");
    assert_eq!(grant_edge_id("role:dev", "priv:x"), "grant:role:dev>priv:x");
}

#[test]
fn roles_are_inherited() {
    let ctx = policy().context_for_subject("ada");
    assert!(!ctx.admin);
    let g = ctx.graph_grants("g");
    assert!(g.read_nodes.allows("P"));
    assert!(!g.read_nodes.allows("Q"));
    assert!(g.write_edges.allows("K"));
    let other = ctx.graph_grants("h");
    assert!(other.read_nodes.allows("P"));
    assert!(!other.write_edges.allows("K"));
}

#[test]
fn unknown_users_may_do_nothing() {
    let grants = policy().context_for_subject("eve").graph_grants("g");
    assert!(!grants.read_nodes.allows("P"));
    assert!(!grants.unrestricted());
}

#[test]
fn the_policy_is_listed_in_order() {
    let p = policy();
    assert_eq!(p.role_names(), vec!["dev", "lead"]);
    let rows = p.grant_rows(&None);
    let shown: Vec<String> = rows
        .iter()
        .map(|r| format!("{} {} {} {} {}", r.role, r.action, r.graph, r.kind, r.name))
        .collect();
    assert_eq!(shown, vec!["dev read * nodes P", "dev write g edges K"]);
    assert!(p.grant_rows(&Some(RoleTarget::User(text("eve")))).is_empty());
}

#[test]
fn enforcement_spares_administrators() {
    let tuning = |enabled| SecurityTuning { enabled, admins: vec![text("root")] };
    let p = policy();
    let mut on = SecurityEnforcer::new(tuning(true));
    assert!(on.enforces("ada") && !on.enforces("root"));
    let ctx = on.resolve_cached("ada", 1, &p);
    assert!(on.enforcement_for(&ctx, "ada", "g").is_some());
    assert!(!on.is_admin(&ctx, "ada"));
    assert!(on.is_admin(&ctx, "root"));
    // What was resolved is kept until the policy changes.
    assert!(on.cached("ada", 1).is_some());
    assert!(on.cached("ada", 2).is_none());
    let off = SecurityEnforcer::new(tuning(false));
    assert!(!off.enforces("ada"));
}

fn event(op: Op) -> Event {
    Event {
        iid: iid(50),
        system_from: Instant::from_micros(1),
        valid_from: Instant::from_micros(1),
        valid_to: Instant::end_of_time(),
        src: None,
        dst: None,
        op,
    }
}

#[test]
fn denied_labels_are_named_in_order() {
    let mut effects = Effects::new();
    effects.push_node(event(Op::Put {
        labels: vec![text("Z"), text("A"), text("P")],
        doc: Doc::new(),
    }));
    let mut grants = GraphGrants::new();
    grants.write_nodes.names.insert(text("P"));
    let refused =
        enforce_write_effects(&effects, &grants, &Visible::new(), "ada", "g").unwrap_err();
    assert!(matches!(
        refused,
        EngineError::AccessDenied(t)
            if t == "user 'ada' lacks WRITE on node labels [\"A\", \"Z\"] in graph 'g'"
    ));
    grants.write_nodes.wildcard = true;
    assert!(enforce_write_effects(&effects, &grants, &Visible::new(), "ada", "g").is_ok());
}

#[test]
fn what_an_element_was_governs_its_deletion() {
    let mut effects = Effects::new();
    effects.push_node(event(Op::Delete));
    let mut visible = Visible::new();
    visible.put(
        BindingKind::Node,
        iid(50),
        Payload { labels: vec![text("Q")], doc: Doc::new() },
    );
    let mut grants = GraphGrants::new();
    grants.write_nodes.names.insert(text("P"));
    assert!(enforce_write_effects(&effects, &grants, &visible, "ada", "g").is_err());
    grants.write_nodes.names.insert(text("Q"));
    assert!(enforce_write_effects(&effects, &grants, &visible, "ada", "g").is_ok());
}

fn ids() -> PolicyIds {
    let mut ids = PolicyIds::new();
    ids.nodes.insert(text("role:dev"), iid(3));
    ids.nodes.insert(text("user:ada"), iid(1));
    ids.edges.insert(text("member:user:ada>role:dev"), iid(10));
    ids
}

#[test]
fn roles_are_created_once() {
    let create = SecurityStmt::CreateRole(text("dev"));
    let at = Instant::from_micros(4);
    let none = IncidentEdges::new();
    let effects =
        resolve_security_stmt(&create, &ids(), &Visible::new(), &none, at).unwrap();
    assert_eq!(effects.nodes.len(), 1);
    assert_eq!(effects.nodes[0].iid, iid(3));
    let mut visible = Visible::new();
    visible.put(
        BindingKind::Node,
        iid(3),
        Payload { labels: vec![text(ROLE_LABEL)], doc: role_node_doc("dev") },
    );
    assert!(matches!(
        resolve_security_stmt(&create, &ids(), &visible, &none, at),
        Err(EngineError::Security(t)) if t == "role 'dev' already exists"
    ));
    let grant = SecurityStmt::GrantRole {
        role: text("dev"),
        to: RoleTarget::User(text("ada")),
    };
    let effects = resolve_security_stmt(&grant, &ids(), &visible, &none, at).unwrap();
    assert_eq!(effects.nodes.len(), 1);
    assert_eq!(effects.edges.len(), 1);
    assert_eq!(effects.edges[0].src, Some(iid(1)));
    assert_eq!(effects.edges[0].dst, Some(iid(3)));
    assert!(matches!(
        resolve_security_stmt(&grant, &ids(), &Visible::new(), &none, at),
        Err(EngineError::Security(t)) if t == "unknown role 'dev'"
    ));
    let own = SecurityStmt::GrantRole {
        role: text("dev"),
        to: RoleTarget::Role(text("dev")),
    };
    assert!(matches!(
        resolve_security_stmt(&own, &ids(), &visible, &none, at),
        Err(EngineError::Security(t)) if t == "cannot grant role 'dev' to itself"
    ));
}

#[test]
fn labels_are_limited_where_not_all_are_granted() {
    let mut grants = GraphGrants::new();
    grants.read_edges.names.insert(text("KNOWS"));
    let only = grants.read_edges.only_labels().unwrap();
    assert!(only.contains(&text("KNOWS")) && !only.contains(&text("LIKES")));
    grants.read_edges.wildcard = true;
    assert!(grants.read_edges.only_labels().is_none());
}

/// What is visible once the effects are, beside what was.
fn show(visible: &mut Visible, effects: Effects) {
    for (kind, events) in [(BindingKind::Node, effects.nodes), (BindingKind::Edge, effects.edges)] {
        for event in events {
            if let Op::Put { labels, doc } = event.op {
                visible.put(kind, event.iid, Payload { labels, doc });
            }
        }
    }
}

#[test]
fn grants_made_again_add_nothing() {
    let at = Instant::from_micros(4);
    let none = IncidentEdges::new();
    let mut ids = ids();
    let privileges = [
        privilege_node_id("admin", "*", "*", "*"),
        privilege_node_id("read", "*", "nodes", "P"),
        privilege_node_id("write", "*", "nodes", "P"),
    ];
    for (n, name) in privileges.iter().enumerate() {
        ids.nodes.insert(text(name), iid(20 + n as u128));
        ids.edges.insert(grant_edge_id("role:dev", name), iid(30 + n as u128));
    }
    let grants = [
        SecurityStmt::GrantRole { role: text("dev"), to: RoleTarget::User(text("ada")) },
        SecurityStmt::GrantPrivilege {
            privilege: PrivilegeSpec {
                action: PrivilegeAction::All,
                graph: None,
                kind: PrivilegeKind::Nodes,
                names: Some(vec![text("P")]),
            },
            role: text("dev"),
        },
        SecurityStmt::GrantAdmin { role: text("dev") },
    ];
    for grant in &grants {
        let mut visible = Visible::new();
        visible.put(
            BindingKind::Node,
            iid(3),
            Payload { labels: vec![text(ROLE_LABEL)], doc: role_node_doc("dev") },
        );
        let first = resolve_security_stmt(grant, &ids, &visible, &none, at).unwrap();
        assert!(!first.nodes.is_empty() && !first.edges.is_empty());
        show(&mut visible, first);
        let again = resolve_security_stmt(grant, &ids, &visible, &none, at).unwrap();
        assert!(again.nodes.is_empty() && again.edges.is_empty());
        assert_eq!(again.side_effects, SideEffects::default());
    }
}

#[test]
fn all_is_reading_and_writing() {
    let scopes = privilege_scopes(&PrivilegeSpec {
        action: PrivilegeAction::All,
        graph: None,
        kind: PrivilegeKind::Nodes,
        names: Some(vec![text("P")]),
    })
    .unwrap();
    let shown: Vec<String> = scopes
        .iter()
        .map(|s| format!("{} {} {} {}", s.action, s.graph, s.kind, s.name))
        .collect();
    assert_eq!(shown, vec!["read * nodes P", "write * nodes P"]);
    assert!(matches!(
        privilege_scopes(&PrivilegeSpec {
            action: PrivilegeAction::Read,
            graph: Some(text("__meta")),
            kind: PrivilegeKind::Edges,
            names: None,
        }),
        Err(EngineError::Unsupported(_))
    ));
}

#[test]
fn the_first_put_stands_for_an_entity() {
    let put = |name: &str| {
        event(Op::Put { labels: vec![text(ROLE_LABEL)], doc: role_node_doc(name) })
    };
    let found = policy_entity(&vec![event(Op::Delete), put("a"), put("b")]).unwrap();
    assert!(found.doc.same(&role_node_doc("a")));
    assert!(policy_entity(&vec![event(Op::Delete)]).is_none());
}
