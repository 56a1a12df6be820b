//! Listings of the policy.

use crate::ast::RoleTarget;
use crate::security::{roles_of, Policy, PolicyView, PrivilegeView};
use crate::sorted::{
    lemma_map_keys_sorted, lemma_set_items_sorted, lemma_sorted_domain, models, ordered, sort_keys,
    sorted_seq, OrderedKey, SortedSet,
};
use crate::fold::{fold, lemma_fold_all, lemma_fold_step};
use crate::text::{
    lemma_text_less_transitive, lemma_text_order, same_text, text_before, text_less, views,
};
use crate::types::Iid;
use vstd::prelude::*;

verus! {

/// One line of a grant listing.
#[derive(Debug)]
pub struct GrantRow {
    pub role: String,
    pub action: String,
    pub graph: String,
    pub kind: String,
    pub name: String,
}

#[verifier::ext_equal]
pub struct GrantRowView {
    pub role: Seq<char>,
    pub action: Seq<char>,
    pub graph: Seq<char>,
    pub kind: Seq<char>,
    pub name: Seq<char>,
}

/// The order of texts, decided by `rest` where they are equal.
pub open spec fn text_less_or(a: Seq<char>, b: Seq<char>, rest: bool) -> bool {
    if a == b {
        rest
    } else {
        text_less(a, b)
    }
}

impl OrderedKey for GrantRow {
    type Model = GrantRowView;

    open spec fn model(&self) -> GrantRowView {
        GrantRowView {
            role: self.role@,
            action: self.action@,
            graph: self.graph@,
            kind: self.kind@,
            name: self.name@,
        }
    }

    open spec fn less(a: GrantRowView, b: GrantRowView) -> bool {
        text_less_or(
            a.role,
            b.role,
            text_less_or(
                a.action,
                b.action,
                text_less_or(
                    a.graph,
                    b.graph,
                    text_less_or(a.kind, b.kind, text_less(a.name, b.name)),
                ),
            ),
        )
    }

    proof fn order_laws(a: GrantRowView, b: GrantRowView) {
        lemma_text_order(a.role, b.role);
        lemma_text_order(a.action, b.action);
        lemma_text_order(a.graph, b.graph);
        lemma_text_order(a.kind, b.kind);
        lemma_text_order(a.name, b.name);
        if a.role == b.role && a.action == b.action && a.graph == b.graph && a.kind == b.kind
            && a.name == b.name {
            assert(a =~= b);
        }
    }

    proof fn transitive(a: GrantRowView, b: GrantRowView, c: GrantRowView) {
        lemma_text_order(a.role, c.role);
        lemma_text_order(a.action, c.action);
        lemma_text_order(a.graph, c.graph);
        lemma_text_order(a.kind, c.kind);
        lemma_text_order(a.role, b.role);
        lemma_text_order(a.action, b.action);
        lemma_text_order(a.graph, b.graph);
        lemma_text_order(a.kind, b.kind);
        lemma_text_order(b.role, c.role);
        lemma_text_order(b.action, c.action);
        lemma_text_order(b.graph, c.graph);
        lemma_text_order(b.kind, c.kind);
        if text_less(a.role, b.role) && text_less(b.role, c.role) {
            lemma_text_less_transitive(a.role, b.role, c.role);
        }
        if text_less(a.action, b.action) && text_less(b.action, c.action) {
            lemma_text_less_transitive(a.action, b.action, c.action);
        }
        if text_less(a.graph, b.graph) && text_less(b.graph, c.graph) {
            lemma_text_less_transitive(a.graph, b.graph, c.graph);
        }
        if text_less(a.kind, b.kind) && text_less(b.kind, c.kind) {
            lemma_text_less_transitive(a.kind, b.kind, c.kind);
        }
        if text_less(a.name, b.name) && text_less(b.name, c.name) {
            lemma_text_less_transitive(a.name, b.name, c.name);
        }
    }

    fn before(&self, other: &Self) -> (r: bool) {
        if !same_text(&self.role, &other.role) {
            return text_before(self.role.as_str(), other.role.as_str());
        }
        if !same_text(&self.action, &other.action) {
            return text_before(self.action.as_str(), other.action.as_str());
        }
        if !same_text(&self.graph, &other.graph) {
            return text_before(self.graph.as_str(), other.graph.as_str());
        }
        if !same_text(&self.kind, &other.kind) {
            return text_before(self.kind.as_str(), other.kind.as_str());
        }
        text_before(self.name.as_str(), other.name.as_str())
    }
}

/// The names of a list of roles.
pub open spec fn names_of(roles: Seq<Iid>, p: PolicyView) -> Seq<Seq<char>> {
    roles.map_values(|r: Iid| p.roles[r])
}

/// The lines of one privilege of a role.
pub open spec fn privilege_row(role: Seq<char>, p: PrivilegeView) -> GrantRowView {
    GrantRowView { role, action: p.action, graph: p.graph, kind: p.kind, name: p.name }
}

/// The lines of one role's direct grants, added to those before.
pub open spec fn role_rows(
    rows: Seq<GrantRowView>,
    role: Iid,
    p: PolicyView,
) -> Seq<GrantRowView> {
    if p.roles.dom().contains(role) && p.granted.dom().contains(role) {
        fold(
            p.granted[role],
            rows,
            |rows: Seq<GrantRowView>, iid: Iid|
                if p.privileges.dom().contains(iid) {
                    rows.push(privilege_row(p.roles[role], p.privileges[iid]))
                } else {
                    rows
                },
        )
    } else {
        rows
    }
}

/// The lines of the direct grants of a list of roles.
pub open spec fn roles_rows(roles: Seq<Iid>, p: PolicyView) -> Seq<GrantRowView> {
    fold(
        roles,
        Seq::<GrantRowView>::empty(),
        |rows: Seq<GrantRowView>, role: Iid| role_rows(rows, role, p),
    )
}

/// The first role, by identifier, that bears a name.
pub open spec fn first_named(keys: Seq<Iid>, p: PolicyView, name: Seq<char>, i: int) -> Option<Iid>
    decreases keys.len() - i,
{
    if i < 0 || i >= keys.len() {
        None
    } else if p.roles[keys[i]] == name {
        Some(keys[i])
    } else {
        first_named(keys, p, name, i + 1)
    }
}

/// The roles that a listing covers: all of them; those that a user reaches; or
/// a role and those that it reaches.
pub open spec fn listed_roles(p: PolicyView, target: Option<RoleTarget>) -> Set<Iid> {
    match target {
        None => p.roles.dom(),
        Some(RoleTarget::User(subject)) => if p.users.dom().contains(subject@) {
            roles_of(p, p.users[subject@])
        } else {
            Set::empty()
        },
        Some(RoleTarget::Role(name)) => match first_named(
            sorted_seq::<Iid>(p.roles.dom()),
            p,
            name@,
            0,
        ) {
            Some(iid) => roles_of(p, iid).insert(iid),
            None => Set::empty(),
        },
    }
}

fn row_texts(role: &String, doc: &crate::security::PrivilegeDoc) -> (r: GrantRow)
    ensures
        r.model() == privilege_row(role@, doc@),
{
    GrantRow {
        role: role.clone(),
        action: doc.action.clone(),
        graph: doc.graph.clone(),
        kind: doc.kind.clone(),
        name: doc.name.clone(),
    }
}

impl Policy {
    /// The names of all roles, in order.
    pub fn role_names(&self) -> (r: Vec<String>)
        requires
            self.wf(),
        ensures
            ordered::<String>(views(r@)),
            views(r@).to_multiset() == names_of(
                sorted_seq::<Iid>(self@.roles.dom()),
                self@,
            ).to_multiset(),
    {
        let n = self.roles.len();
        let ghost keys = self.roles.keys();
        let mut names: Vec<String> = Vec::new();
        let mut i: usize = 0;
        proof {
            lemma_sorted_domain(self.roles);
            lemma_map_keys_sorted(self.roles);
            assert(self@.roles.dom() =~= self.roles@.dom());
        }
        while i < n
            invariant
                i <= n,
                n == keys.len(),
                keys == self.roles.keys(),
                forall|k: int|
                    0 <= k < keys.len() ==> self.roles@.dom().contains(#[trigger] keys[k])
                        && self.roles@[keys[k]] == self.roles.values()[k],
                names@.len() == i,
                forall|k: int| 0 <= k < i ==> (#[trigger] names@[k])@ == self@.roles[keys[k]],
            decreases n - i,
        {
            proof {
                assert(self.roles@.dom().contains(keys[i as int]));
            }
            names.push(self.roles.value_at(i).clone());
            i += 1;
        }
        assert(models(names@) =~= names_of(keys, self@));
        let r = sort_keys(names);
        assert(models(r@) =~= views(r@));
        r
    }

    fn find_role(&self, name: &String) -> (r: Option<Iid>)
        requires
            self.wf(),
        ensures
            r == first_named(sorted_seq::<Iid>(self@.roles.dom()), self@, name@, 0),
            r matches Some(iid) ==> self@.roles.dom().contains(iid),
    {
        let n = self.roles.len();
        let ghost keys = self.roles.keys();
        let mut i: usize = 0;
        proof {
            lemma_sorted_domain(self.roles);
            lemma_map_keys_sorted(self.roles);
            assert(self@.roles.dom() =~= self.roles@.dom());
        }
        while i < n
            invariant
                i <= n,
                n == keys.len(),
                keys == self.roles.keys(),
                keys == sorted_seq::<Iid>(self@.roles.dom()),
                forall|k: int|
                    0 <= k < keys.len() ==> self.roles@.dom().contains(#[trigger] keys[k])
                        && self.roles@[keys[k]] == self.roles.values()[k],
                first_named(keys, self@, name@, 0) == first_named(keys, self@, name@, i as int),
            decreases n - i,
        {
            proof {
                assert(self.roles@.dom().contains(keys[i as int]));
            }
            if same_text(self.roles.value_at(i), name) {
                return Some(*self.roles.key_at(i));
            }
            i += 1;
        }
        None
    }

    fn all_roles(&self) -> (r: SortedSet<Iid>)
        requires
            self.wf(),
        ensures
            r.wf(),
            r@ == self@.roles.dom(),
    {
        let n = self.roles.len();
        let ghost keys = self.roles.keys();
        let mut set: SortedSet<Iid> = SortedSet::new();
        let mut i: usize = 0;
        proof {
            lemma_sorted_domain(self.roles);
            assert(self@.roles.dom() =~= self.roles@.dom());
        }
        while i < n
            invariant
                i <= n,
                n == keys.len(),
                keys == self.roles.keys(),
                set.wf(),
                keys.to_set() == self@.roles.dom(),
                set@.subset_of(keys.to_set()),
                forall|k: int| 0 <= k < i ==> set@.contains(#[trigger] keys[k]),
            decreases n - i,
        {
            proof {
                assert(keys.to_set().contains(keys[i as int]));
            }
            set.insert(*self.roles.key_at(i));
            i += 1;
        }
        assert(set@ =~= self@.roles.dom()) by {
            assert forall|x: Iid| keys.to_set().contains(x) implies set@.contains(x) by {
                let j = keys.index_of(x);
                assert(keys[j] == x);
            }
        }
        set
    }

    fn listed(&self, target: &Option<RoleTarget>) -> (r: SortedSet<Iid>)
        requires
            self.wf(),
        ensures
            r.wf(),
            r@ == listed_roles(self@, *target),
    {
        match target {
            None => self.all_roles(),
            Some(RoleTarget::User(subject)) => match self.users.get(subject) {
                Some(user) => self.transitive_roles(*user),
                None => SortedSet::new(),
            },
            Some(RoleTarget::Role(name)) => match self.find_role(name) {
                Some(iid) => {
                    let mut roles = self.transitive_roles(iid);
                    roles.insert(iid);
                    roles
                },
                None => SortedSet::new(),
            },
        }
    }

    fn push_role_rows(&self, rows: &mut Vec<GrantRow>, role: Iid)
        requires
            self.wf(),
        ensures
            models(final(rows)@) == role_rows(models(old(rows)@), role, self@),
    {
        let ghost p = self@;
        let ghost start = models(rows@);
        let role_name = match self.roles.get(&role) {
            Some(n) => n,
            None => {
                return;
            },
        };
        let list = match self.granted.get(&role) {
            Some(l) => l,
            None => {
                return;
            },
        };
        assert(p.granted[role] == list@);
        assert(p.roles[role] == role_name@);
        let ghost step = |rows: Seq<GrantRowView>, iid: Iid|
            if p.privileges.dom().contains(iid) {
                rows.push(privilege_row(p.roles[role], p.privileges[iid]))
            } else {
                rows
            };
        let mut i: usize = 0;
        proof {
            lemma_fold_all(list@, start, step);
        }
        while i < list.len()
            invariant
                i <= list.len(),
                self.wf(),
                p == self@,
                p.roles[role] == role_name@,
                step == (|rows: Seq<GrantRowView>, iid: Iid|
                    if p.privileges.dom().contains(iid) {
                        rows.push(privilege_row(p.roles[role], p.privileges[iid]))
                    } else {
                        rows
                    }),
                models(rows@) == fold(list@.subrange(0, i as int), start, step),
            decreases list.len() - i,
        {
            proof {
                lemma_fold_step(list@, start, step, i as int);
            }
            match self.privileges.get(&list[i]) {
                Some(doc) => {
                    let row = row_texts(role_name, doc);
                    let ghost before = models(rows@);
                    let ghost m = row.model();
                    rows.push(row);
                    assert(models(rows@) =~= before.push(m));
                },
                None => {},
            }
            i += 1;
        }
        proof {
            lemma_fold_all(list@, start, step);
        }
    }

    /// The lines of a grant listing, in order: the direct grants of every role
    /// that the listing covers.
    pub fn grant_rows(&self, target: &Option<RoleTarget>) -> (r: Vec<GrantRow>)
        requires
            self.wf(),
        ensures
            ordered::<GrantRow>(models(r@)),
            models(r@).to_multiset() == roles_rows(
                sorted_seq::<Iid>(listed_roles(self@, *target)),
                self@,
            ).to_multiset(),
    {
        let ghost p = self@;
        let roles = self.listed(target);
        let ghost items = roles.items();
        let ghost step = |rows: Seq<GrantRowView>, role: Iid| role_rows(rows, role, p);
        let ghost none = Seq::<GrantRowView>::empty();
        let mut rows: Vec<GrantRow> = Vec::new();
        let n = roles.len();
        let mut i: usize = 0;
        proof {
            lemma_set_items_sorted(roles);
            lemma_fold_all(items, none, step);
            assert(models(rows@) =~= none);
        }
        while i < n
            invariant
                i <= n,
                n == items.len(),
                items == roles.items(),
                self.wf(),
                p == self@,
                step == (|rows: Seq<GrantRowView>, role: Iid| role_rows(rows, role, p)),
                models(rows@) == fold(items.subrange(0, i as int), none, step),
            decreases n - i,
        {
            proof {
                lemma_fold_step(items, none, step, i as int);
            }
            self.push_role_rows(&mut rows, *roles.item_at(i));
            i += 1;
        }
        proof {
            lemma_fold_all(items, none, step);
        }
        sort_keys(rows)
    }
}

} // verus!
