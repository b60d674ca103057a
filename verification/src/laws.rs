//! Laws of the policy model: what building, evaluating, and merging
//! guarantee for every input.

use vstd::prelude::*;

use crate::encoding::u64_be_bytes;
use crate::model::{
    ActionListModel, ActionsModel, ConfigModel, KeyModel, NodeModel, StatementModel,
};
use crate::statement::IdentifierModel;

verus! {

/// The empty node allows nothing: no resource, no action.
pub proof fn lemma_empty_denies(resource: Seq<KeyModel>, action: Seq<Seq<char>>)
    ensures
        !NodeModel::empty().allows(resource, action),
{
}

/// Default deny: a policy built from no statements allows nothing.
pub proof fn lemma_default_deny(resource: Seq<KeyModel>, action: Seq<Seq<char>>)
    ensures
        !NodeModel::build(Seq::empty()).allows(resource, action),
{
    lemma_empty_denies(resource, action);
}

/// An action-trie union grants exactly what either operand grants.
pub proof fn lemma_actions_union_allows(a: ActionsModel, b: ActionsModel, path: Seq<Seq<char>>)
    ensures
        a.union_with(b).allows(path) == (a.allows(path) || b.allows(path)),
    decreases b,
{
    match b {
        ActionsModel::Denied => {},
        ActionsModel::All => {},
        ActionsModel::Branch(m) => {
            if !(a is All) {
                let u = a.union_with(b);
                let mine = a.branch_map();
                if path.len() > 0 {
                    let k = path[0];
                    if m.dom().contains(k) {
                        let sub = if mine.dom().contains(k) {
                            mine[k]
                        } else {
                            ActionsModel::Denied
                        };
                        lemma_actions_union_allows(sub, m[k], path.skip(1));
                    }
                }
            }
        },
    }
}

/// A node union allows exactly what either operand allows.
pub proof fn lemma_union_allows(
    a: NodeModel,
    b: NodeModel,
    resource: Seq<KeyModel>,
    action: Seq<Seq<char>>,
)
    ensures
        a.union_with(b).allows(resource, action) == (a.allows(resource, action) || b.allows(
            resource,
            action,
        )),
    decreases b, resource.len(),
{
    lemma_actions_union_allows(a.allowed, b.allowed, action);
    let u = a.union_with(b);
    if resource.len() > 0 {
        let rest = resource.skip(1);
        let k = resource[0];
        if b.children.dom().contains(k) {
            lemma_union_allows(a.child_or_empty(k), b.children[k], rest, action);
            if !a.children.dom().contains(k) {
                lemma_empty_denies(rest, action);
            }
        }
        if b.children.dom().contains(KeyModel::Wildcard) {
            lemma_union_allows(
                a.child_or_empty(KeyModel::Wildcard),
                b.children[KeyModel::Wildcard],
                rest,
                action,
            );
            if !a.children.dom().contains(KeyModel::Wildcard) {
                lemma_empty_denies(rest, action);
            }
        }
    }
}

/// Merge is exactly the union: the fold of `all[0]`, ..., `all[n - 1]`
/// allows a pair exactly when some input allows it.
pub proof fn lemma_merged_allows(
    all: Seq<NodeModel>,
    n: int,
    resource: Seq<KeyModel>,
    action: Seq<Seq<char>>,
)
    requires
        0 <= n <= all.len(),
    ensures
        NodeModel::union_of(all, n).allows(resource, action) <==> exists|i: int|
            0 <= i < n && #[trigger] all[i].allows(resource, action),
    decreases n,
{
    if n == 0 {
        lemma_empty_denies(resource, action);
    } else {
        lemma_merged_allows(all, n - 1, resource, action);
        lemma_union_allows(NodeModel::union_of(all, n - 1), all[n - 1], resource, action);
        if NodeModel::union_of(all, n).allows(resource, action) {
            if NodeModel::union_of(all, n - 1).allows(resource, action) {
                let i = choose|i: int| 0 <= i < n - 1 && #[trigger] all[i].allows(resource, action);
                assert(all[i].allows(resource, action));
            } else {
                assert(all[n - 1].allows(resource, action));
            }
        }
    }
}

/// Merge idempotence: merging a policy with itself grants exactly what the
/// policy grants alone.
pub proof fn lemma_merge_idempotent(p: NodeModel, resource: Seq<KeyModel>, action: Seq<Seq<char>>)
    ensures
        NodeModel::union_of(seq![p, p], 2).allows(resource, action) == p.allows(resource, action),
{
    lemma_merged_allows(seq![p, p], 2, resource, action);
    if p.allows(resource, action) {
        assert(seq![p, p][0].allows(resource, action));
    }
}

/// Granting exactly the path `p` on an empty action trie allows an action
/// exactly when `p` is a prefix of it: a grant must cover the full action
/// path, and a granted prefix covers everything below it.
pub proof fn lemma_grant_prefix(p: Seq<Seq<char>>, q: Seq<Seq<char>>)
    ensures
        ActionsModel::Denied.grant(p).allows(q) <==> p.is_prefix_of(q),
    decreases p.len(),
{
    if p.len() == 0 {
        assert(p.is_prefix_of(q)) by {
            assert(p =~= q.subrange(0, 0));
        }
    } else {
        let g = ActionsModel::Denied.grant(p);
        let m = Map::<Seq<char>, ActionsModel>::empty().insert(
            p[0],
            ActionsModel::Denied.grant(p.skip(1)),
        );
        assert(g == ActionsModel::Branch(m));
        lemma_grant_prefix(p.skip(1), q.skip(1));
        if q.len() > 0 && q[0] == p[0] {
            assert(p.is_prefix_of(q) <==> p.skip(1).is_prefix_of(q.skip(1))) by {
                if p.skip(1).is_prefix_of(q.skip(1)) {
                    assert(p =~= q.subrange(0, p.len() as int)) by {
                        assert(forall|i: int|
                            1 <= i < p.len() ==> p[i] == p.skip(1)[i - 1] && #[trigger] q[i]
                                == q.skip(1)[i - 1]);
                        assert(forall|i: int|
                            0 <= i < p.skip(1).len() ==> p.skip(1)[i] == #[trigger] q.skip(1).subrange(
                                0,
                                p.len() - 1,
                            )[i]);
                    }
                }
                if p.is_prefix_of(q) {
                    assert(p.skip(1) =~= q.skip(1).subrange(0, p.len() - 1)) by {
                        assert(forall|i: int|
                            0 <= i < p.len() ==> #[trigger] p[i] == q.subrange(
                                0,
                                p.len() as int,
                            )[i]);
                    }
                }
            }
        } else {
            assert(!p.is_prefix_of(q)) by {
                if p.is_prefix_of(q) {
                    assert(p[0] == q.subrange(0, p.len() as int)[0]);
                }
            }
        }
    }
}

/// Granting `p` in any action trie allows every action that `p` is a prefix
/// of, whatever was granted before.
pub proof fn lemma_grant_allows(t: ActionsModel, p: Seq<Seq<char>>, q: Seq<Seq<char>>)
    requires
        p.is_prefix_of(q),
    ensures
        t.grant(p).allows(q),
    decreases p.len(),
{
    if p.len() == 0 {
    } else {
        assert(q[0] == p[0]) by {
            assert(p[0] == q.subrange(0, p.len() as int)[0]);
        }
        assert(p.skip(1).is_prefix_of(q.skip(1))) by {
            assert(p.skip(1) =~= q.skip(1).subrange(0, p.len() - 1)) by {
                assert(forall|i: int|
                    0 <= i < p.len() ==> #[trigger] p[i] == q.subrange(0, p.len() as int)[i]);
            }
        }
        lemma_grant_allows(t.child_or_denied(p[0]), p.skip(1), q.skip(1));
    }
}

/// Wildcard resource matching: a statement on the wildcard resource whose
/// action list ends with a grant of `granted` allows, on every resource with
/// at least one segment, every action that `granted` is a prefix of —
/// whatever statements came before.
pub proof fn lemma_wildcard_grant(
    prior: Seq<StatementModel>,
    names: Seq<Seq<Seq<char>>>,
    configuration: Option<Seq<(Seq<char>, ConfigModel)>>,
    resource: Seq<KeyModel>,
    action: Seq<Seq<char>>,
)
    requires
        resource.len() > 0,
        names.len() > 0,
        names.last().is_prefix_of(action),
    ensures
        NodeModel::build(
            prior.push(
                StatementModel {
                    resources: seq![seq![KeyModel::Wildcard]],
                    actions: Some(ActionListModel::List(names)),
                    configuration,
                },
            ),
        ).allows(resource, action),
{
    let stmt = StatementModel {
        resources: seq![seq![KeyModel::Wildcard]],
        actions: Some(ActionListModel::List(names)),
        configuration,
    };
    let stmts = prior.push(stmt);
    assert(stmts.drop_last() =~= prior);
    assert(stmts.last() == stmt);
    let before = NodeModel::build(prior);
    assert(NodeModel::build(stmts) == before.apply_statement(stmt));
    let after = before.apply_statement(stmt);
    assert(after == before.apply_resources(stmt, 1));
    assert(before.apply_resources(stmt, 0) == before);
    let path = stmt.resources[0];
    assert(path =~= seq![KeyModel::Wildcard]);
    assert(after == before.apply_at(path, stmt.actions, stmt.configuration));
    let child = before.child_or_empty(KeyModel::Wildcard);
    assert(path.skip(1) =~= Seq::<KeyModel>::empty());
    let leaf = child.apply_at(Seq::empty(), stmt.actions, stmt.configuration);
    assert(after.children == before.children.insert(KeyModel::Wildcard, leaf)) by {
        assert(path[0] == KeyModel::Wildcard);
    }
    assert(leaf.allowed == child.allowed.grant_all(names));
    assert(child.allowed.grant_all(names) == child.allowed.grant_all(names.drop_last()).grant(
        names.last(),
    ));
    lemma_grant_allows(child.allowed.grant_all(names.drop_last()), names.last(), action);
    assert(leaf.allowed.allows(action));
    assert(leaf.allows(resource.skip(1), action));
    assert(after.children.dom().contains(KeyModel::Wildcard));
    assert(after.children[KeyModel::Wildcard] == leaf);
}

/// Wildcard resource matching for a grant of all actions: a statement on the
/// wildcard resource granting everything allows every action on every
/// resource with at least one segment, whatever statements came before.
pub proof fn lemma_wildcard_grant_all(
    prior: Seq<StatementModel>,
    configuration: Option<Seq<(Seq<char>, ConfigModel)>>,
    resource: Seq<KeyModel>,
    action: Seq<Seq<char>>,
)
    requires
        resource.len() > 0,
    ensures
        NodeModel::build(
            prior.push(
                StatementModel {
                    resources: seq![seq![KeyModel::Wildcard]],
                    actions: Some(ActionListModel::All),
                    configuration,
                },
            ),
        ).allows(resource, action),
{
    let stmt = StatementModel {
        resources: seq![seq![KeyModel::Wildcard]],
        actions: Some(ActionListModel::All),
        configuration,
    };
    let stmts = prior.push(stmt);
    assert(stmts.drop_last() =~= prior);
    assert(stmts.last() == stmt);
    let before = NodeModel::build(prior);
    let after = before.apply_statement(stmt);
    assert(after == before.apply_resources(stmt, 1));
    assert(before.apply_resources(stmt, 0) == before);
    let path = stmt.resources[0];
    assert(path =~= seq![KeyModel::Wildcard]);
    let child = before.child_or_empty(KeyModel::Wildcard);
    assert(path.skip(1) =~= Seq::<KeyModel>::empty());
    let leaf = child.apply_at(Seq::empty(), stmt.actions, stmt.configuration);
    assert(after.children == before.children.insert(KeyModel::Wildcard, leaf)) by {
        assert(path[0] == KeyModel::Wildcard);
    }
    assert(leaf.allowed == ActionsModel::All);
    assert(leaf.allows(resource.skip(1), action));
}

/// Whether a statement's resource path covers the resource `r`: the path is
/// no longer than `r`, and matches it segment by segment, exactly or through
/// the wildcard. A grant on a path covers every resource below it.
pub open spec fn resource_covers(path: Seq<KeyModel>, r: Seq<KeyModel>) -> bool {
    &&& path.len() <= r.len()
    &&& forall|i: int| 0 <= i < path.len() ==> path[i] == r[i] || path[i] == KeyModel::Wildcard
}

/// The action trie one statement's grant compiles to on a fresh node.
pub open spec fn grant_of(actions: Option<ActionListModel>) -> ActionsModel {
    match actions {
        None => ActionsModel::Denied,
        Some(ActionListModel::All) => ActionsModel::All,
        Some(ActionListModel::List(names)) => ActionsModel::Denied.grant_all(names),
    }
}

/// Applying one grant along a path to the empty node allows exactly the
/// pairs whose resource the path covers and whose action the grant covers.
proof fn lemma_apply_empty_allows(
    path: Seq<KeyModel>,
    actions: Option<ActionListModel>,
    configuration: Option<Seq<(Seq<char>, ConfigModel)>>,
    r: Seq<KeyModel>,
    a: Seq<Seq<char>>,
)
    ensures
        NodeModel::empty().apply_at(path, actions, configuration).allows(r, a) <==> (
        resource_covers(path, r) && grant_of(actions).allows(a)),
    decreases path.len(),
{
    let n = NodeModel::empty().apply_at(path, actions, configuration);
    if path.len() == 0 {
        assert(n.allowed == grant_of(actions));
        assert(resource_covers(path, r));
        assert(!(r.len() > 0 && (n.children.dom().contains(r[0]) || n.children.dom().contains(
            KeyModel::Wildcard,
        ))));
    } else {
        let child = NodeModel::empty().apply_at(path.skip(1), actions, configuration);
        assert(n.children == Map::<KeyModel, NodeModel>::empty().insert(path[0], child));
        assert(n.allowed == ActionsModel::Denied);
        if r.len() == 0 {
            assert(!resource_covers(path, r));
        } else {
            lemma_apply_empty_allows(path.skip(1), actions, configuration, r.skip(1), a);
            assert(forall|k: KeyModel| #[trigger] n.children.dom().contains(k) <==> k == path[0]);
            assert(n.allows(r, a) <==> ((path[0] == r[0] || path[0] == KeyModel::Wildcard)
                && child.allows(r.skip(1), a)));
            assert(resource_covers(path, r) <==> ((path[0] == r[0] || path[0]
                == KeyModel::Wildcard) && resource_covers(path.skip(1), r.skip(1)))) by {
                if (path[0] == r[0] || path[0] == KeyModel::Wildcard) && resource_covers(
                    path.skip(1),
                    r.skip(1),
                ) {
                    assert forall|i: int| 0 <= i < path.len() implies path[i] == r[i] || path[i]
                        == KeyModel::Wildcard by {
                        if i > 0 {
                            assert(path.skip(1)[i - 1] == path[i] && r.skip(1)[i - 1] == r[i]);
                        }
                    }
                }
                if resource_covers(path, r) {
                    assert forall|i: int|
                        0 <= i < path.skip(1).len() implies path.skip(1)[i] == r.skip(1)[i]
                        || path.skip(1)[i] == KeyModel::Wildcard by {
                        assert(path[i + 1] == r[i + 1] || path[i + 1] == KeyModel::Wildcard);
                    }
                }
            }
        }
    }
}

/// Exact grant: the policy built from one statement granting all actions on
/// one resource path allows exactly the pairs whose resource that path
/// covers.
pub proof fn lemma_single_statement_all(
    path: Seq<KeyModel>,
    configuration: Option<Seq<(Seq<char>, ConfigModel)>>,
    r: Seq<KeyModel>,
    a: Seq<Seq<char>>,
)
    ensures
        NodeModel::build(
            seq![
                StatementModel {
                    resources: seq![path],
                    actions: Some(ActionListModel::All),
                    configuration,
                },
            ],
        ).allows(r, a) <==> resource_covers(path, r),
{
    lemma_single_statement_unfold(path, Some(ActionListModel::All), configuration);
    lemma_apply_empty_allows(path, Some(ActionListModel::All), configuration, r, a);
}

/// Exact grant: the policy built from one statement granting one action name
/// on one resource path allows exactly the pairs whose resource that path
/// covers and whose action the name is a prefix of.
pub proof fn lemma_single_statement_action(
    path: Seq<KeyModel>,
    name: Seq<Seq<char>>,
    configuration: Option<Seq<(Seq<char>, ConfigModel)>>,
    r: Seq<KeyModel>,
    a: Seq<Seq<char>>,
)
    ensures
        NodeModel::build(
            seq![
                StatementModel {
                    resources: seq![path],
                    actions: Some(ActionListModel::List(seq![name])),
                    configuration,
                },
            ],
        ).allows(r, a) <==> (resource_covers(path, r) && name.is_prefix_of(a)),
{
    let actions = Some(ActionListModel::List(seq![name]));
    lemma_single_statement_unfold(path, actions, configuration);
    lemma_apply_empty_allows(path, actions, configuration, r, a);
    assert(seq![name].drop_last() =~= Seq::<Seq<Seq<char>>>::empty());
    assert(seq![name].last() == name);
    assert(ActionsModel::Denied.grant_all(Seq::empty()) == ActionsModel::Denied);
    assert(grant_of(actions) == ActionsModel::Denied.grant(name));
    lemma_grant_prefix(name, a);
}

/// A single-statement, single-resource policy is the statement's grant
/// applied along its path to the empty node.
proof fn lemma_single_statement_unfold(
    path: Seq<KeyModel>,
    actions: Option<ActionListModel>,
    configuration: Option<Seq<(Seq<char>, ConfigModel)>>,
)
    ensures
        NodeModel::build(
            seq![StatementModel { resources: seq![path], actions, configuration }],
        ) == NodeModel::empty().apply_at(path, actions, configuration),
{
    let stmt = StatementModel { resources: seq![path], actions, configuration };
    let stmts = seq![stmt];
    assert(stmts.drop_last() =~= Seq::<StatementModel>::empty());
    assert(stmts.last() == stmt);
    assert(NodeModel::build(Seq::<StatementModel>::empty()) == NodeModel::empty());
    assert(NodeModel::build(stmts) == NodeModel::empty().apply_statement(stmt));
    assert(NodeModel::empty().apply_resources(stmt, 0) == NodeModel::empty());
    assert(stmt.resources[0] == path);
}

/// The policy built from the one statement allowing everything on the
/// wildcard resource allows every action on every resource with at least one
/// segment.
pub proof fn lemma_allow_all_grants(resource: Seq<KeyModel>, action: Seq<Seq<char>>)
    requires
        resource.len() > 0,
    ensures
        NodeModel::build(
            seq![
                StatementModel {
                    resources: seq![seq![KeyModel::Wildcard]],
                    actions: Some(ActionListModel::All),
                    configuration: None,
                },
            ],
        ).allows(resource, action),
{
    let stmt = StatementModel {
        resources: seq![seq![KeyModel::Wildcard]],
        actions: Some(ActionListModel::All),
        configuration: None,
    };
    lemma_wildcard_grant_all(Seq::empty(), None, resource, action);
    assert(Seq::<StatementModel>::empty().push(stmt) =~= seq![stmt]);
}

/// Identifier equality is an equivalence relation over canonical keys:
/// reflexive, symmetric, and transitive.
pub proof fn lemma_identifier_equivalence(
    a: IdentifierModel,
    b: IdentifierModel,
    c: IdentifierModel,
)
    ensures
        a.key() == a.key(),
        (a.key() == b.key()) == (b.key() == a.key()),
        (a.key() == b.key() && b.key() == c.key()) ==> a.key() == c.key(),
        (a.key() == IdentifierModel::Any.key()) <==> (a is Any),
{
}

/// Cross-variant identifier equality: an integer identifier equals the byte
/// identifier holding its big-endian encoding, equals a text identifier
/// exactly when the text's encoding is those bytes, and never equals the
/// wildcard.
pub proof fn lemma_identifier_cross_variant(x: u64, t: Seq<char>, b: Seq<u8>)
    ensures
        IdentifierModel::Integer(x).key() == IdentifierModel::Bytes(u64_be_bytes(x)).key(),
        (IdentifierModel::Integer(x).key() == IdentifierModel::Text(t).key()) <==> (
        vstd::utf8::encode_utf8(t) == u64_be_bytes(x)),
        (IdentifierModel::Bytes(b).key() == IdentifierModel::Text(t).key()) <==> (
        vstd::utf8::encode_utf8(t) == b),
        IdentifierModel::Integer(x).key() != IdentifierModel::Any.key(),
{
}

/// Configuration precedence: when one statement sets `key` for the specific
/// resource `x` and another sets the same key at the wildcard resource, a
/// lookup for `x` returns the resource-specific value, in whichever order
/// the two statements appear.
pub proof fn lemma_config_precedence(
    x: KeyModel,
    key: Seq<char>,
    specific: ConfigModel,
    wild: ConfigModel,
    specific_first: bool,
)
    requires
        x is Concrete,
    ensures
        ({
            let s_specific = StatementModel {
                resources: seq![seq![x]],
                actions: None,
                configuration: Some(seq![(key, specific)]),
            };
            let s_wild = StatementModel {
                resources: seq![seq![KeyModel::Wildcard]],
                actions: None,
                configuration: Some(seq![(key, wild)]),
            };
            let stmts = if specific_first {
                seq![s_specific, s_wild]
            } else {
                seq![s_wild, s_specific]
            };
            NodeModel::build(stmts).get(seq![x], key) == Some(specific)
        }),
{
    let s_specific = StatementModel {
        resources: seq![seq![x]],
        actions: None,
        configuration: Some(seq![(key, specific)]),
    };
    let s_wild = StatementModel {
        resources: seq![seq![KeyModel::Wildcard]],
        actions: None,
        configuration: Some(seq![(key, wild)]),
    };
    let stmts = if specific_first {
        seq![s_specific, s_wild]
    } else {
        seq![s_wild, s_specific]
    };
    assert(stmts.drop_last() =~= seq![stmts[0]]);
    assert(seq![stmts[0]].drop_last() =~= Seq::<StatementModel>::empty());
    assert(seq![stmts[0]].last() == stmts[0]);
    assert(NodeModel::build(Seq::<StatementModel>::empty()) == NodeModel::empty());
    let step1 = NodeModel::build(seq![stmts[0]]);
    assert(step1 == NodeModel::empty().apply_statement(stmts[0]));
    let built = NodeModel::build(stmts);
    assert(stmts.last() == stmts[1]);
    assert(built == step1.apply_statement(stmts[1]));
    lemma_config_one(NodeModel::empty(), s_specific);
    lemma_config_one(NodeModel::empty(), s_wild);
    if specific_first {
        lemma_config_one(step1, s_wild);
    } else {
        lemma_config_one(step1, s_specific);
    }
    let node_x = built.children[x];
    assert(node_x.configuration[key] == specific);
    assert(node_x.get(Seq::empty(), key) == Some(specific));
    assert(built.get(seq![x], key) == Some(specific)) by {
        assert(seq![x].len() == 1);
        assert(seq![x][0] == x);
        assert(seq![x].skip(1) =~= Seq::<KeyModel>::empty());
        assert(built.children.dom().contains(x));
    }
}

/// Applying a single-resource, configuration-only statement creates or
/// updates exactly the node at its one-segment path, filling in its
/// configuration keys that were absent.
proof fn lemma_config_one(n: NodeModel, stmt: StatementModel)
    requires
        stmt.resources.len() == 1,
        stmt.resources[0].len() == 1,
        stmt.actions is None,
        stmt.configuration matches Some(entries) && entries.len() == 1,
    ensures
        ({
            let k = stmt.resources[0][0];
            let entry = stmt.configuration->0[0];
            let child = n.child_or_empty(k);
            let leafcfg = if child.configuration.dom().contains(entry.0) {
                child.configuration
            } else {
                child.configuration.insert(entry.0, entry.1)
            };
            n.apply_statement(stmt) == NodeModel {
                children: n.children.insert(
                    k,
                    NodeModel {
                        children: child.children,
                        allowed: child.allowed,
                        configuration: leafcfg,
                    },
                ),
                allowed: n.allowed,
                configuration: n.configuration,
            }
        }),
{
    let k = stmt.resources[0][0];
    let entries = stmt.configuration->0;
    assert(n.apply_statement(stmt) == n.apply_resources(stmt, 1));
    assert(n.apply_resources(stmt, 0) == n);
    let path = stmt.resources[0];
    assert(path.skip(1) =~= Seq::<KeyModel>::empty());
    assert(path[0] == k);
    let child = n.child_or_empty(k);
    assert(entries.drop_last() =~= Seq::<(Seq<char>, ConfigModel)>::empty());
    assert(entries.last() == entries[0]);
    assert(crate::model::first_wins_union(child.configuration, entries.drop_last())
        == child.configuration);
    let leaf = child.apply_at(Seq::empty(), stmt.actions, stmt.configuration);
    let entry = entries[0];
    let leafcfg = if child.configuration.dom().contains(entry.0) {
        child.configuration
    } else {
        child.configuration.insert(entry.0, entry.1)
    };
    assert(leaf.configuration == leafcfg);
    assert(leaf.children == child.children);
    assert(leaf.allowed == child.allowed);
    assert(leaf =~~= (NodeModel {
        children: child.children,
        allowed: child.allowed,
        configuration: leafcfg,
    }));
    assert(n.apply_at(path, stmt.actions, stmt.configuration) == NodeModel {
        children: n.children.insert(k, leaf),
        allowed: n.allowed,
        configuration: n.configuration,
    });
}

} // verus!