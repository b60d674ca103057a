//! The mathematical model of statements and of the compiled permission trie.
//!
//! Every executable operation of the crate is specified against these ghost
//! types: building a trie from statements, evaluating an action against a
//! resource, looking up configuration, and merging tries.

use vstd::prelude::*;

verus! {

/// The semantic key of one resource segment: `Wildcard` stands for the `Any`
/// identifier, `Concrete(bytes)` for a segment identified by its canonical
/// byte encoding.
pub ghost enum KeyModel {
    Wildcard,
    Concrete(Seq<u8>),
}

/// A configuration value: an unsigned integer, a signed integer, or text.
pub ghost enum ConfigModel {
    Unsigned(u64),
    Signed(i64),
    Text(Seq<char>),
}

/// What an action trie grants at one resource node: nothing, everything, or
/// per-segment subtrees.
#[verifier::ext_equal]
pub ghost enum ActionsModel {
    Denied,
    Branch(Map<Seq<char>, ActionsModel>),
    All,
}

/// One node of the compiled permission trie: children keyed by resource
/// segment, the actions granted at this node, and configuration values.
#[verifier::ext_equal]
pub ghost struct NodeModel {
    pub children: Map<KeyModel, NodeModel>,
    pub allowed: ActionsModel,
    pub configuration: Map<Seq<char>, ConfigModel>,
}

/// The action grant of one statement: everything, or a list of action paths.
pub ghost enum ActionListModel {
    List(Seq<Seq<Seq<char>>>),
    All,
}

/// One declarative statement: the resources it applies to, the actions it
/// grants there, and the configuration values it sets there.
pub ghost struct StatementModel {
    pub resources: Seq<Seq<KeyModel>>,
    pub actions: Option<ActionListModel>,
    pub configuration: Option<Seq<(Seq<char>, ConfigModel)>>,
}

impl ActionsModel {
    /// Whether the action path `path` is granted by this trie: `All` grants
    /// every path, a branch grants a path only if its first segment leads to
    /// a subtree granting the rest.
    pub open spec fn allows(self, path: Seq<Seq<char>>) -> bool
        decreases self,
    {
        match self {
            ActionsModel::Denied => false,
            ActionsModel::All => true,
            ActionsModel::Branch(m) => {
                &&& path.len() > 0
                &&& m.dom().contains(path[0])
                &&& m[path[0]].allows(path.skip(1))
            },
        }
    }

    /// The subtree under `segment`, granting nothing when absent or when this
    /// trie is not a branch.
    pub open spec fn child_or_denied(self, segment: Seq<char>) -> ActionsModel {
        match self {
            ActionsModel::Branch(m) => if m.dom().contains(segment) {
                m[segment]
            } else {
                ActionsModel::Denied
            },
            _ => ActionsModel::Denied,
        }
    }

    /// The branch map of this trie, empty when it is not a branch.
    pub open spec fn branch_map(self) -> Map<Seq<char>, ActionsModel> {
        match self {
            ActionsModel::Branch(m) => m,
            _ => Map::empty(),
        }
    }

    /// The trie after granting exactly the action path `path` here: walks
    /// `path`, turning `Denied` and `All` nodes into branches, and forces the
    /// final node to `All`. Deeper structure off the path is kept.
    pub open spec fn grant(self, path: Seq<Seq<char>>) -> ActionsModel
        decreases path.len(),
    {
        if path.len() == 0 {
            ActionsModel::All
        } else {
            ActionsModel::Branch(
                self.branch_map().insert(
                    path[0],
                    self.child_or_denied(path[0]).grant(path.skip(1)),
                ),
            )
        }
    }

    /// The trie after granting every path of `paths` in order.
    pub open spec fn grant_all(self, paths: Seq<Seq<Seq<char>>>) -> ActionsModel
        decreases paths.len(),
    {
        if paths.len() == 0 {
            self
        } else {
            self.grant_all(paths.drop_last()).grant(paths.last())
        }
    }

    /// The least-restrictive union of this trie with `other`: `All` absorbs,
    /// and branches are merged key-wise.
    pub open spec fn union_with(self, other: ActionsModel) -> ActionsModel
        decreases other,
    {
        match other {
            ActionsModel::Denied => self,
            ActionsModel::All => ActionsModel::All,
            ActionsModel::Branch(m) => {
                if self is All {
                    ActionsModel::All
                } else {
                    let mine = self.branch_map();
                    ActionsModel::Branch(
                        Map::new(
                            |k: Seq<char>| mine.dom().contains(k) || m.dom().contains(k),
                            |k: Seq<char>|
                                if m.dom().contains(k) {
                                    (if mine.dom().contains(k) {
                                        mine[k]
                                    } else {
                                        ActionsModel::Denied
                                    }).union_with(m[k])
                                } else {
                                    mine[k]
                                },
                        ),
                    )
                }
            },
        }
    }
}

/// The map `base` extended with every pair of `entries`, in order, without
/// overwriting a key that is already present.
pub open spec fn first_wins_union(
    base: Map<Seq<char>, ConfigModel>,
    entries: Seq<(Seq<char>, ConfigModel)>,
) -> Map<Seq<char>, ConfigModel>
    decreases entries.len(),
{
    if entries.len() == 0 {
        base
    } else {
        let earlier = first_wins_union(base, entries.drop_last());
        if earlier.dom().contains(entries.last().0) {
            earlier
        } else {
            earlier.insert(entries.last().0, entries.last().1)
        }
    }
}

impl NodeModel {
    /// The node granting nothing: no children, no actions, no configuration.
    pub open spec fn empty() -> NodeModel {
        NodeModel {
            children: Map::empty(),
            allowed: ActionsModel::Denied,
            configuration: Map::empty(),
        }
    }

    /// The child under `key`, empty when absent.
    pub open spec fn child_or_empty(self, key: KeyModel) -> NodeModel {
        if self.children.dom().contains(key) {
            self.children[key]
        } else {
            NodeModel::empty()
        }
    }

    /// Whether `action` is allowed on the resource `resource`: the action
    /// trie of every node whose path matches a prefix of `resource` — segment
    /// by segment, exactly or through the wildcard — is consulted, and any
    /// grant suffices.
    pub open spec fn allows(self, resource: Seq<KeyModel>, action: Seq<Seq<char>>) -> bool
        decreases self,
    {
        ||| (resource.len() > 0 && {
            ||| (self.children.dom().contains(resource[0])
                && self.children[resource[0]].allows(resource.skip(1), action))
            ||| (self.children.dom().contains(KeyModel::Wildcard)
                && self.children[KeyModel::Wildcard].allows(resource.skip(1), action))
        })
        ||| self.allowed.allows(action)
    }

    /// The configuration value for `key` at the deepest node whose path
    /// matches a prefix of `resource`, an exact segment match taking
    /// precedence over a wildcard match, and any child match over this node's
    /// own configuration.
    pub open spec fn get(self, resource: Seq<KeyModel>, key: Seq<char>) -> Option<ConfigModel>
        decreases self,
    {
        let from_children: Option<ConfigModel> = if resource.len() > 0 {
            let exact: Option<ConfigModel> = if self.children.dom().contains(resource[0]) {
                self.children[resource[0]].get(resource.skip(1), key)
            } else {
                None
            };
            if exact is Some {
                exact
            } else if self.children.dom().contains(KeyModel::Wildcard) {
                self.children[KeyModel::Wildcard].get(resource.skip(1), key)
            } else {
                None
            }
        } else {
            None
        };
        if from_children is Some {
            from_children
        } else if self.configuration.dom().contains(key) {
            Some(self.configuration[key])
        } else {
            None
        }
    }

    /// This node after recording one statement's grant and configuration at
    /// the node reached by `path`, creating missing nodes on the way.
    pub open spec fn apply_at(
        self,
        path: Seq<KeyModel>,
        actions: Option<ActionListModel>,
        configuration: Option<Seq<(Seq<char>, ConfigModel)>>,
    ) -> NodeModel
        decreases path.len(),
    {
        if path.len() == 0 {
            let allowed = match actions {
                None => self.allowed,
                Some(ActionListModel::All) => ActionsModel::All,
                Some(ActionListModel::List(paths)) => self.allowed.grant_all(paths),
            };
            let config = match configuration {
                None => self.configuration,
                Some(entries) => first_wins_union(self.configuration, entries),
            };
            NodeModel { children: self.children, allowed, configuration: config }
        } else {
            NodeModel {
                children: self.children.insert(
                    path[0],
                    self.child_or_empty(path[0]).apply_at(path.skip(1), actions, configuration),
                ),
                allowed: self.allowed,
                configuration: self.configuration,
            }
        }
    }

    /// This node after applying one statement to each of its resources, in
    /// order.
    pub open spec fn apply_resources(self, stmt: StatementModel, upto: int) -> NodeModel
        decreases upto,
    {
        if upto <= 0 {
            self
        } else {
            self.apply_resources(stmt, upto - 1).apply_at(
                stmt.resources[upto - 1],
                stmt.actions,
                stmt.configuration,
            )
        }
    }

    /// This node after applying one whole statement.
    pub open spec fn apply_statement(self, stmt: StatementModel) -> NodeModel {
        self.apply_resources(stmt, stmt.resources.len() as int)
    }

    /// The trie compiled from `statements`, applied in order to the empty
    /// node.
    pub open spec fn build(statements: Seq<StatementModel>) -> NodeModel
        decreases statements.len(),
    {
        if statements.len() == 0 {
            NodeModel::empty()
        } else {
            NodeModel::build(statements.drop_last()).apply_statement(statements.last())
        }
    }

    /// The least-restrictive union of this node with `other`: children are
    /// merged key-wise, action tries by [`ActionsModel::union_with`], and for
    /// configuration keys held by both, this node's value is kept.
    pub open spec fn union_with(self, other: NodeModel) -> NodeModel
        decreases other,
    {
        NodeModel {
            children: Map::new(
                |k: KeyModel| self.children.dom().contains(k) || other.children.dom().contains(k),
                |k: KeyModel|
                    if other.children.dom().contains(k) {
                        self.child_or_empty(k).union_with(other.children[k])
                    } else {
                        self.children[k]
                    },
            ),
            allowed: self.allowed.union_with(other.allowed),
            configuration: other.configuration.union_prefer_right(self.configuration),
        }
    }

    /// The union of the nodes `all[0]`, ..., `all[upto - 1]`, folded from the
    /// empty node.
    pub open spec fn union_of(all: Seq<NodeModel>, upto: int) -> NodeModel
        decreases upto,
    {
        if upto <= 0 {
            NodeModel::empty()
        } else {
            NodeModel::union_of(all, upto - 1).union_with(all[upto - 1])
        }
    }
}

} // verus!
