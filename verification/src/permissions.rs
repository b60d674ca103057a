//! The compiled permission trie and its operations: building from
//! statements, evaluating actions, looking up configuration, and merging.

use vstd::prelude::*;

use crate::action::ActionName;
use crate::model::{ActionsModel, ConfigModel, KeyModel, NodeModel};
use crate::statement::{ActionNameList, Configuration, Identifier, ResourceName, Statement};

verus! {

broadcast use {vstd::std_specs::vec::group_vec_axioms, vstd::map::group_map_axioms};

/// What an action trie grants at one resource node: nothing, everything, or
/// per-segment subtrees.
#[derive(Debug)]
pub enum AllowedActions {
    /// Nothing is allowed here.
    Denied,
    /// Each entry leads to what is allowed under that action segment.
    Branch(Vec<(String, AllowedActions)>),
    /// Every action is allowed here.
    All,
}

/// The map an action branch's entries stand for, later entries winning; with
/// unique keys, the order does not matter.
pub open spec fn branch_view(s: Seq<(String, AllowedActions)>) -> Map<Seq<char>, ActionsModel>
    decreases s,
{
    if s.len() == 0 {
        Map::empty()
    } else {
        branch_view(s.drop_last()).insert(s.last().0@, s.last().1@)
    }
}

impl View for AllowedActions {
    type V = ActionsModel;

    open spec fn view(&self) -> ActionsModel
        decreases self,
    {
        match self {
            AllowedActions::Denied => ActionsModel::Denied,
            AllowedActions::All => ActionsModel::All,
            AllowedActions::Branch(entries) => ActionsModel::Branch(branch_view(entries@)),
        }
    }
}

impl AllowedActions {
    /// Well-formed: every branch holds each segment at most once, all the
    /// way down.
    pub open spec fn wf(self) -> bool
        decreases self,
    {
        match self {
            AllowedActions::Branch(entries) => {
                &&& forall|i: int, j: int|
                    0 <= i < j < entries@.len() ==> entries@[i].0@ != entries@[j].0@
                &&& forall|i: int| 0 <= i < entries@.len() ==> (#[trigger] entries@[i].1).wf()
            },
            _ => true,
        }
    }
}

/// One node of the compiled permission trie.
#[derive(Debug)]
pub struct Data {
    /// The children of this node, keyed by resource segment.
    pub children: Vec<(Identifier, Data)>,
    /// The actions allowed at this node.
    pub allowed: AllowedActions,
    /// The configuration values set at this node.
    pub configuration: Vec<(String, Configuration)>,
}

/// The map a node's child entries stand for, keyed by semantic key.
pub open spec fn kids_view(s: Seq<(Identifier, Data)>) -> Map<KeyModel, NodeModel>
    decreases s,
{
    if s.len() == 0 {
        Map::empty()
    } else {
        kids_view(s.drop_last()).insert(s.last().0.key(), s.last().1@)
    }
}

/// The map a node's configuration entries stand for.
pub open spec fn cfg_view(s: Seq<(String, Configuration)>) -> Map<Seq<char>, ConfigModel>
    decreases s.len(),
{
    if s.len() == 0 {
        Map::empty()
    } else {
        cfg_view(s.drop_last()).insert(s.last().0@, s.last().1@)
    }
}

impl View for Data {
    type V = NodeModel;

    open spec fn view(&self) -> NodeModel
        decreases self,
    {
        NodeModel {
            children: kids_view(self.children@),
            allowed: self.allowed@,
            configuration: cfg_view(self.configuration@),
        }
    }
}

impl Data {
    /// Well-formed: children are keyed by distinct semantic keys,
    /// configuration keys are distinct, and the same holds in every child.
    pub open spec fn wf(self) -> bool
        decreases self,
    {
        &&& forall|i: int, j: int|
            0 <= i < j < self.children@.len() ==> self.children@[i].0.key()
                != self.children@[j].0.key()
        &&& forall|i: int|
            0 <= i < self.children@.len() ==> (#[trigger] self.children@[i].1).wf()
        &&& self.allowed.wf()
        &&& forall|i: int, j: int|
            0 <= i < j < self.configuration@.len() ==> self.configuration@[i].0@
                != self.configuration@[j].0@
    }
}

/// How an entry list relates to its map: an entry's key is in the map, and
/// with unique keys the map holds exactly the entry's value.
proof fn lemma_kids_view(s: Seq<(Identifier, Data)>)
    ensures
        forall|k: KeyModel|
            #[trigger] kids_view(s).dom().contains(k) <==> exists|i: int|
                0 <= i < s.len() && s[i].0.key() == k,
        (forall|i: int, j: int| 0 <= i < j < s.len() ==> s[i].0.key() != s[j].0.key())
            ==> forall|i: int|
            0 <= i < s.len() ==> kids_view(s)[(#[trigger] s[i]).0.key()] == s[i].1@,
    decreases s.len(),
{
    if s.len() > 0 {
        lemma_kids_view(s.drop_last());
        let prior = kids_view(s.drop_last());
        assert(kids_view(s) == prior.insert(s.last().0.key(), s.last().1@));
        assert(prior.insert(s.last().0.key(), s.last().1@).dom() == prior.dom().insert(
            s.last().0.key(),
        ));
        assert forall|k: KeyModel| #[trigger]
            kids_view(s).dom().contains(k) implies exists|i: int|
            0 <= i < s.len() && s[i].0.key() == k by {
            if k == s.last().0.key() {
                assert(s[s.len() - 1].0.key() == k);
            } else {
                assert(kids_view(s.drop_last()).dom().contains(k));
                let i = choose|i: int| 0 <= i < s.drop_last().len() && s.drop_last()[i].0.key() == k;
                assert(s.drop_last()[i] == s[i]);
                assert(s[i].0.key() == k);
            }
        }
        assert forall|k: KeyModel|
            (exists|i: int| 0 <= i < s.len() && s[i].0.key() == k) implies #[trigger] kids_view(
            s,
        ).dom().contains(k) by {
            let i = choose|i: int| 0 <= i < s.len() && s[i].0.key() == k;
            if i < s.len() - 1 {
                assert(s.drop_last()[i] == s[i]);
                assert(s.drop_last()[i].0.key() == k);
                assert(kids_view(s.drop_last()).dom().contains(k));
            } else {
                assert(k == s.last().0.key());
            }
        }
        if forall|i: int, j: int| 0 <= i < j < s.len() ==> s[i].0.key() != s[j].0.key() {
            assert forall|i: int| 0 <= i < s.len() implies kids_view(s)[(#[trigger] s[i]).0.key()]
                == s[i].1@ by {
                if i < s.len() - 1 {
                    assert(s[i].0.key() != s[s.len() - 1].0.key());
                    assert(s.drop_last()[i] == s[i]);
                }
            }
        }
    }
}

/// How an action branch's entries relate to their map.
proof fn lemma_branch_view(s: Seq<(String, AllowedActions)>)
    ensures
        forall|k: Seq<char>|
            #[trigger] branch_view(s).dom().contains(k) <==> exists|i: int|
                0 <= i < s.len() && s[i].0@ == k,
        (forall|i: int, j: int| 0 <= i < j < s.len() ==> s[i].0@ != s[j].0@) ==> forall|i: int|
            0 <= i < s.len() ==> branch_view(s)[(#[trigger] s[i]).0@] == s[i].1@,
    decreases s.len(),
{
    if s.len() > 0 {
        lemma_branch_view(s.drop_last());
        let prior = branch_view(s.drop_last());
        assert(branch_view(s) == prior.insert(s.last().0@, s.last().1@));
        assert(prior.insert(s.last().0@, s.last().1@).dom() == prior.dom().insert(
            s.last().0@,
        ));
        assert forall|k: Seq<char>| #[trigger]
            branch_view(s).dom().contains(k) implies exists|i: int|
            0 <= i < s.len() && s[i].0@ == k by {
            if k == s.last().0@ {
                assert(s[s.len() - 1].0@ == k);
            } else {
                assert(branch_view(s.drop_last()).dom().contains(k));
                let i = choose|i: int| 0 <= i < s.drop_last().len() && s.drop_last()[i].0@ == k;
                assert(s.drop_last()[i] == s[i]);
                assert(s[i].0@ == k);
            }
        }
        assert forall|k: Seq<char>|
            (exists|i: int| 0 <= i < s.len() && s[i].0@ == k) implies #[trigger] branch_view(
            s,
        ).dom().contains(k) by {
            let i = choose|i: int| 0 <= i < s.len() && s[i].0@ == k;
            if i < s.len() - 1 {
                assert(s.drop_last()[i] == s[i]);
                assert(s.drop_last()[i].0@ == k);
                assert(branch_view(s.drop_last()).dom().contains(k));
            } else {
                assert(k == s.last().0@);
            }
        }
        if forall|i: int, j: int| 0 <= i < j < s.len() ==> s[i].0@ != s[j].0@ {
            assert forall|i: int| 0 <= i < s.len() implies branch_view(s)[(#[trigger] s[i]).0@]
                == s[i].1@ by {
                if i < s.len() - 1 {
                    assert(s[i].0@ != s[s.len() - 1].0@);
                    assert(s.drop_last()[i] == s[i]);
                }
            }
        }
    }
}

/// How a configuration entry list relates to its map.
proof fn lemma_cfg_view(s: Seq<(String, Configuration)>)
    ensures
        forall|k: Seq<char>|
            #[trigger] cfg_view(s).dom().contains(k) <==> exists|i: int|
                0 <= i < s.len() && s[i].0@ == k,
        (forall|i: int, j: int| 0 <= i < j < s.len() ==> s[i].0@ != s[j].0@) ==> forall|i: int|
            0 <= i < s.len() ==> cfg_view(s)[(#[trigger] s[i]).0@] == s[i].1@,
    decreases s.len(),
{
    if s.len() > 0 {
        lemma_cfg_view(s.drop_last());
        let prior = cfg_view(s.drop_last());
        assert(cfg_view(s) == prior.insert(s.last().0@, s.last().1@));
        assert(prior.insert(s.last().0@, s.last().1@).dom() == prior.dom().insert(
            s.last().0@,
        ));
        assert forall|k: Seq<char>| #[trigger]
            cfg_view(s).dom().contains(k) implies exists|i: int|
            0 <= i < s.len() && s[i].0@ == k by {
            if k == s.last().0@ {
                assert(s[s.len() - 1].0@ == k);
            } else {
                assert(cfg_view(s.drop_last()).dom().contains(k));
                let i = choose|i: int| 0 <= i < s.drop_last().len() && s.drop_last()[i].0@ == k;
                assert(s.drop_last()[i] == s[i]);
                assert(s[i].0@ == k);
            }
        }
        assert forall|k: Seq<char>|
            (exists|i: int| 0 <= i < s.len() && s[i].0@ == k) implies #[trigger] cfg_view(
            s,
        ).dom().contains(k) by {
            let i = choose|i: int| 0 <= i < s.len() && s[i].0@ == k;
            if i < s.len() - 1 {
                assert(s.drop_last()[i] == s[i]);
                assert(s.drop_last()[i].0@ == k);
                assert(cfg_view(s.drop_last()).dom().contains(k));
            } else {
                assert(k == s.last().0@);
            }
        }
        if forall|i: int, j: int| 0 <= i < j < s.len() ==> s[i].0@ != s[j].0@ {
            assert forall|i: int| 0 <= i < s.len() implies cfg_view(s)[(#[trigger] s[i]).0@]
                == s[i].1@ by {
                if i < s.len() - 1 {
                    assert(s[i].0@ != s[s.len() - 1].0@);
                    assert(s.drop_last()[i] == s[i]);
                }
            }
        }
    }
}

impl Data {
    /// The node granting nothing.
    pub fn empty() -> (r: Data)
        ensures
            r@ == NodeModel::empty(),
            r.wf(),
    {
        let r = Data {
            children: Vec::new(),
            allowed: AllowedActions::Denied,
            configuration: Vec::new(),
        };
        assert(r@.children =~= NodeModel::empty().children);
        assert(r@.configuration =~= NodeModel::empty().configuration);
        r
    }

    /// The position of the child whose key matches `id`, if any.
    fn find_child(&self, id: &Identifier) -> (r: Option<usize>)
        ensures
            match r {
                Some(i) => i < self.children@.len() && self.children@[i as int].0.key() == id.key(),
                None => forall|i: int|
                    0 <= i < self.children@.len() ==> (#[trigger] self.children@[i]).0.key()
                        != id.key(),
            },
    {
        let mut i: usize = 0;
        while i < self.children.len()
            invariant
                0 <= i <= self.children@.len(),
                forall|j: int|
                    0 <= j < i ==> (#[trigger] self.children@[j]).0.key() != id.key(),
            decreases self.children@.len() - i,
        {
            if self.children[i].0.key_eq(id) {
                return Some(i);
            }
            i += 1;
        }
        None
    }

    /// The position of the child keyed by the wildcard, if any.
    fn find_wildcard_child(&self) -> (r: Option<usize>)
        ensures
            match r {
                Some(i) => i < self.children@.len() && self.children@[i as int].0.key()
                    is Wildcard,
                None => forall|i: int|
                    0 <= i < self.children@.len() ==> !((#[trigger] self.children@[i]).0.key()
                        is Wildcard),
            },
    {
        let mut i: usize = 0;
        while i < self.children.len()
            invariant
                0 <= i <= self.children@.len(),
                forall|j: int|
                    0 <= j < i ==> !((#[trigger] self.children@[j]).0.key() is Wildcard),
            decreases self.children@.len() - i,
        {
            if self.children[i].0.is_any() {
                return Some(i);
            }
            i += 1;
        }
        None
    }
}

impl AllowedActions {
    /// The position of the first entry of `entries` whose key is `segment`,
    /// if any.
    fn find_segment(entries: &Vec<(String, AllowedActions)>, segment: &String) -> (r: Option<
        usize,
    >)
        ensures
            match r {
                Some(i) => i < entries@.len() && entries@[i as int].0@ == segment@,
                None => forall|j: int|
                    0 <= j < entries@.len() ==> (#[trigger] entries@[j]).0@ != segment@,
            },
    {
        let mut i: usize = 0;
        while i < entries.len()
            invariant
                0 <= i <= entries@.len(),
                forall|j: int| 0 <= j < i ==> (#[trigger] entries@[j]).0@ != segment@,
            decreases entries@.len() - i,
        {
            if entries[i].0 == *segment {
                return Some(i);
            }
            i += 1;
        }
        None
    }

    /// Walks this trie along `action`'s segments: denied as soon as a
    /// segment is missing, allowed as soon as `All` is reached, and a grant
    /// must cover the full path.
    fn allows_path(&self, action: &ActionName) -> (r: bool)
        requires
            self.wf(),
        ensures
            r == self@.allows(action@),
    {
        let mut cur: &AllowedActions = self;
        let mut i: usize = 0;
        assert(action@.skip(0) =~= action@);
        while i < action.0.len()
            invariant
                0 <= i <= action.0@.len(),
                action@.len() == action.0@.len(),
                forall|j: int| 0 <= j < action@.len() ==> action@[j] == action.0@[j]@,
                cur.wf(),
                self@.allows(action@) == cur@.allows(action@.skip(i as int)),
            decreases action.0@.len() - i,
        {
            let ghost rest = action@.skip(i as int);
            assert(rest[0] == action@[i as int]);
            match cur {
                AllowedActions::Denied => {
                    return false;
                },
                AllowedActions::All => {
                    return true;
                },
                AllowedActions::Branch(entries) => {
                    proof {
                        lemma_branch_view(entries@);
                    }
                    match AllowedActions::find_segment(entries, &action.0[i]) {
                        Some(j) => {
                            proof {
                                assert(branch_view(entries@).dom().contains(rest[0]));
                                assert(branch_view(entries@)[rest[0]] == entries@[j as int].1@);
                                assert(rest.skip(1) =~= action@.skip(i as int + 1));
                            }
                            cur = &entries[j].1;
                            i += 1;
                        },
                        None => {
                            proof {
                                assert(!branch_view(entries@).dom().contains(rest[0]));
                            }
                            return false;
                        },
                    }
                },
            }
        }
        proof {
            assert(action@.skip(i as int) =~= Seq::<Seq<char>>::empty());
        }
        match cur {
            AllowedActions::All => true,
            _ => false,
        }
    }
}

impl Data {
    /// The configuration value stored at this node for `key`, if any.
    fn find_config<'s>(&'s self, key: &str) -> (r: Option<&'s Configuration>)
        requires
            forall|i: int, j: int|
                0 <= i < j < self.configuration@.len() ==> self.configuration@[i].0@
                    != self.configuration@[j].0@,
        ensures
            match r {
                Some(c) => cfg_view(self.configuration@).dom().contains(key@) && cfg_view(
                    self.configuration@,
                )[key@] == c@,
                None => !cfg_view(self.configuration@).dom().contains(key@),
            },
    {
        proof {
            lemma_cfg_view(self.configuration@);
        }
        let mut i: usize = 0;
        while i < self.configuration.len()
            invariant
                0 <= i <= self.configuration@.len(),
                forall|j: int| 0 <= j < i ==> (#[trigger] self.configuration@[j]).0@ != key@,
                forall|i: int, j: int|
                    0 <= i < j < self.configuration@.len() ==> self.configuration@[i].0@
                        != self.configuration@[j].0@,
                forall|kk: Seq<char>|
                    #[trigger] cfg_view(self.configuration@).dom().contains(kk) <==> exists|j: int|
                        0 <= j < self.configuration@.len() && self.configuration@[j].0@ == kk,
                forall|j: int|
                    0 <= j < self.configuration@.len() ==> cfg_view(self.configuration@)[(
                    #[trigger] self.configuration@[j]).0@] == self.configuration@[j].1@,
            decreases self.configuration@.len() - i,
        {
            if crate::encoding::str_eq(self.configuration[i].0.as_str(), key) {
                return Some(&self.configuration[i].1);
            }
            i += 1;
        }
        None
    }

    /// Whether `action` is allowed on the resource suffix starting at `at`:
    /// tries the child matching the next segment, then the wildcard child,
    /// and falls back to the actions granted at this node.
    fn allowed_to_at(&self, resource: &[Identifier], at: usize, action: &ActionName) -> (r: bool)
        requires
            self.wf(),
            at <= resource@.len(),
        ensures
            r == self@.allows(
                crate::statement::keys_of(resource.deep_view().skip(at as int)),
                action@,
            ),
        decreases resource@.len() - at,
    {
        let ghost rk = crate::statement::keys_of(resource.deep_view().skip(at as int));
        proof {
            lemma_kids_view(self.children@);
            assert(rk.len() == resource@.len() - at);
        }
        if at < resource.len() {
            proof {
                assert(rk[0] == resource@[at as int]@.key());
                assert(crate::statement::keys_of(resource.deep_view().skip(at as int + 1))
                    =~= rk.skip(1));
            }
            match self.find_child(&resource[at]) {
                Some(i) => {
                    let hit = self.children[i].1.allowed_to_at(resource, at + 1, action);
                    proof {
                        assert(self@.children.dom().contains(rk[0]));
                        assert(self@.children[rk[0]] == self.children@[i as int].1@);
                    }
                    if hit {
                        return true;
                    }
                },
                None => {
                    proof {
                        assert(!self@.children.dom().contains(rk[0]));
                    }
                },
            }
            match self.find_wildcard_child() {
                Some(i) => {
                    let hit = self.children[i].1.allowed_to_at(resource, at + 1, action);
                    proof {
                        assert(self@.children.dom().contains(KeyModel::Wildcard));
                        assert(self@.children[KeyModel::Wildcard] == self.children@[i as int].1@);
                    }
                    if hit {
                        return true;
                    }
                },
                None => {
                    proof {
                        assert(!self@.children.dom().contains(KeyModel::Wildcard));
                    }
                },
            }
        }
        self.allowed.allows_path(action)
    }

    /// The configuration value for `key` on the resource suffix starting at
    /// `at`: the deepest match wins, an exact child before the wildcard
    /// child, and any child match before this node's own configuration.
    pub fn get<'s>(&'s self, resource: &[Identifier], at: usize, key: &str) -> (r: Option<
        &'s Configuration,
    >)
        requires
            self.wf(),
            at <= resource@.len(),
        ensures
            match r {
                Some(c) => self@.get(
                    crate::statement::keys_of(resource.deep_view().skip(at as int)),
                    key@,
                ) == Some(c@),
                None => self@.get(
                    crate::statement::keys_of(resource.deep_view().skip(at as int)),
                    key@,
                ) is None,
            },
        decreases resource@.len() - at,
    {
        let ghost rk = crate::statement::keys_of(resource.deep_view().skip(at as int));
        proof {
            lemma_kids_view(self.children@);
            assert(rk.len() == resource@.len() - at);
        }
        if at < resource.len() {
            proof {
                assert(rk[0] == resource@[at as int]@.key());
                assert(crate::statement::keys_of(resource.deep_view().skip(at as int + 1))
                    =~= rk.skip(1));
            }
            match self.find_child(&resource[at]) {
                Some(i) => {
                    proof {
                        assert(self@.children.dom().contains(rk[0]));
                        assert(self@.children[rk[0]] == self.children@[i as int].1@);
                    }
                    match self.children[i].1.get(resource, at + 1, key) {
                        Some(c) => {
                            return Some(c);
                        },
                        None => {},
                    }
                },
                None => {
                    proof {
                        assert(!self@.children.dom().contains(rk[0]));
                    }
                },
            }
            match self.find_wildcard_child() {
                Some(i) => {
                    proof {
                        assert(self@.children.dom().contains(KeyModel::Wildcard));
                        assert(self@.children[KeyModel::Wildcard] == self.children@[i as int].1@);
                    }
                    match self.children[i].1.get(resource, at + 1, key) {
                        Some(c) => {
                            return Some(c);
                        },
                        None => {},
                    }
                },
                None => {
                    proof {
                        assert(!self@.children.dom().contains(KeyModel::Wildcard));
                    }
                },
            }
        }
        self.find_config(key)
    }
}

/// Replacing an entry by one with the same key replaces the key's value in
/// the entry map, when keys are unique.
proof fn lemma_kids_view_update(s: Seq<(Identifier, Data)>, i: int, pair: (Identifier, Data))
    requires
        0 <= i < s.len(),
        s[i].0.key() == pair.0.key(),
        forall|a: int, b: int| 0 <= a < b < s.len() ==> s[a].0.key() != s[b].0.key(),
    ensures
        kids_view(s.update(i, pair)) == kids_view(s).insert(pair.0.key(), pair.1@),
    decreases s.len(),
{
    let t = s.update(i, pair);
    if i == s.len() - 1 {
        assert(t.drop_last() =~= s.drop_last());
        assert(kids_view(t) == kids_view(s.drop_last()).insert(pair.0.key(), pair.1@));
        assert(kids_view(s.drop_last()).insert(s.last().0.key(), s.last().1@).insert(
            pair.0.key(),
            pair.1@,
        ) =~= kids_view(s.drop_last()).insert(pair.0.key(), pair.1@));
    } else {
        assert(t.drop_last() =~= s.drop_last().update(i, pair));
        assert(s.drop_last()[i] == s[i]);
        lemma_kids_view_update(s.drop_last(), i, pair);
        assert(t.last() == s.last());
        assert(kids_view(t) == kids_view(s.drop_last()).insert(pair.0.key(), pair.1@).insert(
            s.last().0.key(),
            s.last().1@,
        ));
        assert(s[i].0.key() != s[s.len() - 1].0.key());
        assert(kids_view(s.drop_last()).insert(pair.0.key(), pair.1@).insert(
            s.last().0.key(),
            s.last().1@,
        ) =~= kids_view(s.drop_last()).insert(s.last().0.key(), s.last().1@).insert(
            pair.0.key(),
            pair.1@,
        ));
    }
}

/// Replacing an entry by one with the same segment replaces the segment's
/// value in the branch map, when segments are unique.
proof fn lemma_branch_view_update(
    s: Seq<(String, AllowedActions)>,
    i: int,
    pair: (String, AllowedActions),
)
    requires
        0 <= i < s.len(),
        s[i].0@ == pair.0@,
        forall|a: int, b: int| 0 <= a < b < s.len() ==> s[a].0@ != s[b].0@,
    ensures
        branch_view(s.update(i, pair)) == branch_view(s).insert(pair.0@, pair.1@),
    decreases s.len(),
{
    let t = s.update(i, pair);
    if i == s.len() - 1 {
        assert(t.drop_last() =~= s.drop_last());
        assert(branch_view(t) == branch_view(s.drop_last()).insert(pair.0@, pair.1@));
        assert(branch_view(s.drop_last()).insert(s.last().0@, s.last().1@).insert(pair.0@, pair.1@)
            =~= branch_view(s.drop_last()).insert(pair.0@, pair.1@));
    } else {
        assert(t.drop_last() =~= s.drop_last().update(i, pair));
        assert(s.drop_last()[i] == s[i]);
        lemma_branch_view_update(s.drop_last(), i, pair);
        assert(t.last() == s.last());
        assert(branch_view(t) == branch_view(s.drop_last()).insert(pair.0@, pair.1@).insert(
            s.last().0@,
            s.last().1@,
        ));
        assert(s[i].0@ != s[s.len() - 1].0@);
        assert(branch_view(s.drop_last()).insert(pair.0@, pair.1@).insert(s.last().0@, s.last().1@)
            =~= branch_view(s.drop_last()).insert(s.last().0@, s.last().1@).insert(
            pair.0@,
            pair.1@,
        ));
    }
}

impl AllowedActions {
    /// Grants exactly the action path `path[at..]` in this trie: walks the
    /// path, turning `Denied` and `All` nodes into branches, and forces the
    /// final node to `All`. Deeper structure off the path is kept.
    fn grant_path(&mut self, path: &Vec<String>, at: usize)
        requires
            old(self).wf(),
            at <= path@.len(),
        ensures
            final(self).wf(),
            final(self)@ == old(self)@.grant(path.deep_view().skip(at as int)),
        decreases path@.len() - at,
    {
        let ghost p = path.deep_view().skip(at as int);
        if at == path.len() {
            *self = AllowedActions::All;
            return ;
        }
        proof {
            assert(p[0] == path@[at as int]@);
            assert(p.skip(1) =~= path.deep_view().skip(at as int + 1));
        }
        let mut cur = AllowedActions::Denied;
        core::mem::swap(self, &mut cur);
        let ghost before = cur@;
        let mut entries: Vec<(String, AllowedActions)> = match cur {
            AllowedActions::Branch(e) => e,
            _ => Vec::new(),
        };
        proof {
            assert(branch_view(Seq::<(String, AllowedActions)>::empty()) == Map::<
                Seq<char>,
                ActionsModel,
            >::empty());
            assert(branch_view(entries@) == before.branch_map());
            lemma_branch_view(entries@);
        }
        match AllowedActions::find_segment(&entries, &path[at]) {
            Some(j) => {
                proof {
                    assert(before.branch_map().dom().contains(p[0]));
                    assert(before.branch_map()[p[0]] == entries@[j as int].1@);
                    assert(before.child_or_denied(p[0]) == entries@[j as int].1@);
                }
                let ghost pre = entries@;
                let slot = &mut entries[j];
                slot.1.grant_path(path, at + 1);
                proof {
                    assert(entries@ == pre.update(j as int, entries@[j as int]));
                    assert(entries@[j as int].0@ == p[0]);
                    lemma_branch_view_update(pre, j as int, entries@[j as int]);
                }
            },
            None => {
                proof {
                    assert(!before.branch_map().dom().contains(p[0]));
                    assert(before.child_or_denied(p[0]) == ActionsModel::Denied);
                }
                let ghost base = entries@;
                entries.push((path[at].clone(), AllowedActions::Denied));
                let ghost pre = entries@;
                let idx = entries.len() - 1;
                let slot = &mut entries[idx];
                slot.1.grant_path(path, at + 1);
                proof {
                    assert(entries@ == pre.update(idx as int, entries@[idx as int]));
                    assert(entries@.drop_last() =~= base);
                    assert(entries@.last().0@ == p[0]);
                    assert(branch_view(entries@) == branch_view(base).insert(
                        p[0],
                        entries@.last().1@,
                    ));
                    assert(entries@.last().1@ == ActionsModel::Denied.grant(p.skip(1)));
                    assert(forall|a: int, b: int|
                        0 <= a < b < entries@.len() ==> entries@[a].0@ != entries@[b].0@);
                    assert(forall|a: int|
                        0 <= a < entries@.len() ==> (#[trigger] entries@[a].1).wf());
                }
            },
        }
        *self = AllowedActions::Branch(entries);
        assert(final(self)@ == old(self)@.grant(p));
    }
}

/// The grant of an optional action list, as the policy compiler reads it.
pub open spec fn opt_actions_view(a: Option<ActionNameList>) -> Option<
    crate::model::ActionListModel,
> {
    match a {
        Some(list) => Some(list@),
        None => None,
    }
}

/// The entries of an optional configuration list, as the policy compiler
/// reads them.
pub open spec fn opt_cfg_view(c: Option<Vec<(String, Configuration)>>) -> Option<
    Seq<(Seq<char>, ConfigModel)>,
> {
    match c {
        Some(entries) => Some(crate::statement::cfg_entries_view(entries@)),
        None => None,
    }
}

impl Data {
    /// Records one statement's grant and configuration at the node reached by
    /// `path[at..]`, creating missing nodes on the way.
    fn apply_at(
        &mut self,
        path: &Vec<Identifier>,
        at: usize,
        actions: &Option<ActionNameList>,
        configuration: &Option<Vec<(String, Configuration)>>,
    )
        requires
            old(self).wf(),
            at <= path@.len(),
        ensures
            final(self).wf(),
            final(self)@ == old(self)@.apply_at(
                crate::statement::keys_of(path.deep_view().skip(at as int)),
                opt_actions_view(*actions),
                opt_cfg_view(*configuration),
            ),
        decreases path@.len() - at,
    {
        let ghost pk = crate::statement::keys_of(path.deep_view().skip(at as int));
        if at < path.len() {
            proof {
                lemma_kids_view(self.children@);
                assert(pk.len() == path@.len() - at);
                assert(pk[0] == path@[at as int]@.key());
                assert(crate::statement::keys_of(path.deep_view().skip(at as int + 1)) =~= pk.skip(
                    1,
                ));
            }
            match self.find_child(&path[at]) {
                Some(i) => {
                    proof {
                        assert(old(self)@.children.dom().contains(pk[0]));
                        assert(old(self)@.children[pk[0]] == old(self).children@[i as int].1@);
                        assert(old(self)@.child_or_empty(pk[0]) == old(
                            self,
                        ).children@[i as int].1@);
                    }
                    let ghost pre = self.children@;
                    let slot = &mut self.children[i];
                    slot.1.apply_at(path, at + 1, actions, configuration);
                    proof {
                        assert(self.children@ == pre.update(i as int, self.children@[i as int]));
                        assert(self.children@[i as int].0.key() == pk[0]);
                        lemma_kids_view_update(pre, i as int, self.children@[i as int]);
                    }
                },
                None => {
                    proof {
                        assert(!old(self)@.children.dom().contains(pk[0]));
                        assert(old(self)@.child_or_empty(pk[0]) == NodeModel::empty());
                    }
                    let ghost base = self.children@;
                    self.children.push((Data::owned_segment(path, at), Data::empty()));
                    let ghost pre = self.children@;
                    let idx = self.children.len() - 1;
                    let slot = &mut self.children[idx];
                    slot.1.apply_at(path, at + 1, actions, configuration);
                    proof {
                        assert(self.children@ == pre.update(idx as int, self.children@[idx as int]));
                        assert(self.children@.drop_last() =~= base);
                        assert(self.children@.last().0.key() == pk[0]);
                        assert(kids_view(self.children@) == kids_view(base).insert(
                            pk[0],
                            self.children@.last().1@,
                        ));
                        assert(forall|a: int, b: int|
                            0 <= a < b < self.children@.len() ==> self.children@[a].0.key()
                                != self.children@[b].0.key());
                        assert(forall|a: int|
                            0 <= a < self.children@.len() ==> (#[trigger] self.children@[a].1).wf());
                    }
                },
            }
            assert(final(self)@ == old(self)@.apply_at(
                pk,
                opt_actions_view(*actions),
                opt_cfg_view(*configuration),
            ));
            return ;
        }
        assert(pk =~= Seq::<KeyModel>::empty());
        match actions {
            None => {},
            Some(ActionNameList::All) => {
                self.allowed = AllowedActions::All;
            },
            Some(ActionNameList::List(names)) => {
                let ghost before = self.allowed@;
                let ghost paths = names.deep_view();
                let mut n: usize = 0;
                assert(self.allowed@ == before.grant_all(paths.take(0)));
                while n < names.len()
                    invariant
                        0 <= n <= names@.len(),
                        paths == names.deep_view(),
                        paths.len() == names@.len(),
                        self.allowed.wf(),
                        self.allowed@ == before.grant_all(paths.take(n as int)),
                        self.children@ == old(self).children@,
                        self.configuration@ == old(self).configuration@,
                    decreases names@.len() - n,
                {
                    self.allowed.grant_path(&names[n].0, 0);
                    proof {
                        assert(names@[n as int].0.deep_view().skip(0) =~= paths[n as int]);
                        let upto = paths.take(n as int + 1);
                        assert(upto.drop_last() =~= paths.take(n as int));
                        assert(upto.last() == paths[n as int]);
                    }
                    n += 1;
                }
                assert(paths.take(names@.len() as int) =~= paths);
            },
        }
        let ghost allowed_mid = self.allowed;
        match configuration {
            None => {},
            Some(entries) => {
                let ghost before = cfg_view(self.configuration@);
                let ghost incoming = crate::statement::cfg_entries_view(entries@);
                let mut i: usize = 0;
                assert(cfg_view(self.configuration@) == crate::model::first_wins_union(
                    before,
                    incoming.take(0),
                ));
                while i < entries.len()
                    invariant
                        0 <= i <= entries@.len(),
                        incoming == crate::statement::cfg_entries_view(entries@),
                        incoming.len() == entries@.len(),
                        forall|a: int, b: int|
                            0 <= a < b < self.configuration@.len() ==> self.configuration@[a].0@
                                != self.configuration@[b].0@,
                        cfg_view(self.configuration@) == crate::model::first_wins_union(
                            before,
                            incoming.take(i as int),
                        ),
                        self.children@ == old(self).children@,
                        self.allowed == allowed_mid,
                    decreases entries@.len() - i,
                {
                    let ghost current = cfg_view(self.configuration@);
                    proof {
                        lemma_cfg_view(self.configuration@);
                        let upto = incoming.take(i as int + 1);
                        assert(upto.drop_last() =~= incoming.take(i as int));
                        assert(upto.last() == incoming[i as int]);
                    }
                    match self.find_config(entries[i].0.as_str()) {
                        Some(_) => {
                            assert(current.dom().contains(incoming[i as int].0));
                        },
                        None => {
                            assert(!current.dom().contains(incoming[i as int].0));
                            let ghost base = self.configuration@;
                            self.configuration.push((entries[i].0.clone(), entries[i].1.clone()));
                            proof {
                                assert(self.configuration@.drop_last() =~= base);
                                assert(cfg_view(self.configuration@) == current.insert(
                                    incoming[i as int].0,
                                    incoming[i as int].1,
                                ));
                                assert(forall|a: int, b: int|
                                    0 <= a < b < self.configuration@.len()
                                        ==> self.configuration@[a].0@
                                        != self.configuration@[b].0@);
                            }
                        },
                    }
                    i += 1;
                }
                assert(incoming.take(entries@.len() as int) =~= incoming);
            },
        }
        assert(final(self)@ == old(self)@.apply_at(
            pk,
            opt_actions_view(*actions),
            opt_cfg_view(*configuration),
        ));
    }

    /// An owned copy of `path[at]`, used as a new child's key.
    fn owned_segment(path: &Vec<Identifier>, at: usize) -> (r: Identifier)
        requires
            at < path@.len(),
        ensures
            r@ == path@[at as int]@,
    {
        path[at].to_owned()
    }

    /// Records one whole statement: its grant and configuration at each of
    /// its resources, in order.
    fn apply_statement(&mut self, stmt: &Statement)
        requires
            old(self).wf(),
        ensures
            final(self).wf(),
            final(self)@ == old(self)@.apply_statement(stmt.model()),
    {
        let ghost m = stmt.model();
        let mut ri: usize = 0;
        while ri < stmt.resources.len()
            invariant
                0 <= ri <= stmt.resources@.len(),
                m == stmt.model(),
                m.resources.len() == stmt.resources@.len(),
                self.wf(),
                self@ == old(self)@.apply_resources(m, ri as int),
            decreases stmt.resources@.len() - ri,
        {
            self.apply_at(&stmt.resources[ri].0, 0, &stmt.actions, &stmt.configuration);
            proof {
                assert(stmt.resources@[ri as int].0.deep_view().skip(0)
                    =~= stmt.resources@[ri as int]@);
                assert(crate::statement::keys_of(stmt.resources@[ri as int]@)
                    == m.resources[ri as int]);
                assert(opt_actions_view(stmt.actions) == m.actions);
                assert(opt_cfg_view(stmt.configuration) == m.configuration);
            }
            ri += 1;
        }
    }
}

/// The key-level models of a list of statements, in order.
pub open spec fn models_of(s: Seq<Statement>) -> Seq<crate::model::StatementModel> {
    Seq::new(s.len(), |i: int| s[i].model())
}

/// An `action` was denied on `resource`.
#[derive(Debug)]
pub struct PermissionDenied {
    /// The resource that `action` was attempted upon.
    pub resource: ResourceName,
    /// The `action` attempted upon `resource`.
    pub action: ActionName,
}

impl Clone for PermissionDenied {
    /// Clones the error, keeping the denied resource and action.
    fn clone(&self) -> (r: PermissionDenied)
        ensures
            r.resource@ == self.resource@,
            r.action@ == self.action@,
    {
        PermissionDenied { resource: self.resource.clone(), action: self.action.clone() }
    }
}

impl PermissionDenied {
    /// Renders this error as text: the denied action and resource, named in
    /// one sentence.
    pub fn to_string(&self) -> (r: String)
        ensures
            r@ == "Action '"@ + crate::action::dotted(self.action@) + "' was denied on resource '"@
                + crate::action::dotted(
                Seq::new(self.resource@.len(), |i: int| self.resource@[i].spec_to_string()),
            ) + "'"@,
    {
        let mut out = String::new();
        out.append("Action '");
        let action_text = self.action.to_string();
        out.append(action_text.as_str());
        out.append("' was denied on resource '");
        let resource_text = self.resource.to_string();
        out.append(resource_text.as_str());
        out.append("'");
        out
    }
}

/// A compiled collection of allowed permissions, built from statements. By
/// default, no action is allowed on any resource.
#[derive(Debug)]
pub struct Permissions {
    /// The root node of the compiled trie.
    pub data: Data,
}

impl View for Permissions {
    type V = NodeModel;

    open spec fn view(&self) -> NodeModel {
        self.data@
    }
}

impl Permissions {
    /// Well-formed: the compiled trie keys every level by distinct keys.
    /// Every value built by [`Permissions::from`] or [`Permissions::merged`]
    /// is well-formed.
    pub open spec fn wf(self) -> bool {
        self.data.wf()
    }

    /// Compiles `statements`, applied in order to the empty trie.
    pub fn from(statements: Vec<Statement>) -> (r: Permissions)
        ensures
            r.wf(),
            r@ == NodeModel::build(models_of(statements@)),
    {
        let ghost ms = models_of(statements@);
        let mut data = Data::empty();
        let mut si: usize = 0;
        assert(data@ == NodeModel::build(ms.take(0)));
        while si < statements.len()
            invariant
                0 <= si <= statements@.len(),
                ms == models_of(statements@),
                ms.len() == statements@.len(),
                data.wf(),
                data@ == NodeModel::build(ms.take(si as int)),
            decreases statements@.len() - si,
        {
            data.apply_statement(&statements[si]);
            proof {
                let upto = ms.take(si as int + 1);
                assert(upto.drop_last() =~= ms.take(si as int));
                assert(upto.last() == ms[si as int]);
            }
            si += 1;
        }
        assert(ms.take(statements@.len() as int) =~= ms);
        Permissions { data }
    }

    /// A `Permissions` allowing every action on every resource with at least
    /// one segment, built from [`Statement::allow_all_for_any_resource`].
    pub fn allow_all() -> (r: Permissions)
        ensures
            r.wf(),
            r@ == NodeModel::build(
                seq![
                    crate::model::StatementModel {
                        resources: seq![seq![KeyModel::Wildcard]],
                        actions: Some(crate::model::ActionListModel::All),
                        configuration: None,
                    },
                ],
            ),
    {
        let stmt = Statement::allow_all_for_any_resource();
        let ghost sm = stmt.model();
        assert(sm.resources =~= seq![seq![KeyModel::Wildcard]]) by {
            assert(sm.resources.len() == 1);
            assert(sm.resources[0] =~= seq![KeyModel::Wildcard]);
        }
        let mut v: Vec<Statement> = Vec::new();
        v.push(stmt);
        let r = Permissions::from(v);
        assert(models_of(v@) =~= seq![sm]);
        r
    }

    /// Whether `action` is allowed to be taken upon the resource named
    /// `resource`: true exactly when some statement's grant matches a prefix
    /// of the resource and covers the action.
    pub fn allowed_to(&self, resource: &ResourceName, action: &ActionName) -> (r: bool)
        requires
            self.wf(),
        ensures
            r == self@.allows(resource.keys(), action@),
    {
        let r = self.data.allowed_to_at(resource.0.as_slice(), 0, action);
        proof {
            assert(resource.0.deep_view().skip(0) =~= resource@);
        }
        r
    }

    /// Evaluates whether `action` is allowed upon `resource`, returning the
    /// denied resource and action on failure.
    pub fn check(&self, resource: &ResourceName, action: &ActionName) -> (r: Result<
        (),
        PermissionDenied,
    >)
        requires
            self.wf(),
        ensures
            r is Ok <==> self@.allows(resource.keys(), action@),
            match r {
                Ok(()) => true,
                Err(denied) => denied.resource@ == resource@ && denied.action@ == action@,
            },
    {
        if self.allowed_to(resource, action) {
            Ok(())
        } else {
            Err(PermissionDenied { resource: resource.to_owned(), action: action.clone() })
        }
    }

    /// Looks up the configured value for `key` on `resource`: the deepest
    /// matching node wins, an exact segment match before a wildcard match.
    pub fn get<'s>(&'s self, resource: &ResourceName, key: &str) -> (r: Option<&'s Configuration>)
        requires
            self.wf(),
        ensures
            match r {
                Some(c) => self@.get(resource.keys(), key@) == Some(c@),
                None => self@.get(resource.keys(), key@) is None,
            },
    {
        let r = self.data.get(resource.0.as_slice(), 0, key);
        proof {
            assert(resource.0.deep_view().skip(0) =~= resource@);
        }
        r
    }
}

impl AllowedActions {
    /// Widens this trie to the least-restrictive union with `other`: `All`
    /// absorbs, and branches are merged segment-wise.
    fn add_allowed(&mut self, other: &AllowedActions)
        requires
            old(self).wf(),
            other.wf(),
        ensures
            final(self).wf(),
            final(self)@ == old(self)@.union_with(other@),
        decreases *other,
    {
        match other {
            AllowedActions::Denied => {},
            AllowedActions::All => {
                *self = AllowedActions::All;
            },
            AllowedActions::Branch(oentries) => {
                let ghost om = branch_view(oentries@);
                proof {
                    lemma_branch_view(oentries@);
                }
                let is_all = match self {
                    AllowedActions::All => true,
                    _ => false,
                };
                if is_all {
                    return ;
                }
                let mut cur = AllowedActions::Denied;
                core::mem::swap(self, &mut cur);
                let ghost before = cur@;
                let mut mine: Vec<(String, AllowedActions)> = match cur {
                    AllowedActions::Branch(e) => e,
                    _ => Vec::new(),
                };
                let ghost base = branch_view(mine@);
                proof {
                    assert(branch_view(Seq::<(String, AllowedActions)>::empty()) == Map::<
                        Seq<char>,
                        ActionsModel,
                    >::empty());
                    assert(base == before.branch_map());
                    assert(branch_view(oentries@.take(0)) == Map::<
                        Seq<char>,
                        ActionsModel,
                    >::empty());
                    assert(branch_view(mine@) =~= Map::new(
                        |k: Seq<char>|
                            base.dom().contains(k) || branch_view(oentries@.take(0)).dom().contains(
                                k,
                            ),
                        |k: Seq<char>|
                            if branch_view(oentries@.take(0)).dom().contains(k) {
                                (if base.dom().contains(k) {
                                    base[k]
                                } else {
                                    ActionsModel::Denied
                                }).union_with(om[k])
                            } else {
                                base[k]
                            },
                    ));
                }
                let mut i: usize = 0;
                assert(*other == AllowedActions::Branch(*oentries));
                while i < oentries.len()
                    invariant
                        0 <= i <= oentries@.len(),
                        *other == AllowedActions::Branch(*oentries),
                        om == branch_view(oentries@),
                        forall|a: int, b: int|
                            0 <= a < b < oentries@.len() ==> oentries@[a].0@ != oentries@[b].0@,
                        forall|a: int|
                            0 <= a < oentries@.len() ==> (#[trigger] oentries@[a].1).wf(),
                        forall|a: int|
                            0 <= a < oentries@.len() ==> om[(#[trigger] oentries@[a]).0@]
                                == oentries@[a].1@,
                        forall|k: Seq<char>|
                            #[trigger] om.dom().contains(k) <==> exists|a: int|
                                0 <= a < oentries@.len() && oentries@[a].0@ == k,
                        forall|a: int, b: int|
                            0 <= a < b < mine@.len() ==> mine@[a].0@ != mine@[b].0@,
                        forall|a: int| 0 <= a < mine@.len() ==> (#[trigger] mine@[a].1).wf(),
                        branch_view(mine@) == Map::new(
                            |k: Seq<char>|
                                base.dom().contains(k) || branch_view(
                                    oentries@.take(i as int),
                                ).dom().contains(k),
                            |k: Seq<char>|
                                if branch_view(oentries@.take(i as int)).dom().contains(k) {
                                    (if base.dom().contains(k) {
                                        base[k]
                                    } else {
                                        ActionsModel::Denied
                                    }).union_with(om[k])
                                } else {
                                    base[k]
                                },
                        ),
                    decreases oentries@.len() - i,
                {
                    let ghost kk = oentries@[i as int].0@;
                    let ghost sub = oentries@[i as int].1@;
                    let ghost cur_map = branch_view(mine@);
                    proof {
                        assert(*other == AllowedActions::Branch(*oentries));
                        assert(*oentries == other->Branch_0);
                        assert(decreases_to!(*other => other->Branch_0));
                        assert(decreases_to!(other->Branch_0 => other->Branch_0@[i as int]));
                        assert(decreases_to!(*other => oentries@[i as int].1));
                        lemma_branch_view(mine@);
                        lemma_branch_view(oentries@.take(i as int));
                        lemma_branch_view(oentries@.take(i as int + 1));
                        assert(om[kk] == sub);
                        assert forall|a: int|
                            0 <= a < i implies (#[trigger] oentries@.take(i as int)[a]).0@
                            != kk by {
                            assert(oentries@.take(i as int)[a] == oentries@[a]);
                        }
                        assert(!branch_view(oentries@.take(i as int)).dom().contains(kk));
                    }
                    match AllowedActions::find_segment(&mine, &oentries[i].0) {
                        Some(j) => {
                            proof {
                                assert(cur_map.dom().contains(kk));
                                assert(cur_map[kk] == mine@[j as int].1@);
                                assert(base.dom().contains(kk));
                                assert(cur_map[kk] == base[kk]);
                            }
                            let ghost pre = mine@;
                            let slot = &mut mine[j];
                            slot.1.add_allowed(&oentries[i].1);
                            proof {
                                assert(mine@ == pre.update(j as int, mine@[j as int]));
                                assert(mine@[j as int].0@ == kk);
                                lemma_branch_view_update(pre, j as int, mine@[j as int]);
                            }
                        },
                        None => {
                            proof {
                                assert(!cur_map.dom().contains(kk));
                                assert(!base.dom().contains(kk));
                            }
                            let ghost basemine = mine@;
                            mine.push((oentries[i].0.clone(), AllowedActions::Denied));
                            let ghost pre = mine@;
                            let idx = mine.len() - 1;
                            let slot = &mut mine[idx];
                            slot.1.add_allowed(&oentries[i].1);
                            proof {
                                assert(mine@ == pre.update(idx as int, mine@[idx as int]));
                                assert(mine@.drop_last() =~= basemine);
                                assert(mine@.last().0@ == kk);
                                assert(branch_view(mine@) == branch_view(basemine).insert(
                                    kk,
                                    mine@.last().1@,
                                ));
                                assert(mine@.last().1@ == ActionsModel::Denied.union_with(sub));
                            }
                        },
                    }
                    proof {
                        let take_next = oentries@.take(i as int + 1);
                        assert(take_next.drop_last() =~= oentries@.take(i as int));
                        assert(take_next.last() == oentries@[i as int]);
                        assert(branch_view(take_next) == branch_view(
                            oentries@.take(i as int),
                        ).insert(kk, sub));
                        assert(branch_view(mine@) =~= Map::new(
                            |k: Seq<char>|
                                base.dom().contains(k) || branch_view(take_next).dom().contains(k),
                            |k: Seq<char>|
                                if branch_view(take_next).dom().contains(k) {
                                    (if base.dom().contains(k) {
                                        base[k]
                                    } else {
                                        ActionsModel::Denied
                                    }).union_with(om[k])
                                } else {
                                    base[k]
                                },
                        ));
                    }
                    i += 1;
                }
                proof {
                    assert(oentries@.take(oentries@.len() as int) =~= oentries@);
                    assert(branch_view(mine@) =~= Map::new(
                        |k: Seq<char>|
                            before.branch_map().dom().contains(k) || om.dom().contains(k),
                        |k: Seq<char>|
                            if om.dom().contains(k) {
                                (if before.branch_map().dom().contains(k) {
                                    before.branch_map()[k]
                                } else {
                                    ActionsModel::Denied
                                }).union_with(om[k])
                            } else {
                                before.branch_map()[k]
                            },
                    ));
                }
                *self = AllowedActions::Branch(mine);
                proof {
                    let target = old(self)@.union_with(other@);
                    assert(target is Branch);
                    assert(final(self)@ is Branch);
                    assert(final(self)@->Branch_0 =~= target->Branch_0);
                }
                assert(final(self)@ =~~= old(self)@.union_with(other@));
            },
        }
    }
}

impl Data {
    /// Widens this node to the least-restrictive union with `other`: children
    /// are merged key-wise, action tries are unioned, and for configuration
    /// keys held by both, this node's value is kept.
    fn add_permissions(&mut self, other: &Data)
        requires
            old(self).wf(),
            other.wf(),
        ensures
            final(self).wf(),
            final(self)@ == old(self)@.union_with(other@),
        decreases *other,
    {
        let ghost om = kids_view(other.children@);
        let ghost base = kids_view(old(self).children@);
        proof {
            lemma_kids_view(other.children@);
            assert(kids_view(other.children@.take(0)) == Map::<KeyModel, NodeModel>::empty());
            assert(kids_view(self.children@) =~= Map::new(
                |k: KeyModel|
                    base.dom().contains(k) || kids_view(other.children@.take(0)).dom().contains(k),
                |k: KeyModel|
                    if kids_view(other.children@.take(0)).dom().contains(k) {
                        (if base.dom().contains(k) {
                            base[k]
                        } else {
                            NodeModel::empty()
                        }).union_with(om[k])
                    } else {
                        base[k]
                    },
            ));
        }
        let mut i: usize = 0;
        while i < other.children.len()
            invariant
                0 <= i <= other.children@.len(),
                om == kids_view(other.children@),
                other.wf(),
                forall|a: int|
                    0 <= a < other.children@.len() ==> om[(#[trigger] other.children@[a]).0.key()]
                        == other.children@[a].1@,
                forall|k: KeyModel|
                    #[trigger] om.dom().contains(k) <==> exists|a: int|
                        0 <= a < other.children@.len() && other.children@[a].0.key() == k,
                forall|a: int, b: int|
                    0 <= a < b < self.children@.len() ==> self.children@[a].0.key()
                        != self.children@[b].0.key(),
                forall|a: int| 0 <= a < self.children@.len() ==> (#[trigger] self.children@[a].1).wf(),
                self.allowed == old(self).allowed,
                self.configuration@ == old(self).configuration@,
                kids_view(self.children@) == Map::new(
                    |k: KeyModel|
                        base.dom().contains(k) || kids_view(
                            other.children@.take(i as int),
                        ).dom().contains(k),
                    |k: KeyModel|
                        if kids_view(other.children@.take(i as int)).dom().contains(k) {
                            (if base.dom().contains(k) {
                                base[k]
                            } else {
                                NodeModel::empty()
                            }).union_with(om[k])
                        } else {
                            base[k]
                        },
                ),
            decreases other.children@.len() - i,
        {
            let ghost kk = other.children@[i as int].0.key();
            let ghost sub = other.children@[i as int].1@;
            let ghost cur_map = kids_view(self.children@);
            proof {
                assert(decreases_to!(*other => other.children@[i as int].1));
                lemma_kids_view(self.children@);
                lemma_kids_view(other.children@.take(i as int));
                lemma_kids_view(other.children@.take(i as int + 1));
                assert(om[kk] == sub);
                assert forall|a: int|
                    0 <= a < i implies (#[trigger] other.children@.take(i as int)[a]).0.key()
                    != kk by {
                    assert(other.children@.take(i as int)[a] == other.children@[a]);
                }
                assert(!kids_view(other.children@.take(i as int)).dom().contains(kk));
            }
            match self.find_child(&other.children[i].0) {
                Some(j) => {
                    proof {
                        assert(cur_map.dom().contains(kk));
                        assert(cur_map[kk] == self.children@[j as int].1@);
                        assert(base.dom().contains(kk));
                        assert(cur_map[kk] == base[kk]);
                    }
                    let ghost pre = self.children@;
                    let slot = &mut self.children[j];
                    slot.1.add_permissions(&other.children[i].1);
                    proof {
                        assert(self.children@ == pre.update(j as int, self.children@[j as int]));
                        assert(self.children@[j as int].0.key() == kk);
                        lemma_kids_view_update(pre, j as int, self.children@[j as int]);
                    }
                },
                None => {
                    proof {
                        assert(!cur_map.dom().contains(kk));
                        assert(!base.dom().contains(kk));
                    }
                    let ghost basemine = self.children@;
                    self.children.push((other.children[i].0.to_owned(), Data::empty()));
                    let ghost pre = self.children@;
                    let idx = self.children.len() - 1;
                    let slot = &mut self.children[idx];
                    slot.1.add_permissions(&other.children[i].1);
                    proof {
                        assert(self.children@ == pre.update(idx as int, self.children@[idx as int]));
                        assert(self.children@.drop_last() =~= basemine);
                        assert(self.children@.last().0.key() == kk);
                        assert(kids_view(self.children@) == kids_view(basemine).insert(
                            kk,
                            self.children@.last().1@,
                        ));
                        assert(self.children@.last().1@ == NodeModel::empty().union_with(sub));
                    }
                },
            }
            proof {
                let take_next = other.children@.take(i as int + 1);
                assert(take_next.drop_last() =~= other.children@.take(i as int));
                assert(take_next.last() == other.children@[i as int]);
                assert(kids_view(take_next) == kids_view(other.children@.take(i as int)).insert(
                    kk,
                    sub,
                ));
                assert(kids_view(self.children@) =~= Map::new(
                    |k: KeyModel|
                        base.dom().contains(k) || kids_view(take_next).dom().contains(k),
                    |k: KeyModel|
                        if kids_view(take_next).dom().contains(k) {
                            (if base.dom().contains(k) {
                                base[k]
                            } else {
                                NodeModel::empty()
                            }).union_with(om[k])
                        } else {
                            base[k]
                        },
                ));
            }
            i += 1;
        }
        proof {
            assert(other.children@.take(other.children@.len() as int) =~= other.children@);
            assert(kids_view(self.children@) =~= Map::new(
                |k: KeyModel|
                    old(self)@.children.dom().contains(k) || other@.children.dom().contains(k),
                |k: KeyModel|
                    if other@.children.dom().contains(k) {
                        old(self)@.child_or_empty(k).union_with(other@.children[k])
                    } else {
                        old(self)@.children[k]
                    },
            ));
        }
        self.allowed.add_allowed(&other.allowed);
        let ghost allowed_mid = self.allowed;
        let ghost children_mid = self.children@;
        let ghost cfgbase = cfg_view(self.configuration@);
        let mut ci: usize = 0;
        proof {
            lemma_cfg_view(other.configuration@);
            assert(cfg_view(other.configuration@.take(0)) == Map::<Seq<char>, ConfigModel>::empty());
            assert(cfg_view(self.configuration@) =~= Map::new(
                |k: Seq<char>|
                    cfgbase.dom().contains(k) || cfg_view(
                        other.configuration@.take(0),
                    ).dom().contains(k),
                |k: Seq<char>|
                    if cfgbase.dom().contains(k) {
                        cfgbase[k]
                    } else {
                        cfg_view(other.configuration@)[k]
                    },
            ));
        }
        while ci < other.configuration.len()
            invariant
                0 <= ci <= other.configuration@.len(),
                other.wf(),
                forall|a: int|
                    0 <= a < other.configuration@.len() ==> cfg_view(other.configuration@)[(
                    #[trigger] other.configuration@[a]).0@] == other.configuration@[a].1@,
                forall|k: Seq<char>|
                    #[trigger] cfg_view(other.configuration@).dom().contains(k) <==> exists|a: int|
                        0 <= a < other.configuration@.len() && other.configuration@[a].0@ == k,
                forall|a: int, b: int|
                    0 <= a < b < self.configuration@.len() ==> self.configuration@[a].0@
                        != self.configuration@[b].0@,
                self.allowed == allowed_mid,
                self.children@ == children_mid,
                cfg_view(self.configuration@) == Map::new(
                    |k: Seq<char>|
                        cfgbase.dom().contains(k) || cfg_view(
                            other.configuration@.take(ci as int),
                        ).dom().contains(k),
                    |k: Seq<char>|
                        if cfgbase.dom().contains(k) {
                            cfgbase[k]
                        } else {
                            cfg_view(other.configuration@)[k]
                        },
                ),
            decreases other.configuration@.len() - ci,
        {
            let ghost kk = other.configuration@[ci as int].0@;
            let ghost cur_map = cfg_view(self.configuration@);
            proof {
                lemma_cfg_view(self.configuration@);
                lemma_cfg_view(other.configuration@.take(ci as int));
                assert forall|a: int|
                    0 <= a < ci implies (#[trigger] other.configuration@.take(ci as int)[a]).0@
                    != kk by {
                    assert(other.configuration@.take(ci as int)[a] == other.configuration@[a]);
                }
                assert(!cfg_view(other.configuration@.take(ci as int)).dom().contains(kk));
            }
            match self.find_config(other.configuration[ci].0.as_str()) {
                Some(_) => {
                    proof {
                        assert(cur_map.dom().contains(kk));
                    }
                },
                None => {
                    let ghost basecfg = self.configuration@;
                    self.configuration.push(
                        (other.configuration[ci].0.clone(), other.configuration[ci].1.clone()),
                    );
                    proof {
                        assert(self.configuration@.drop_last() =~= basecfg);
                        assert(cfg_view(self.configuration@) == cur_map.insert(
                            kk,
                            other.configuration@[ci as int].1@,
                        ));
                        assert(cfg_view(other.configuration@)[kk]
                            == other.configuration@[ci as int].1@);
                    }
                },
            }
            proof {
                let take_next = other.configuration@.take(ci as int + 1);
                assert(take_next.drop_last() =~= other.configuration@.take(ci as int));
                assert(take_next.last() == other.configuration@[ci as int]);
                assert(cfg_view(take_next) == cfg_view(other.configuration@.take(ci as int)).insert(
                    kk,
                    other.configuration@[ci as int].1@,
                ));
                assert(cfg_view(self.configuration@) =~= Map::new(
                    |k: Seq<char>|
                        cfgbase.dom().contains(k) || cfg_view(take_next).dom().contains(k),
                    |k: Seq<char>|
                        if cfgbase.dom().contains(k) {
                            cfgbase[k]
                        } else {
                            cfg_view(other.configuration@)[k]
                        },
                ));
            }
            ci += 1;
        }
        proof {
            assert(other.configuration@.take(other.configuration@.len() as int)
                =~= other.configuration@);
            assert(cfg_view(self.configuration@) =~= other@.configuration.union_prefer_right(
                cfgbase,
            ));
        }
        proof {
            let target = old(self)@.union_with(other@);
            assert(final(self)@.children =~= target.children);
            assert(final(self)@.allowed == target.allowed);
            assert(final(self)@.configuration =~= target.configuration);
        }
        assert(final(self)@ =~~= old(self)@.union_with(other@));
    }
}

/// The trie models of a list of permissions, in order.
pub open spec fn views_of(s: Seq<Permissions>) -> Seq<NodeModel> {
    Seq::new(s.len(), |i: int| s[i]@)
}

impl Permissions {
    /// A new `Permissions` merging all allowed actions and configuration of
    /// `permissions`: the least-restrictive union, earlier entries winning a
    /// configuration key held by several.
    pub fn merged(permissions: &[Permissions]) -> (r: Permissions)
        requires
            forall|i: int| 0 <= i < permissions@.len() ==> (#[trigger] permissions@[i]).wf(),
        ensures
            r.wf(),
            r@ == NodeModel::union_of(views_of(permissions@), permissions@.len() as int),
    {
        let ghost vs = views_of(permissions@);
        let mut combined = Data::empty();
        let mut i: usize = 0;
        while i < permissions.len()
            invariant
                0 <= i <= permissions@.len(),
                vs == views_of(permissions@),
                vs.len() == permissions@.len(),
                forall|j: int| 0 <= j < permissions@.len() ==> (#[trigger] permissions@[j]).wf(),
                combined.wf(),
                combined@ == NodeModel::union_of(vs, i as int),
            decreases permissions@.len() - i,
        {
            combined.add_permissions(&permissions[i].data);
            i += 1;
        }
        Permissions { data: combined }
    }
}

impl Clone for AllowedActions {
    /// Clones the action trie, keeping its grants.
    fn clone(&self) -> (r: AllowedActions)
        ensures
            r@ == self@,
            self.wf() ==> r.wf(),
        decreases *self,
    {
        match self {
            AllowedActions::Denied => AllowedActions::Denied,
            AllowedActions::All => AllowedActions::All,
            AllowedActions::Branch(entries) => {
                let mut v: Vec<(String, AllowedActions)> = Vec::new();
                let mut i: usize = 0;
                while i < entries.len()
                    invariant
                        0 <= i <= entries@.len(),
                        v@.len() == i,
                        *self == AllowedActions::Branch(*entries),
                        forall|j: int|
                            0 <= j < i ==> (#[trigger] v@[j]).0@ == entries@[j].0@ && v@[j].1@
                                == entries@[j].1@ && (entries@[j].1.wf() ==> v@[j].1.wf()),
                    decreases entries@.len() - i,
                {
                    proof {
                        assert(*entries == self->Branch_0);
                        assert(decreases_to!(*self => self->Branch_0));
                        assert(decreases_to!(self->Branch_0 => self->Branch_0@[i as int]));
                        assert(decreases_to!(*self => entries@[i as int].1));
                    }
                    let pair = (entries[i].0.clone(), entries[i].1.clone());
                    v.push(pair);
                    i += 1;
                }
                let r = AllowedActions::Branch(v);
                proof {
                    lemma_entry_views_equal(v@, entries@);
                }
                r
            },
        }
    }
}

/// Entry lists equal pair for pair have the same branch map.
proof fn lemma_entry_views_equal(a: Seq<(String, AllowedActions)>, b: Seq<(String, AllowedActions)>)
    requires
        a.len() == b.len(),
        forall|j: int| 0 <= j < a.len() ==> (#[trigger] a[j]).0@ == b[j].0@ && a[j].1@ == b[j].1@,
    ensures
        branch_view(a) == branch_view(b),
    decreases a.len(),
{
    if a.len() > 0 {
        assert(forall|j: int|
            0 <= j < a.len() - 1 ==> (#[trigger] a.drop_last()[j]) == a[j] && b.drop_last()[j]
                == b[j]);
        lemma_entry_views_equal(a.drop_last(), b.drop_last());
        assert(a.last() == a[a.len() - 1]);
        assert(b.last() == b[a.len() - 1]);
    }
}

/// Child lists equal pair for pair have the same children map.
proof fn lemma_kid_views_equal(a: Seq<(Identifier, Data)>, b: Seq<(Identifier, Data)>)
    requires
        a.len() == b.len(),
        forall|j: int|
            0 <= j < a.len() ==> (#[trigger] a[j]).0@ == b[j].0@ && a[j].1@ == b[j].1@,
    ensures
        kids_view(a) == kids_view(b),
    decreases a.len(),
{
    if a.len() > 0 {
        assert(forall|j: int|
            0 <= j < a.len() - 1 ==> (#[trigger] a.drop_last()[j]) == a[j] && b.drop_last()[j]
                == b[j]);
        lemma_kid_views_equal(a.drop_last(), b.drop_last());
        assert(a.last() == a[a.len() - 1]);
        assert(b.last() == b[a.len() - 1]);
    }
}

/// Configuration lists equal pair for pair have the same map.
proof fn lemma_cfg_views_equal(a: Seq<(String, Configuration)>, b: Seq<(String, Configuration)>)
    requires
        a.len() == b.len(),
        forall|j: int| 0 <= j < a.len() ==> (#[trigger] a[j]).0@ == b[j].0@ && a[j].1@ == b[j].1@,
    ensures
        cfg_view(a) == cfg_view(b),
    decreases a.len(),
{
    if a.len() > 0 {
        assert(forall|j: int|
            0 <= j < a.len() - 1 ==> (#[trigger] a.drop_last()[j]) == a[j] && b.drop_last()[j]
                == b[j]);
        lemma_cfg_views_equal(a.drop_last(), b.drop_last());
        assert(a.last() == a[a.len() - 1]);
        assert(b.last() == b[a.len() - 1]);
    }
}

impl Clone for Data {
    /// Clones the node and everything under it.
    fn clone(&self) -> (r: Data)
        ensures
            r@ == self@,
            self.wf() ==> r.wf(),
        decreases *self,
    {
        let mut children: Vec<(Identifier, Data)> = Vec::new();
        let mut i: usize = 0;
        while i < self.children.len()
            invariant
                0 <= i <= self.children@.len(),
                children@.len() == i,
                forall|j: int|
                    0 <= j < i ==> (#[trigger] children@[j]).0@ == self.children@[j].0@
                        && children@[j].1@ == self.children@[j].1@ && (self.children@[j].1.wf()
                        ==> children@[j].1.wf()),
            decreases self.children@.len() - i,
        {
            proof {
                assert(decreases_to!(*self => self.children@[i as int].1));
            }
            let pair = (self.children[i].0.clone(), self.children[i].1.clone());
            children.push(pair);
            i += 1;
        }
        let mut configuration: Vec<(String, Configuration)> = Vec::new();
        let mut ci: usize = 0;
        while ci < self.configuration.len()
            invariant
                0 <= ci <= self.configuration@.len(),
                configuration@.len() == ci,
                forall|j: int|
                    0 <= j < ci ==> (#[trigger] configuration@[j]).0@ == self.configuration@[j].0@
                        && configuration@[j].1@ == self.configuration@[j].1@,
            decreases self.configuration@.len() - ci,
        {
            let pair = (self.configuration[ci].0.clone(), self.configuration[ci].1.clone());
            configuration.push(pair);
            ci += 1;
        }
        let r = Data { children, allowed: self.allowed.clone(), configuration };
        proof {
            lemma_kid_views_equal(r.children@, self.children@);
            lemma_cfg_views_equal(r.configuration@, self.configuration@);
        }
        r
    }
}

impl Clone for Permissions {
    /// Clones the compiled policy.
    fn clone(&self) -> (r: Permissions)
        ensures
            r@ == self@,
            self.wf() ==> r.wf(),
    {
        Permissions { data: self.data.clone() }
    }
}

// A compiled policy holds freshly built containers, which no spec-level
// expression denotes exactly; these impls leave the `From` contract open and
// describe the result's abstract value only. `Permissions::from` carries the
// exact contract.
impl vstd::std_specs::convert::FromSpecImpl<Vec<Statement>> for Permissions {
    open spec fn obeys_from_spec() -> bool {
        false
    }

    open spec fn from_spec(statements: Vec<Statement>) -> Permissions {
        choose|r: Permissions| r@ == NodeModel::build(models_of(statements@)) && r.wf()
    }
}

impl From<Vec<Statement>> for Permissions {
    /// Compiles `statements`, applied in order to the empty trie.
    fn from(statements: Vec<Statement>) -> (r: Permissions) {
        Permissions::from(statements)
    }
}

impl vstd::std_specs::convert::FromSpecImpl<Statement> for Permissions {
    open spec fn obeys_from_spec() -> bool {
        false
    }

    open spec fn from_spec(stmt: Statement) -> Permissions {
        choose|r: Permissions| r@ == NodeModel::build(seq![stmt.model()]) && r.wf()
    }
}

impl From<Statement> for Permissions {
    /// Compiles the one statement `stmt`.
    fn from(stmt: Statement) -> (r: Permissions) {
        let mut statements: Vec<Statement> = Vec::new();
        statements.push(stmt);
        Permissions::from(statements)
    }
}

impl Default for Permissions {
    /// The empty `Permissions`, allowing nothing.
    fn default() -> (r: Permissions)
        ensures
            r.wf(),
            r@ == NodeModel::empty(),
    {
        Permissions { data: Data::empty() }
    }
}

} // verus!
