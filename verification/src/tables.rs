//! The hash tables that the algorithm works on.
//!
//! Each table is a hashbrown collection in a private field; what it holds is a map or
//! a set, and the order in which it hands out its entries is left open.

use crate::binary32::Binary32;
use vstd::prelude::*;

verus! {

/// The label of a community.
pub type CommunityId = u32;

/// The community that each node is assigned to.
#[verifier::external_body]
#[derive(Debug)]
pub struct CommunityAssignments {
    inner: hashbrown::HashMap<usize, CommunityId>,
}

/// The communities by node that `table` holds.
pub uninterp spec fn assigned(table: CommunityAssignments) -> Map<usize, CommunityId>;

impl View for CommunityAssignments {
    type V = Map<usize, CommunityId>;

    open spec fn view(&self) -> Map<usize, CommunityId> {
        assigned(*self)
    }
}

/// A weight for each of some communities.
#[verifier::external_body]
#[derive(Debug)]
pub struct CommunityWeights {
    inner: hashbrown::HashMap<CommunityId, Binary32>,
}

/// The weights by community that `table` holds.
pub uninterp spec fn weighed(table: CommunityWeights) -> Map<CommunityId, Binary32>;

impl View for CommunityWeights {
    type V = Map<CommunityId, Binary32>;

    open spec fn view(&self) -> Map<CommunityId, Binary32> {
        weighed(*self)
    }
}

/// A set of nodes.
#[verifier::external_body]
#[derive(Debug)]
pub struct NodeSet {
    inner: hashbrown::HashSet<usize>,
}

/// The nodes that `set` holds.
pub uninterp spec fn members_of(set: NodeSet) -> Set<usize>;

impl View for NodeSet {
    type V = Set<usize>;

    open spec fn view(&self) -> Set<usize> {
        members_of(*self)
    }
}

/// `order` names each member of `set` once.
pub open spec fn enumerates<A>(order: Seq<A>, set: Set<A>) -> bool {
    order.no_duplicates() && order.to_set() == set
}

/// `set` has `size` members.
pub open spec fn has_size<A>(set: Set<A>, size: nat) -> bool {
    set.finite() && set.len() == size
}

/// `entries` gives each key of `map` once, with its value.
pub open spec fn lists<K, V>(entries: Seq<(K, V)>, map: Map<K, V>) -> bool {
    &&& enumerates(entries.map_values(|entry: (K, V)| entry.0), map.dom())
    &&& forall|i: int| 0 <= i < entries.len() ==> map[(#[trigger] entries[i]).0] == entries[i].1
}

/// `HashMap::new`: the table is empty.
#[verifier::external_body]
pub(crate) fn assignments_new() -> (table: CommunityAssignments)
    ensures
        assigned(table) == (Map::<usize, CommunityId>::empty()),
{
    CommunityAssignments { inner: hashbrown::HashMap::new() }
}

/// `HashMap::insert`: the key gets the value, and the value it had is handed back.
#[verifier::external_body]
pub(crate) fn assignments_insert(
    table: &mut CommunityAssignments,
    node: usize,
    community: CommunityId,
) -> (previous: Option<CommunityId>)
    ensures
        assigned(*final(table)) == assigned(*old(table)).insert(node, community),
        previous == (if assigned(*old(table)).contains_key(node) {
            Some(assigned(*old(table))[node])
        } else {
            None
        }),
{
    table.inner.insert(node, community)
}

/// `HashMap::get`: the value of the key, if the table has it.
#[verifier::external_body]
pub(crate) fn assignments_get(
    table: &CommunityAssignments,
    node: usize,
) -> (community: Option<CommunityId>)
    ensures
        community == (if assigned(*table).contains_key(node) {
            Some(assigned(*table)[node])
        } else {
            None
        }),
{
    table.inner.get(&node).copied()
}

/// `HashMap::iter`: each key comes once, with its value, in an order that is not
/// stated.
#[verifier::external_body]
pub(crate) fn assignments_entries(
    table: &CommunityAssignments,
) -> (entries: Vec<(usize, CommunityId)>)
    ensures
        lists(entries@, assigned(*table)),
{
    table.inner.iter().map(|(&node, &community)| (node, community)).collect()
}

/// `HashMap::new`: the table is empty.
#[verifier::external_body]
pub(crate) fn weights_new() -> (table: CommunityWeights)
    ensures
        weighed(table) == (Map::<CommunityId, Binary32>::empty()),
{
    CommunityWeights { inner: hashbrown::HashMap::new() }
}

/// `HashMap::get`: the value of the key, if the table has it.
#[verifier::external_body]
pub(crate) fn weights_get(
    table: &CommunityWeights,
    community: CommunityId,
) -> (weight: Option<Binary32>)
    ensures
        weight == (if weighed(*table).contains_key(community) {
            Some(weighed(*table)[community])
        } else {
            None
        }),
{
    table.inner.get(&community).copied()
}

/// `HashMap::entry` and `Entry::or_insert`: the place of the key's value, which is
/// `default` where the key is new.
#[verifier::external_body]
pub(crate) fn weights_entry(
    table: &mut CommunityWeights,
    community: CommunityId,
    default: Binary32,
) -> (place: &mut Binary32)
    ensures
        *place == (if weighed(*old(table)).contains_key(community) {
            weighed(*old(table))[community]
        } else {
            default
        }),
        weighed(*final(table)) == weighed(*old(table)).insert(community, *final(place)),
{
    table.inner.entry(community).or_insert(default)
}

/// `HashMap::iter`: each key comes once, with its value, in an order that is not
/// stated.
#[verifier::external_body]
pub(crate) fn weights_entries(table: &CommunityWeights) -> (entries: Vec<(CommunityId, Binary32)>)
    ensures
        lists(entries@, weighed(*table)),
{
    table.inner.iter().map(|(&community, &weight)| (community, weight)).collect()
}

/// `HashSet::new`: the set is empty.
#[verifier::external_body]
pub(crate) fn set_new() -> (set: NodeSet)
    ensures
        members_of(set) == Set::<usize>::empty(),
{
    NodeSet { inner: hashbrown::HashSet::new() }
}

/// `HashSet::insert`: the node becomes a member; whether it was none before is
/// handed back.
#[verifier::external_body]
pub(crate) fn set_insert(set: &mut NodeSet, node: usize) -> (added: bool)
    ensures
        members_of(*final(set)) == members_of(*old(set)).insert(node),
        added == !members_of(*old(set)).contains(node),
{
    set.inner.insert(node)
}

/// `HashSet::contains`: whether the node is a member.
#[verifier::external_body]
pub(crate) fn set_contains(set: &NodeSet, node: usize) -> (found: bool)
    ensures
        found == members_of(*set).contains(node),
{
    set.inner.contains(&node)
}

/// `HashSet::remove`: the node is no member any more; whether it was one is handed
/// back.
#[verifier::external_body]
pub(crate) fn set_remove(set: &mut NodeSet, node: usize) -> (removed: bool)
    ensures
        members_of(*final(set)) == members_of(*old(set)).remove(node),
        removed == members_of(*old(set)).contains(node),
{
    set.inner.remove(&node)
}

/// `HashSet::len`: the number of members.
#[verifier::external_body]
pub(crate) fn set_len(set: &NodeSet) -> (len: usize)
    ensures
        has_size(members_of(*set), len as nat),
{
    set.inner.len()
}

/// `HashSet::clone`: a set with the same members.
#[verifier::external_body]
pub(crate) fn set_clone(set: &NodeSet) -> (copy: NodeSet)
    ensures
        members_of(copy) == members_of(*set),
{
    NodeSet { inner: set.inner.clone() }
}

/// `HashSet::iter`: each member comes once, in an order that is not stated.
#[verifier::external_body]
pub(crate) fn set_members(set: &NodeSet) -> (members: Vec<usize>)
    ensures
        enumerates(members@, members_of(*set)),
{
    set.inner.iter().copied().collect()
}

/// `HashSet::extract_if`, run to its end: the members that are in `other` leave.
#[verifier::external_body]
pub(crate) fn set_extract(set: &mut NodeSet, other: &NodeSet)
    ensures
        members_of(*final(set)) == members_of(*old(set)).difference(members_of(*other)),
{
    for _ in set.inner.extract_if(|&node| other.contains(node)) {}
}

impl CommunityAssignments {
    /// A table without entries.
    pub fn new() -> (table: Self)
        ensures
            table@ == Map::<usize, CommunityId>::empty(),
    {
        assignments_new()
    }

    /// Assigns `node` to `community` and hands back the community it was assigned to.
    pub fn insert(&mut self, node: usize, community: CommunityId) -> (previous: Option<CommunityId>)
        ensures
            final(self)@ == old(self)@.insert(node, community),
            previous == (if old(self)@.contains_key(node) {
                Some(old(self)@[node])
            } else {
                None
            }),
    {
        assignments_insert(self, node, community)
    }

    /// The community that `node` is assigned to.
    pub fn get(&self, node: usize) -> (community: Option<CommunityId>)
        ensures
            community == (if self@.contains_key(node) {
                Some(self@[node])
            } else {
                None
            }),
    {
        assignments_get(self, node)
    }

    /// The nodes with their communities, in an order that is not stated.
    pub fn entries(&self) -> (entries: Vec<(usize, CommunityId)>)
        ensures
            lists(entries@, self@),
    {
        assignments_entries(self)
    }
}

impl Default for CommunityAssignments {
    fn default() -> (table: Self)
        ensures
            table@ == Map::<usize, CommunityId>::empty(),
    {
        assignments_new()
    }
}

impl NodeSet {
    /// A set without members.
    pub fn new() -> (set: Self)
        ensures
            set@ == Set::<usize>::empty(),
    {
        set_new()
    }

    /// Makes `node` a member, and says whether it was none before.
    pub fn insert(&mut self, node: usize) -> (added: bool)
        ensures
            final(self)@ == old(self)@.insert(node),
            added == !old(self)@.contains(node),
    {
        set_insert(self, node)
    }

    /// Whether `node` is a member.
    pub fn contains(&self, node: usize) -> (found: bool)
        ensures
            found == self@.contains(node),
    {
        set_contains(self, node)
    }

    /// The number of members.
    pub fn len(&self) -> (len: usize)
        ensures
            has_size(self@, len as nat),
    {
        set_len(self)
    }

    /// The members, in an order that is not stated.
    pub fn members(&self) -> (members: Vec<usize>)
        ensures
            enumerates(members@, self@),
    {
        set_members(self)
    }
}

impl Default for NodeSet {
    fn default() -> (set: Self)
        ensures
            set@ == Set::<usize>::empty(),
    {
        set_new()
    }
}

} // verus!
