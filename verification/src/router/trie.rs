//! The trie of topic levels that holds the subscriptions.

use vstd::prelude::*;
use crate::router::table;
use crate::router::table::{InfoView, SubscriptionInfo};
use crate::text::{bytes_eq, copy_bytes, str_eq};
use crate::topic;
use crate::topic::{is_hash, is_plus};

verus! {

/// Subscriptions under a name: the members of one shared subscription under that of their group.
#[derive(Debug)]
pub struct Bucket {
    /// The name, in UTF-8.
    pub name: Vec<u8>,
    /// Its members, in the order of subscribing.
    pub members: Vec<SubscriptionInfo>,
}

/// A child under a level without wildcard.
#[derive(Debug)]
pub(crate) struct Edge {
    pub(crate) label: Vec<u8>,
    pub(crate) node: TrieNode,
}

/// The subscriptions whose filter continues below a level.
#[derive(Debug)]
pub(crate) struct TrieNode {
    pub(crate) children: Vec<Edge>,
    pub(crate) plus_child: Option<Box<TrieNode>>,
    pub(crate) hash_child: Option<Box<TrieNode>>,
    pub(crate) subscriptions: Vec<SubscriptionInfo>,
    pub(crate) shared: Vec<Bucket>,
}

/// Where a label stands among the children, -1 where it does not.
pub(crate) open spec fn edge_index(edges: Seq<Edge>, label: Seq<u8>) -> int
    decreases edges.len(),
{
    if edges.len() == 0 {
        -1
    } else if edges.last().label@ == label {
        edges.len() - 1
    } else {
        edge_index(edges.drop_last(), label)
    }
}

/// The children on which something hangs, in their order.
pub(crate) open spec fn without_bare(edges: Seq<Edge>) -> Seq<Edge>
    decreases edges.len(),
{
    if edges.len() == 0 {
        Seq::empty()
    } else if edges.last().node.bare() {
        without_bare(edges.drop_last())
    } else {
        without_bare(edges.drop_last()).push(edges.last())
    }
}

/// The members of a group, none where there is no such group.
pub open spec fn members(groups: Seq<Bucket>, group: Seq<u8>) -> Seq<InfoView>
    decreases groups.len(),
{
    if groups.len() == 0 {
        Seq::empty()
    } else if groups.last().name@ == group {
        table::infos(groups.last().members@)
    } else {
        members(groups.drop_last(), group)
    }
}

/// Whether the groups have different names.
pub open spec fn groups_distinct(groups: Seq<Bucket>) -> bool {
    forall|i: int, j: int|
        0 <= i < j < groups.len() ==> (#[trigger] groups[i]).name@ != (#[trigger] groups[j]).name@
}

impl TrieNode {
    /// Labels differ and are no wildcards; group names differ and no group is empty.
    pub(crate) open spec fn local_wf(&self) -> bool {
        &&& forall|i: int, j: int|
            0 <= i < j < self.children@.len() ==> (#[trigger] self.children@[i]).label@ != (
            #[trigger] self.children@[j]).label@
        &&& forall|i: int|
            0 <= i < self.children@.len() ==> (#[trigger] self.children@[i]).label@ != topic::plus()
                && self.children@[i].label@ != topic::hash()
        &&& groups_distinct(self.shared@)
        &&& no_empty(self.shared@)
    }

    /// The whole subtree is well formed.
    pub(crate) open spec fn wf(&self) -> bool
        decreases self,
    {
        &&& self.local_wf()
        &&& self.plus_child matches Some(n) ==> n.wf()
        &&& self.hash_child matches Some(n) ==> n.wf()
        &&& forall|i: int|
            #![trigger self.children@[i]]
            0 <= i < self.children@.len() ==> self.children@[i].node.wf()
    }

    /// Nothing hangs on this node: no child of any kind, no subscription and no group.
    pub(crate) open spec fn bare(&self) -> bool {
        self.children@.len() == 0 && self.plus_child is None && self.hash_child is None
            && self.subscriptions@.len() == 0 && self.shared@.len() == 0
    }

    /// The child under a level.
    pub(crate) open spec fn child(&self, level: Seq<u8>) -> Option<TrieNode> {
        if level == topic::plus() {
            match self.plus_child {
                Some(n) => Some(*n),
                None => None,
            }
        } else if level == topic::hash() {
            match self.hash_child {
                Some(n) => Some(*n),
                None => None,
            }
        } else if edge_index(self.children@, level) >= 0 {
            Some(self.children@[edge_index(self.children@, level)].node)
        } else {
            None
        }
    }

    /// The subscriptions that end at this node.
    pub(crate) open spec fn own(&self, group: Option<Seq<u8>>) -> Seq<InfoView> {
        match group {
            None => table::infos(self.subscriptions@),
            Some(g) => members(self.shared@, g),
        }
    }

    /// The subscriptions that end below this node at the given path.
    pub(crate) open spec fn leaf(&self, group: Option<Seq<u8>>, path: Seq<Seq<u8>>) -> Seq<InfoView>
        decreases path.len(),
    {
        if path.len() == 0 {
            self.own(group)
        } else {
            match self.child(path[0]) {
                Some(n) => n.leaf(group, path.drop_first()),
                None => Seq::empty(),
            }
        }
    }

    /// How many subscriptions of a client the subtree holds.
    pub(crate) open spec fn count(&self, client: Seq<char>) -> nat
        decreases self,
    {
        table::of_client(table::infos(self.subscriptions@), client) + count_groups(
            self.shared@,
            client,
        ) + count_edges(self.children@, client) + match self.plus_child {
            Some(n) => n.count(client),
            None => 0,
        } + match self.hash_child {
            Some(n) => n.count(client),
            None => 0,
        }
    }
}

/// How many subscriptions of a client the groups hold.
pub(crate) open spec fn count_groups(groups: Seq<Bucket>, client: Seq<char>) -> nat
    decreases groups.len(),
{
    if groups.len() == 0 {
        0
    } else {
        count_groups(groups.drop_last(), client) + table::of_client(
            table::infos(groups.last().members@),
            client,
        )
    }
}

/// How many subscriptions of a client the children hold.
pub(crate) open spec fn count_edges(edges: Seq<Edge>, client: Seq<char>) -> nat
    decreases edges,
{
    if edges.len() == 0 {
        0
    } else {
        count_edges(edges.drop_last(), client) + edges.last().node.count(client)
    }
}

/// Where a label stands.
proof fn lemma_edge_index(edges: Seq<Edge>, label: Seq<u8>)
    ensures
        -1 <= edge_index(edges, label) < edges.len(),
        edge_index(edges, label) >= 0 ==> edges[edge_index(edges, label)].label@ == label,
        edge_index(edges, label) < 0 ==> forall|i: int|
            0 <= i < edges.len() ==> (#[trigger] edges[i]).label@ != label,
    decreases edges.len(),
{
    if edges.len() > 0 && edges.last().label@ != label {
        lemma_edge_index(edges.drop_last(), label);
        if edge_index(edges.drop_last(), label) < 0 {
            assert forall|i: int| 0 <= i < edges.len() implies (#[trigger] edges[i]).label@
                != label by {
                if i < edges.len() - 1 {
                    assert(edges.drop_last()[i] == edges[i]);
                }
            }
        }
    }
}

/// Where a group stands, -1 where it does not.
spec fn group_index(groups: Seq<Bucket>, group: Seq<u8>) -> int
    decreases groups.len(),
{
    if groups.len() == 0 {
        -1
    } else if groups.last().name@ == group {
        groups.len() - 1
    } else {
        group_index(groups.drop_last(), group)
    }
}

/// Where a group stands.
proof fn lemma_group_index(groups: Seq<Bucket>, group: Seq<u8>)
    ensures
        -1 <= group_index(groups, group) < groups.len(),
        group_index(groups, group) >= 0 ==> groups[group_index(groups, group)].name@ == group
            && members(groups, group) == table::infos(
            groups[group_index(groups, group)].members@,
        ),
        group_index(groups, group) < 0 ==> members(groups, group) == Seq::<InfoView>::empty()
            && forall|i: int| 0 <= i < groups.len() ==> (#[trigger] groups[i]).name@ != group,
    decreases groups.len(),
{
    if groups.len() > 0 && groups.last().name@ != group {
        lemma_group_index(groups.drop_last(), group);
        if group_index(groups.drop_last(), group) < 0 {
            assert forall|i: int| 0 <= i < groups.len() implies (#[trigger] groups[i]).name@
                != group by {
                if i < groups.len() - 1 {
                    assert(groups.drop_last()[i] == groups[i]);
                }
            }
        }
    }
}

/// A group that is not there has no members.
pub(crate) proof fn lemma_members_absent(groups: Seq<Bucket>, group: Seq<u8>)
    requires
        forall|i: int| 0 <= i < groups.len() ==> (#[trigger] groups[i]).name@ != group,
    ensures
        members(groups, group).len() == 0,
{
    lemma_group_index(groups, group);
}

/// The members of the group at a known place.
pub(crate) proof fn lemma_members_at(groups: Seq<Bucket>, i: int)
    requires
        groups_distinct(groups),
        0 <= i < groups.len(),
    ensures
        members(groups, groups[i].name@) == table::infos(groups[i].members@),
{
    lemma_group_index(groups, groups[i].name@);
}

/// Groups with one replaced by another of the same name.
proof fn lemma_members_update(groups: Seq<Bucket>, i: int, g: Bucket)
    requires
        groups_distinct(groups),
        0 <= i < groups.len(),
        g.name@ == groups[i].name@,
    ensures
        groups_distinct(groups.update(i, g)),
        forall|h: Seq<u8>| #[trigger]
            members(groups.update(i, g), h) == (if h == g.name@ {
                table::infos(g.members@)
            } else {
                members(groups, h)
            }),
        forall|c: Seq<char>| #[trigger]
            count_groups(groups.update(i, g), c) + table::of_client(
                table::infos(groups[i].members@),
                c,
            ) == count_groups(groups, c) + table::of_client(table::infos(g.members@), c),
    decreases groups.len(),
{
    let after = groups.update(i, g);
    assert forall|a: int, b: int| 0 <= a < b < after.len() implies (#[trigger] after[a]).name@ != (
    #[trigger] after[b]).name@ by {
        assert(after[a].name@ == groups[a].name@ && after[b].name@ == groups[b].name@);
    }
    assert forall|h: Seq<u8>| #[trigger] members(after, h) == (if h == g.name@ {
        table::infos(g.members@)
    } else {
        members(groups, h)
    }) by {
        lemma_group_index(after, h);
        lemma_group_index(groups, h);
        let k = group_index(after, h);
        let m = group_index(groups, h);
        if k >= 0 {
            assert(after[k].name@ == groups[k].name@);
            assert(m == k);
        } else if m >= 0 {
            assert(after[m].name@ == h);
        }
        if h == g.name@ {
            assert(after[i].name@ == h);
            assert(k == i);
        }
    }
    if i == groups.len() - 1 {
        assert(after.drop_last() =~= groups.drop_last());
    } else {
        assert(after.drop_last() =~= groups.drop_last().update(i, g));
        lemma_members_update(groups.drop_last(), i, g);
        assert forall|c: Seq<char>| #[trigger]
            count_groups(after, c) + table::of_client(table::infos(groups[i].members@), c)
                == count_groups(groups, c) + table::of_client(table::infos(g.members@), c) by {
            assert(count_groups(groups.drop_last().update(i, g), c) + table::of_client(
                table::infos(groups.drop_last()[i].members@),
                c,
            ) == count_groups(groups.drop_last(), c) + table::of_client(
                table::infos(g.members@),
                c,
            ));
        }
    }
}

/// Groups with one more.
proof fn lemma_members_push(groups: Seq<Bucket>, g: Bucket)
    requires
        groups_distinct(groups),
        forall|i: int| 0 <= i < groups.len() ==> (#[trigger] groups[i]).name@ != g.name@,
    ensures
        groups_distinct(groups.push(g)),
        forall|h: Seq<u8>| #[trigger]
            members(groups.push(g), h) == (if h == g.name@ {
                table::infos(g.members@)
            } else {
                members(groups, h)
            }),
        forall|c: Seq<char>| #[trigger]
            count_groups(groups.push(g), c) == count_groups(groups, c) + table::of_client(
                table::infos(g.members@),
                c,
            ),
{
    assert(groups.push(g).drop_last() =~= groups);
}

/// Groups with one taken out.
proof fn lemma_members_remove(groups: Seq<Bucket>, i: int)
    requires
        groups_distinct(groups),
        0 <= i < groups.len(),
    ensures
        groups_distinct(groups.remove(i)),
        forall|h: Seq<u8>| #[trigger]
            members(groups.remove(i), h) == (if h == groups[i].name@ {
                Seq::empty()
            } else {
                members(groups, h)
            }),
        forall|c: Seq<char>| #[trigger]
            count_groups(groups.remove(i), c) + table::of_client(
                table::infos(groups[i].members@),
                c,
            ) == count_groups(groups, c),
    decreases groups.len(),
{
    let after = groups.remove(i);
    assert forall|h: Seq<u8>| #[trigger] members(after, h) == (if h == groups[i].name@ {
        Seq::empty()
    } else {
        members(groups, h)
    }) by {
        lemma_group_index(after, h);
        lemma_group_index(groups, h);
        let k = group_index(after, h);
        let m = group_index(groups, h);
        if k >= 0 {
            let j = if k < i {
                k
            } else {
                k + 1
            };
            assert(after[k] == groups[j]);
            assert(m == j);
        } else if m >= 0 && m != i {
            let j = if m < i {
                m
            } else {
                m - 1
            };
            assert(after[j] == groups[m]);
        }
    }
    if i == groups.len() - 1 {
        assert(after =~= groups.drop_last());
    } else {
        assert(after.drop_last() =~= groups.drop_last().remove(i));
        lemma_members_remove(groups.drop_last(), i);
        assert forall|c: Seq<char>| #[trigger]
            count_groups(after, c) + table::of_client(table::infos(groups[i].members@), c)
                == count_groups(groups, c) by {
            assert(count_groups(groups.drop_last().remove(i), c) + table::of_client(
                table::infos(groups.drop_last()[i].members@),
                c,
            ) == count_groups(groups.drop_last(), c));
        }
    }
}

/// Children with one replaced.
proof fn lemma_count_edges_update(edges: Seq<Edge>, i: int, e: Edge, client: Seq<char>)
    requires
        0 <= i < edges.len(),
    ensures
        count_edges(edges.update(i, e), client) + edges[i].node.count(client) == count_edges(
            edges,
            client,
        ) + e.node.count(client),
        edges[i].node.count(client) <= count_edges(edges, client),
    decreases edges.len(),
{
    let after = edges.update(i, e);
    if i == edges.len() - 1 {
        assert(after.drop_last() =~= edges.drop_last());
    } else {
        assert(after.drop_last() =~= edges.drop_last().update(i, e));
        lemma_count_edges_update(edges.drop_last(), i, e, client);
    }
}

/// Children with one taken out.
proof fn lemma_count_edges_remove(edges: Seq<Edge>, i: int, client: Seq<char>)
    requires
        0 <= i < edges.len(),
    ensures
        count_edges(edges.remove(i), client) + edges[i].node.count(client) == count_edges(
            edges,
            client,
        ),
    decreases edges.len(),
{
    let after = edges.remove(i);
    if i == edges.len() - 1 {
        assert(after =~= edges.drop_last());
    } else {
        assert(after.drop_last() =~= edges.drop_last().remove(i));
        lemma_count_edges_remove(edges.drop_last(), i, client);
    }
}

/// Takes the subscriptions of a client out of a list, and counts them.
pub(crate) fn remove_from_list(list: &mut Vec<SubscriptionInfo>, client: &str) -> (removed: usize)
    ensures
        table::infos(final(list)@) == table::drop_client(table::infos(old(list)@), client@),
        removed == table::of_client(table::infos(old(list)@), client@),
        final(list)@.len() + removed == old(list)@.len(),
{
    let ghost orig = table::infos(list@);
    let total: usize = list.len();
    let mut i: usize = 0;
    let mut removed: usize = 0;
    assert(orig.take(0) =~= Seq::empty());
    assert(table::infos(list@).take(0) =~= Seq::empty());
    while i < list.len()
        invariant
            i <= list@.len(),
            list@.len() + removed == orig.len(),
            orig.len() == total,
            table::infos(list@).take(i as int) == table::drop_client(
                orig.take(i + removed),
                client@,
            ),
            table::infos(list@).skip(i as int) == orig.skip(i + removed),
            removed == table::of_client(orig.take(i + removed), client@),
        decreases list@.len() - i,
    {
        let ghost k = i + removed;
        let ghost before = table::infos(list@);
        proof {
            assert(before.skip(i as int)[0] == orig.skip(k)[0]);
            assert(before[i as int] == orig[k]);
            assert(orig.take(k + 1).drop_last() =~= orig.take(k));
            assert(orig.take(k + 1).last() == orig[k]);
        }
        if str_eq(list[i].client_id.as_str(), client) {
            list.remove(i);
            removed = removed + 1;
            proof {
                let after = table::infos(list@);
                assert(after.take(i as int) =~= before.take(i as int));
                assert(after.skip(i as int) =~= before.skip(i as int).drop_first());
                assert(orig.skip(k).drop_first() =~= orig.skip(k + 1));
            }
        } else {
            proof {
                assert(before.take(i + 1) =~= before.take(i as int).push(before[i as int]));
                assert(before.skip(i + 1) =~= before.skip(i as int).drop_first());
                assert(orig.skip(k).drop_first() =~= orig.skip(k + 1));
            }
            i = i + 1;
        }
    }
    assert(table::infos(list@).take(list@.len() as int) =~= table::infos(list@));
    assert(orig.take(orig.len() as int) =~= orig);
    removed
}

/// Finds a group.
fn find_group(groups: &Vec<Bucket>, group: &[u8]) -> (r: Option<usize>)
    ensures
        match r {
            Some(i) => i < groups@.len() && groups@[i as int].name@ == group@,
            None => forall|i: int| 0 <= i < groups@.len() ==> (#[trigger] groups@[i]).name@
                != group@,
        },
{
    let mut i: usize = 0;
    while i < groups.len()
        invariant
            i <= groups@.len(),
            forall|k: int| 0 <= k < i ==> (#[trigger] groups@[k]).name@ != group@,
        decreases groups@.len() - i,
    {
        if bytes_eq(groups[i].name.as_slice(), group) {
            return Some(i);
        }
        i = i + 1;
    }
    None
}

/// The name of a group that may be absent.
pub open spec fn group_view(group: Option<&[u8]>) -> Option<Seq<u8>> {
    match group {
        Some(g) => Some(g@),
        None => None,
    }
}

/// Whether no name stands for an empty list.
pub open spec fn no_empty(buckets: Seq<Bucket>) -> bool {
    forall|i: int| 0 <= i < buckets.len() ==> (#[trigger] buckets[i]).members@.len() > 0
}

/// Adds a subscription under a name, in place of an earlier one of the client, and says whether
/// there was one.
pub(crate) fn add_to_buckets(buckets: &mut Vec<Bucket>, name: &[u8], info: SubscriptionInfo) -> (
existed: bool)
    requires
        groups_distinct(old(buckets)@),
        no_empty(old(buckets)@),
    ensures
        groups_distinct(final(buckets)@),
        no_empty(final(buckets)@),
        existed == (table::of_client(members(old(buckets)@, name@), info.client_id@) > 0),
        forall|h: Seq<u8>| #[trigger]
            members(final(buckets)@, h) == (if h == name@ {
                table::drop_client(members(old(buckets)@, h), info.client_id@).push(info@)
            } else {
                members(old(buckets)@, h)
            }),
        forall|c: Seq<char>| #[trigger]
            count_groups(final(buckets)@, c) == (if c == info.client_id@ {
                (count_groups(old(buckets)@, c) + 1 - table::of_client(
                    members(old(buckets)@, name@),
                    c,
                )) as nat
            } else {
                count_groups(old(buckets)@, c)
            }),
        table::of_client(members(old(buckets)@, name@), info.client_id@) <= count_groups(
            old(buckets)@,
            info.client_id@,
        ),
{
    let ghost client = info.client_id@;
    let ghost iv = info@;
    let ghost groups = buckets@;
    match find_group(buckets, name) {
        Some(i) => {
            let ghost before = table::infos(groups[i as int].members@);
            proof {
                lemma_members_at(groups, i as int);
                table::lemma_drop_client(before, client);
                table::lemma_push_info(table::drop_client(before, client), iv);
            }
            let removed: usize = remove_from_list(&mut buckets[i].members, info.client_id.as_str());
            let ghost kept = buckets@[i as int].members@;
            buckets[i].members.push(info);
            proof {
                let g = buckets@[i as int];
                assert(buckets@ =~= groups.update(i as int, g));
                lemma_members_update(groups, i as int, g);
                assert(table::infos(g.members@) =~= table::infos(kept).push(iv));
                lemma_count_member(groups, i as int, client);
                assert forall|c: Seq<char>| #[trigger]
                    count_groups(buckets@, c) == (if c == client {
                        (count_groups(groups, c) + 1 - table::of_client(before, c)) as nat
                    } else {
                        count_groups(groups, c)
                    }) by {
                    assert(count_groups(groups.update(i as int, g), c) + table::of_client(before, c)
                        == count_groups(groups, c) + table::of_client(table::infos(g.members@), c));
                    assert(table::of_client(table::drop_client(before, client), c) == (if c
                        == client {
                        0
                    } else {
                        table::of_client(before, c)
                    }));
                }
            }
            removed > 0
        },
        None => {
            proof {
                lemma_group_index(groups, name@);
                assert(members(groups, name@) == Seq::<InfoView>::empty()) by {
                    if group_index(groups, name@) >= 0 {
                        assert(groups[group_index(groups, name@)].name@ == name@);
                    }
                }
            }
            let mut list: Vec<SubscriptionInfo> = Vec::new();
            list.push(info);
            let entry = Bucket { name: copy_bytes(name), members: list };
            buckets.push(entry);
            proof {
                assert(buckets@ =~= groups.push(entry));
                lemma_members_push(groups, entry);
                let none = Seq::<InfoView>::empty();
                assert(table::infos(entry.members@) =~= none.push(iv));
                table::lemma_push_info(none, iv);
                assert(table::drop_client(none, client) =~= none);
            }
            false
        },
    }
}

/// Takes out the subscription of a client under a name, and the name where nothing is left, and
/// says whether there was one.
pub(crate) fn remove_from_buckets(buckets: &mut Vec<Bucket>, name: &[u8], client: &str) -> (
removed: bool)
    requires
        groups_distinct(old(buckets)@),
        no_empty(old(buckets)@),
    ensures
        groups_distinct(final(buckets)@),
        no_empty(final(buckets)@),
        removed == (table::of_client(members(old(buckets)@, name@), client@) > 0),
        forall|h: Seq<u8>| #[trigger]
            members(final(buckets)@, h) == (if h == name@ {
                table::drop_client(members(old(buckets)@, h), client@)
            } else {
                members(old(buckets)@, h)
            }),
        forall|c: Seq<char>| #[trigger]
            count_groups(final(buckets)@, c) + (if c == client@ {
                table::of_client(members(old(buckets)@, name@), c)
            } else {
                0
            }) == count_groups(old(buckets)@, c),
{
    let ghost groups = buckets@;
    match find_group(buckets, name) {
        None => {
            proof {
                lemma_group_index(groups, name@);
                assert(members(groups, name@) == Seq::<InfoView>::empty()) by {
                    let k = group_index(groups, name@);
                    if k >= 0 {
                        assert(groups[k].name@ == name@);
                    }
                }
                assert(table::drop_client(Seq::empty(), client@) =~= Seq::empty());
            }
            false
        },
        Some(i) => {
            let ghost before = table::infos(groups[i as int].members@);
            proof {
                lemma_members_at(groups, i as int);
                table::lemma_drop_client(before, client@);
            }
            let mut list: Vec<SubscriptionInfo> = Vec::new();
            std::mem::swap(&mut list, &mut buckets[i].members);
            let removed: usize = remove_from_list(&mut list, client);
            let ghost kept = list@;
            if list.len() == 0 {
                buckets.remove(i);
                proof {
                    assert(buckets@ =~= groups.remove(i as int));
                    lemma_members_remove(groups, i as int);
                    assert(table::infos(kept) =~= Seq::empty());
                    assert forall|c: Seq<char>| #[trigger]
                        count_groups(buckets@, c) + (if c == client@ {
                            table::of_client(before, c)
                        } else {
                            0
                        }) == count_groups(groups, c) by {
                        assert(count_groups(groups.remove(i as int), c) + table::of_client(
                            before,
                            c,
                        ) == count_groups(groups, c));
                        assert(table::of_client(table::drop_client(before, client@), c) == 0);
                    }
                    assert forall|k: int| 0 <= k < buckets@.len() implies (
                    #[trigger] buckets@[k]).members@.len() > 0 by {
                        let x = if k < i {
                            k
                        } else {
                            k + 1
                        };
                        assert(buckets@[k] == groups[x]);
                    }
                }
            } else {
                buckets[i].members = list;
                proof {
                    let g = buckets@[i as int];
                    assert(buckets@ =~= groups.update(i as int, g));
                    lemma_members_update(groups, i as int, g);
                    assert forall|c: Seq<char>| #[trigger]
                        count_groups(buckets@, c) + (if c == client@ {
                            table::of_client(before, c)
                        } else {
                            0
                        }) == count_groups(groups, c) by {
                        assert(count_groups(groups.update(i as int, g), c) + table::of_client(
                            before,
                            c,
                        ) == count_groups(groups, c) + table::of_client(
                            table::infos(g.members@),
                            c,
                        ));
                        assert(table::of_client(table::drop_client(before, client@), c) == (if c
                            == client@ {
                            0
                        } else {
                            table::of_client(before, c)
                        }));
                    }
                }
            }
            removed > 0
        },
    }
}

impl TrieNode {
    /// A node without subscriptions.
    pub(crate) fn empty() -> (r: Self)
        ensures
            r.wf(),
            forall|g: Option<Seq<u8>>, p: Seq<Seq<u8>>| #[trigger]
                r.leaf(g, p) == Seq::<InfoView>::empty(),
            forall|c: Seq<char>| #[trigger] r.count(c) == 0,
    {
        let r = TrieNode {
            children: Vec::new(),
            plus_child: None,
            hash_child: None,
            subscriptions: Vec::new(),
            shared: Vec::new(),
        };
        assert forall|g: Option<Seq<u8>>, p: Seq<Seq<u8>>| #[trigger]
            r.leaf(g, p) == Seq::<InfoView>::empty() by {
            assert(table::infos(r.subscriptions@) =~= Seq::empty());
        }
        assert forall|c: Seq<char>| #[trigger] r.count(c) == 0 by {
            assert(table::infos(r.subscriptions@) =~= Seq::empty());
            assert(count_edges(r.children@, c) == 0);
        }
        r
    }

    /// Whether nothing hangs on this node.
    pub(crate) fn is_empty(&self) -> (r: bool)
        ensures
            r == self.bare(),
            r ==> forall|g: Option<Seq<u8>>, p: Seq<Seq<u8>>| #[trigger]
                self.leaf(g, p) == Seq::<InfoView>::empty(),
            r ==> forall|c: Seq<char>| #[trigger] self.count(c) == 0,
    {
        let r = self.children.len() == 0 && self.plus_child.is_none() && self.hash_child.is_none()
            && self.subscriptions.len() == 0 && self.shared.len() == 0;
        proof {
            if r {
                assert(table::infos(self.subscriptions@) =~= Seq::empty());
                assert forall|g: Option<Seq<u8>>, p: Seq<Seq<u8>>| #[trigger]
                    self.leaf(g, p) == Seq::<InfoView>::empty() by {}
                assert forall|c: Seq<char>| #[trigger] self.count(c) == 0 by {
                    assert(count_edges(self.children@, c) == 0);
                }
            }
        }
        r
    }

    /// Finds the child under a level without wildcard.
    fn find_child(&self, label: &[u8]) -> (r: Option<usize>)
        requires
            self.local_wf(),
        ensures
            match r {
                Some(i) => i < self.children@.len() && self.children@[i as int].label@ == label@
                    && edge_index(self.children@, label@) == i,
                None => edge_index(self.children@, label@) == -1,
            },
    {
        proof {
            lemma_edge_index(self.children@, label@);
        }
        let mut i: usize = 0;
        while i < self.children.len()
            invariant
                i <= self.children@.len(),
                forall|k: int| 0 <= k < i ==> (#[trigger] self.children@[k]).label@ != label@,
                self.local_wf(),
                -1 <= edge_index(self.children@, label@) < self.children@.len(),
                edge_index(self.children@, label@) >= 0 ==> self.children@[edge_index(
                    self.children@,
                    label@,
                )].label@ == label@,
            decreases self.children@.len() - i,
        {
            if bytes_eq(self.children[i].label.as_slice(), label) {
                proof {
                    lemma_edge_index(self.children@, label@);
                    let k = edge_index(self.children@, label@);
                    assert(k >= 0) by {
                        assert(self.children@[i as int].label@ == label@);
                    }
                    assert(self.children@[k].label@ == self.children@[i as int].label@);
                }
                return Some(i);
            }
            i = i + 1;
        }
        None
    }

    /// Adds a subscription that ends at this node, in place of an earlier one of the client, and
    /// says whether there was one.
    fn add_own(&mut self, group: Option<&[u8]>, info: SubscriptionInfo) -> (existed: bool)
        requires
            old(self).wf(),
        ensures
            final(self).wf(),
            existed == (table::of_client(old(self).own(group_view(group)), info.client_id@) > 0),
            forall|g: Option<Seq<u8>>| #[trigger]
                final(self).own(g) == (if g == group_view(group) {
                    table::drop_client(old(self).own(g), info.client_id@).push(info@)
                } else {
                    old(self).own(g)
                }),
            final(self).children == old(self).children,
            final(self).plus_child == old(self).plus_child,
            final(self).hash_child == old(self).hash_child,
            forall|c: Seq<char>| #[trigger]
                final(self).count(c) == (if c == info.client_id@ {
                    (old(self).count(c) + 1 - table::of_client(
                        old(self).own(group_view(group)),
                        c,
                    )) as nat
                } else {
                    old(self).count(c)
                }),
            table::of_client(old(self).own(group_view(group)), info.client_id@) <= old(self).count(
                info.client_id@,
            ),
    {
        let ghost client = info.client_id@;
        let ghost iv = info@;
        let ghost was = *self;
        match group {
            None => {
                let ghost before = table::infos(self.subscriptions@);
                proof {
                    table::lemma_drop_client(before, client);
                    table::lemma_push_info(table::drop_client(before, client), iv);
                }
                let removed: usize = remove_from_list(
                    &mut self.subscriptions,
                    info.client_id.as_str(),
                );
                let ghost kept = self.subscriptions@;
                self.subscriptions.push(info);
                assert(table::infos(self.subscriptions@) =~= table::infos(kept).push(iv));
                assert(self.wf());
                removed > 0
            },
            Some(name) => {
                let existed = add_to_buckets(&mut self.shared, name, info);
                assert(self.local_wf());
                proof {
                    assert forall|c: Seq<char>| #[trigger]
                        self.count(c) == (if c == client {
                            (was.count(c) + 1 - table::of_client(members(was.shared@, name@), c)) as nat
                        } else {
                            was.count(c)
                        }) by {
                        assert(count_groups(self.shared@, c) == (if c == client {
                            (count_groups(was.shared@, c) + 1 - table::of_client(
                                members(was.shared@, name@),
                                c,
                            )) as nat
                        } else {
                            count_groups(was.shared@, c)
                        }));
                    }
                }
                existed
            },
        }
    }
}

/// The subscriptions of a client in one group are among those in all groups.
proof fn lemma_count_member(groups: Seq<Bucket>, i: int, client: Seq<char>)
    requires
        0 <= i < groups.len(),
    ensures
        table::of_client(table::infos(groups[i].members@), client) <= count_groups(groups, client),
    decreases groups.len(),
{
    if i < groups.len() - 1 {
        lemma_count_member(groups.drop_last(), i, client);
    }
}

/// Children with one taken out.
proof fn lemma_edges_remove(edges: Seq<Edge>, i: int)
    requires
        forall|a: int, b: int|
            0 <= a < b < edges.len() ==> (#[trigger] edges[a]).label@ != (
            #[trigger] edges[b]).label@,
        0 <= i < edges.len(),
    ensures
        forall|a: int, b: int|
            0 <= a < b < edges.remove(i).len() ==> (#[trigger] edges.remove(i)[a]).label@ != (
            #[trigger] edges.remove(i)[b]).label@,
        edge_index(edges.remove(i), edges[i].label@) == -1,
        forall|l: Seq<u8>|
            l != edges[i].label@ ==> {
                let m = #[trigger] edge_index(edges, l);
                let k = edge_index(edges.remove(i), l);
                (m < 0 <==> k < 0) && (k >= 0 ==> edges.remove(i)[k] == edges[m])
            },
{
    let after = edges.remove(i);
    assert forall|a: int, b: int| 0 <= a < b < after.len() implies (#[trigger] after[a]).label@ != (
    #[trigger] after[b]).label@ by {
        let x = if a < i {
            a
        } else {
            a + 1
        };
        let y = if b < i {
            b
        } else {
            b + 1
        };
        assert(after[a] == edges[x] && after[b] == edges[y]);
    }
    lemma_edge_index(after, edges[i].label@);
    let own = edge_index(after, edges[i].label@);
    if own >= 0 {
        let x = if own < i {
            own
        } else {
            own + 1
        };
        assert(after[own] == edges[x]);
        assert(edges[x].label@ == edges[i].label@);
    }
    assert forall|l: Seq<u8>| l != edges[i].label@ implies {
        let m = #[trigger] edge_index(edges, l);
        let k = edge_index(after, l);
        (m < 0 <==> k < 0) && (k >= 0 ==> after[k] == edges[m])
    } by {
        lemma_edge_index(edges, l);
        lemma_edge_index(after, l);
        let m = edge_index(edges, l);
        let k = edge_index(after, l);
        if k >= 0 {
            let x = if k < i {
                k
            } else {
                k + 1
            };
            assert(after[k] == edges[x]);
            assert(edges[x].label@ == l);
            assert(m >= 0);
            assert(edges[m].label@ == edges[x].label@);
            assert(m == x);
        }
        if m >= 0 {
            let x = if m < i {
                m
            } else {
                m - 1
            };
            assert(after[x] == edges[m]);
        }
    }
}

/// A node differs from another at most in the child under one level.
spec fn same_but(a: TrieNode, b: TrieNode, level: Seq<u8>) -> bool {
    &&& forall|g: Option<Seq<u8>>| #[trigger] a.own(g) == b.own(g)
    &&& forall|l: Seq<u8>| l != level ==> #[trigger] a.child(l) == b.child(l)
}

/// What lies under other levels is the same.
proof fn lemma_same_but(a: TrieNode, b: TrieNode, level: Seq<u8>)
    requires
        same_but(a, b, level),
    ensures
        forall|g: Option<Seq<u8>>, p: Seq<Seq<u8>>|
            p.len() == 0 || p[0] != level ==> #[trigger] a.leaf(g, p) == b.leaf(g, p),
{
    assert forall|g: Option<Seq<u8>>, p: Seq<Seq<u8>>| p.len() == 0 || p[0] != level implies
        #[trigger] a.leaf(g, p) == b.leaf(g, p) by {
        if p.len() > 0 {
            assert(a.child(p[0]) == b.child(p[0]));
        } else {
            assert(a.own(g) == b.own(g));
        }
    }
}

impl TrieNode {
    /// Takes out the child under a level; an empty node where there is none.
    fn take_child(&mut self, level: &[u8]) -> (child: TrieNode)
        requires
            old(self).wf(),
        ensures
            final(self).wf(),
            child.wf(),
            same_but(*final(self), *old(self), level@),
            final(self).child(level@) is None,
            forall|g: Option<Seq<u8>>, p: Seq<Seq<u8>>|
                p.len() > 0 && p[0] == level@ ==> #[trigger] old(self).leaf(g, p) == child.leaf(
                    g,
                    p.drop_first(),
                ),
            forall|c: Seq<char>|
                #![trigger final(self).count(c)]
                #![trigger child.count(c)]
                final(self).count(c) + child.count(c) == old(self).count(c),
    {
        let ghost was = *self;
        if is_plus(level) {
            match self.plus_child.take() {
                Some(node) => *node,
                None => TrieNode::empty(),
            }
        } else if is_hash(level) {
            match self.hash_child.take() {
                Some(node) => *node,
                None => TrieNode::empty(),
            }
        } else {
            match self.find_child(level) {
                Some(i) => {
                    let edge = self.children.remove(i);
                    proof {
                        let edges = was.children@;
                        assert(edge == edges[i as int]);
                        lemma_edges_remove(edges, i as int);
                        assert(self.local_wf()) by {
                            assert forall|k: int| 0 <= k < self.children@.len() implies (
                            #[trigger] self.children@[k]).label@ != topic::plus()
                                && self.children@[k].label@ != topic::hash() by {
                                let x = if k < i {
                                    k
                                } else {
                                    k + 1
                                };
                                assert(self.children@[k] == edges[x]);
                            }
                        }
                        assert forall|k: int|
                            #![trigger self.children@[k]]
                            0 <= k < self.children@.len() implies self.children@[k].node.wf() by {
                            let x = if k < i {
                                k
                            } else {
                                k + 1
                            };
                            assert(self.children@[k] == edges[x]);
                        }
                        assert forall|l: Seq<u8>| l != level@ implies #[trigger] self.child(l)
                            == was.child(l) by {
                            let m = edge_index(edges, l);
                        }
                        assert forall|c: Seq<char>|
                            #![trigger self.count(c)]
                            #![trigger edge.node.count(c)]
                            self.count(c) + edge.node.count(c) == was.count(c) by {
                            lemma_count_edges_remove(edges, i as int, c);
                        }
                    }
                    edge.node
                },
                None => TrieNode::empty(),
            }
        }
    }

    /// Puts a child under a level that has none.
    fn put_child(&mut self, level: &[u8], node: TrieNode)
        requires
            old(self).wf(),
            node.wf(),
            old(self).child(level@) is None,
        ensures
            final(self).wf(),
            same_but(*final(self), *old(self), level@),
            final(self).child(level@) == Some(node),
            forall|c: Seq<char>| #[trigger]
                final(self).count(c) == old(self).count(c) + node.count(c),
    {
        let ghost was = *self;
        if is_plus(level) {
            self.plus_child = Some(Box::new(node));
        } else if is_hash(level) {
            self.hash_child = Some(Box::new(node));
        } else {
            let edge = Edge { label: copy_bytes(level), node };
            self.children.push(edge);
            proof {
                let edges = was.children@;
                lemma_edge_index(edges, level@);
                assert(self.children@.drop_last() =~= edges);
                assert(self.local_wf()) by {
                    assert forall|a: int, b: int| 0 <= a < b < self.children@.len() implies (
                    #[trigger] self.children@[a]).label@ != (#[trigger] self.children@[b]).label@ by {
                        assert(self.children@[a] == edges[a]);
                        if b < edges.len() {
                            assert(self.children@[b] == edges[b]);
                        }
                    }
                    assert forall|k: int| 0 <= k < self.children@.len() implies (
                    #[trigger] self.children@[k]).label@ != topic::plus()
                        && self.children@[k].label@ != topic::hash() by {
                        if k < edges.len() {
                            assert(self.children@[k] == edges[k]);
                        }
                    }
                }
                assert forall|k: int|
                    #![trigger self.children@[k]]
                    0 <= k < self.children@.len() implies self.children@[k].node.wf() by {
                    if k < edges.len() {
                        assert(self.children@[k] == edges[k]);
                    }
                }
                assert forall|l: Seq<u8>| l != level@ implies #[trigger] self.child(l)
                    == was.child(l) by {
                    lemma_edge_index(edges, l);
                    let m = edge_index(edges, l);
                    if m >= 0 {
                        assert(self.children@[m] == edges[m]);
                    }
                }
                assert forall|c: Seq<char>| #[trigger]
                    self.count(c) == was.count(c) + node.count(c) by {
                    assert(count_edges(self.children@, c) == count_edges(edges, c) + node.count(c));
                }
            }
        }
    }

    /// Adds a subscription below this node, in place of an earlier one of the client under the
    /// same key, and says whether there was one.
    pub(crate) fn add(
        &mut self,
        levels: &Vec<&[u8]>,
        at: usize,
        group: Option<&[u8]>,
        info: SubscriptionInfo,
    ) -> (existed: bool)
        requires
            old(self).wf(),
            at <= levels@.len(),
        ensures
            final(self).wf(),
            ({
                let path = table::up_to_hash(topic::slices_view(levels@).skip(at as int));
                let before = old(self).leaf(group_view(group), path);
                let c = info.client_id@;
                &&& existed == (table::of_client(before, c) > 0)
                &&& table::of_client(before, c) <= old(self).count(c)
                &&& forall|g: Option<Seq<u8>>, p: Seq<Seq<u8>>| #[trigger]
                    final(self).leaf(g, p) == (if g == group_view(group) && p == path {
                        table::drop_client(before, c).push(info@)
                    } else {
                        old(self).leaf(g, p)
                    })
                &&& forall|d: Seq<char>| #[trigger]
                    final(self).count(d) == (if d == c {
                        (old(self).count(d) + 1 - table::of_client(before, d)) as nat
                    } else {
                        old(self).count(d)
                    })
            }),
        decreases levels@.len() - at,
    {
        let ghost all = topic::slices_view(levels@).skip(at as int);
        let ghost path = table::up_to_hash(all);
        let ghost was = *self;
        let ghost gv = group_view(group);
        let ghost iv = info@;
        if at == levels.len() {
            let existed = self.add_own(group, info);
            proof {
                assert(path =~= Seq::empty());
                assert forall|g: Option<Seq<u8>>, p: Seq<Seq<u8>>| #[trigger]
                    self.leaf(g, p) == (if g == gv && p == path {
                        table::drop_client(was.leaf(gv, path), iv.client).push(iv)
                    } else {
                        was.leaf(g, p)
                    }) by {
                    if p.len() == 0 {
                        assert(p =~= path);
                        assert(self.own(g) == self.leaf(g, p));
                    } else {
                        assert(self.child(p[0]) == was.child(p[0]));
                    }
                }
            }
            return existed;
        }
        let level = levels[at];
        assert(all[0] == level@);
        assert(all.drop_first() =~= topic::slices_view(levels@).skip(at + 1));
        let mut child = self.take_child(level);
        let ghost mid = *self;
        let ghost child_before = child;
        let existed;
        if is_hash(level) {
            existed = child.add_own(group, info);
            proof {
                assert(path.drop_first() =~= Seq::empty());
                assert forall|g: Option<Seq<u8>>, q: Seq<Seq<u8>>| #[trigger]
                    child.leaf(g, q) == (if g == gv && q == path.drop_first() {
                        table::drop_client(child_before.leaf(gv, path.drop_first()), iv.client).push(
                            iv,
                        )
                    } else {
                        child_before.leaf(g, q)
                    }) by {
                    if q.len() == 0 {
                        assert(q =~= path.drop_first());
                        assert(child.own(g) == child.leaf(g, q));
                    } else {
                        assert(child.child(q[0]) == child_before.child(q[0]));
                    }
                }
            }
        } else {
            existed = child.add(levels, at + 1, group, info);
            assert(path.drop_first() =~= table::up_to_hash(all.drop_first()));
        }
        let ghost child_after = child;
        self.put_child(level, child);
        proof {
            assert(path[0] == level@);
            assert(was.leaf(gv, path) == child_before.leaf(gv, path.drop_first()));
            assert(mid.count(iv.client) + child_before.count(iv.client) == was.count(iv.client));
            lemma_same_but(mid, was, level@);
            lemma_same_but(*self, mid, level@);
            assert forall|g: Option<Seq<u8>>, p: Seq<Seq<u8>>| #[trigger]
                self.leaf(g, p) == (if g == gv && p == path {
                    table::drop_client(was.leaf(gv, path), iv.client).push(iv)
                } else {
                    was.leaf(g, p)
                }) by {
                if p.len() > 0 && p[0] == level@ {
                    let q = p.drop_first();
                    assert(self.leaf(g, p) == child_after.leaf(g, q));
                    assert(was.leaf(g, p) == child_before.leaf(g, q));
                    assert(p =~= seq![level@] + q);
                    assert(path =~= seq![level@] + path.drop_first());
                } else {
                    assert(mid.leaf(g, p) == was.leaf(g, p));
                    assert(self.leaf(g, p) == mid.leaf(g, p));
                }
            }
            assert forall|d: Seq<char>| #[trigger]
                self.count(d) == (if d == iv.client {
                    (was.count(d) + 1 - table::of_client(was.leaf(gv, path), d)) as nat
                } else {
                    was.count(d)
                }) by {
                assert(mid.count(d) + child_before.count(d) == was.count(d));
            }
        }
        existed
    }
}

impl TrieNode {
    /// Takes out the subscription of a client that ends at this node, and says whether there was
    /// one.
    fn remove_own(&mut self, group: Option<&[u8]>, client: &str) -> (removed: bool)
        requires
            old(self).wf(),
        ensures
            final(self).wf(),
            removed == (table::of_client(old(self).own(group_view(group)), client@) > 0),
            forall|g: Option<Seq<u8>>| #[trigger]
                final(self).own(g) == (if g == group_view(group) {
                    table::drop_client(old(self).own(g), client@)
                } else {
                    old(self).own(g)
                }),
            final(self).children == old(self).children,
            final(self).plus_child == old(self).plus_child,
            final(self).hash_child == old(self).hash_child,
            forall|c: Seq<char>| #[trigger]
                final(self).count(c) + (if c == client@ {
                    table::of_client(old(self).own(group_view(group)), c)
                } else {
                    0
                }) == old(self).count(c),
    {
        let ghost was = *self;
        match group {
            None => {
                proof {
                    table::lemma_drop_client(table::infos(self.subscriptions@), client@);
                }
                let removed: usize = remove_from_list(&mut self.subscriptions, client);
                removed > 0
            },
            Some(name) => {
                let removed = remove_from_buckets(&mut self.shared, name, client);
                assert(self.local_wf());
                proof {
                    assert forall|c: Seq<char>| #[trigger]
                        self.count(c) + (if c == client@ {
                            table::of_client(members(was.shared@, name@), c)
                        } else {
                            0
                        }) == was.count(c) by {
                        assert(count_groups(self.shared@, c) + (if c == client@ {
                            table::of_client(members(was.shared@, name@), c)
                        } else {
                            0
                        }) == count_groups(was.shared@, c));
                    }
                }
                removed
            },
        }
    }

    /// Takes out the subscription of a client below this node, with the nodes that become empty,
    /// and says whether there was one.
    pub(crate) fn remove(
        &mut self,
        levels: &Vec<&[u8]>,
        at: usize,
        group: Option<&[u8]>,
        client: &str,
    ) -> (removed: bool)
        requires
            old(self).wf(),
            at <= levels@.len(),
        ensures
            final(self).wf(),
            ({
                let path = topic::slices_view(levels@).skip(at as int);
                let before = old(self).leaf(group_view(group), path);
                &&& removed == (table::of_client(before, client@) > 0)
                &&& forall|g: Option<Seq<u8>>, p: Seq<Seq<u8>>| #[trigger]
                    final(self).leaf(g, p) == (if g == group_view(group) && p == path {
                        table::drop_client(before, client@)
                    } else {
                        old(self).leaf(g, p)
                    })
                &&& forall|d: Seq<char>| #[trigger]
                    final(self).count(d) + (if d == client@ {
                        table::of_client(before, d)
                    } else {
                        0
                    }) == old(self).count(d)
            }),
        decreases levels@.len() - at,
    {
        let ghost path = topic::slices_view(levels@).skip(at as int);
        let ghost was = *self;
        let ghost gv = group_view(group);
        if at == levels.len() {
            let removed = self.remove_own(group, client);
            proof {
                assert(path =~= Seq::empty());
                assert forall|g: Option<Seq<u8>>, p: Seq<Seq<u8>>| #[trigger]
                    self.leaf(g, p) == (if g == gv && p == path {
                        table::drop_client(was.leaf(gv, path), client@)
                    } else {
                        was.leaf(g, p)
                    }) by {
                    if p.len() == 0 {
                        assert(p =~= path);
                        assert(self.own(g) == self.leaf(g, p));
                    } else {
                        assert(self.child(p[0]) == was.child(p[0]));
                    }
                }
            }
            return removed;
        }
        let level = levels[at];
        assert(path[0] == level@);
        assert(path.drop_first() =~= topic::slices_view(levels@).skip(at + 1));
        let mut child = self.take_child(level);
        let ghost mid = *self;
        let ghost child_before = child;
        let removed = child.remove(levels, at + 1, group, client);
        let ghost child_after = child;
        if !child.is_empty() {
            self.put_child(level, child);
        }
        proof {
            assert(was.leaf(gv, path) == child_before.leaf(gv, path.drop_first()));
            lemma_same_but(mid, was, level@);
            lemma_same_but(*self, mid, level@);
            assert forall|g: Option<Seq<u8>>, p: Seq<Seq<u8>>| #[trigger]
                self.leaf(g, p) == (if g == gv && p == path {
                    table::drop_client(was.leaf(gv, path), client@)
                } else {
                    was.leaf(g, p)
                }) by {
                if p.len() > 0 && p[0] == level@ {
                    let q = p.drop_first();
                    assert(self.leaf(g, p) == child_after.leaf(g, q));
                    assert(was.leaf(g, p) == child_before.leaf(g, q));
                    assert(p =~= seq![level@] + q);
                    assert(path =~= seq![level@] + path.drop_first());
                } else {
                    assert(mid.leaf(g, p) == was.leaf(g, p));
                    assert(self.leaf(g, p) == mid.leaf(g, p));
                }
            }
            assert forall|d: Seq<char>| #[trigger]
                self.count(d) + (if d == client@ {
                    table::of_client(was.leaf(gv, path), d)
                } else {
                    0
                }) == was.count(d) by {
                assert(mid.count(d) + child_before.count(d) == was.count(d));
                assert(child_after.count(d) + (if d == client@ {
                    table::of_client(was.leaf(gv, path), d)
                } else {
                    0
                }) == child_before.count(d));
            }
        }
        removed
    }
}

/// Groups after the subscriptions of a client are dropped in each of them.
spec fn groups_dropped(a: Seq<Bucket>, b: Seq<Bucket>, client: Seq<char>) -> bool {
    a.len() == b.len() && forall|i: int|
        0 <= i < a.len() ==> (#[trigger] b[i]).name@ == a[i].name@ && table::infos(b[i].members@)
            == table::drop_client(table::infos(a[i].members@), client)
}

/// What becomes of the groups as a whole.
proof fn lemma_groups_dropped(a: Seq<Bucket>, b: Seq<Bucket>, client: Seq<char>)
    requires
        groups_dropped(a, b, client),
        groups_distinct(a),
    ensures
        groups_distinct(b),
        forall|h: Seq<u8>| #[trigger]
            members(b, h) == table::drop_client(members(a, h), client),
        forall|d: Seq<char>| #[trigger]
            count_groups(b, d) == (if d == client {
                0
            } else {
                count_groups(a, d)
            }),
    decreases a.len(),
{
    assert forall|i: int, j: int| 0 <= i < j < b.len() implies (#[trigger] b[i]).name@ != (
    #[trigger] b[j]).name@ by {
        assert(b[i].name@ == a[i].name@ && b[j].name@ == a[j].name@);
    }
    if a.len() > 0 {
        let fa = a.drop_last();
        let fb = b.drop_last();
        assert forall|i: int| 0 <= i < fa.len() implies (#[trigger] fb[i]).name@ == fa[i].name@
            && table::infos(fb[i].members@) == table::drop_client(
            table::infos(fa[i].members@),
            client,
        ) by {
            assert(fb[i] == b[i] && fa[i] == a[i]);
        }
        lemma_groups_dropped(fa, fb, client);
        assert(b[b.len() - 1].name@ == a[a.len() - 1].name@);
        table::lemma_drop_client(table::infos(a.last().members@), client);
        assert forall|d: Seq<char>| #[trigger]
            count_groups(b, d) == (if d == client {
                0
            } else {
                count_groups(a, d)
            }) by {
            assert(count_groups(fb, d) == (if d == client {
                0
            } else {
                count_groups(fa, d)
            }));
        }
        assert forall|h: Seq<u8>| #[trigger]
            members(b, h) == table::drop_client(members(a, h), client) by {
            assert(members(fb, h) == table::drop_client(members(fa, h), client));
        }
    } else {
        assert forall|h: Seq<u8>| #[trigger]
            members(b, h) == table::drop_client(members(a, h), client) by {
            assert(table::drop_client(Seq::empty(), client) =~= Seq::empty());
        }
    }
}

/// The subscriptions at a path below a node that may be absent.
spec fn option_leaf(
    child: Option<Box<TrieNode>>,
    group: Option<Seq<u8>>,
    path: Seq<Seq<u8>>,
) -> Seq<InfoView> {
    match child {
        Some(n) => n.leaf(group, path),
        None => Seq::empty(),
    }
}

/// How many subscriptions of a client hang on a node that may be absent.
spec fn option_count(child: Option<Box<TrieNode>>, client: Seq<char>) -> nat {
    match child {
        Some(n) => n.count(client),
        None => 0,
    }
}

/// Drops the subscriptions of a client below a child, and the child where it becomes empty.
fn drop_from_option(child: Option<Box<TrieNode>>, client: &str) -> (r: (
    Option<Box<TrieNode>>,
    usize,
))
    requires
        child matches Some(n) ==> n.wf(),
        option_count(child, client@) <= usize::MAX,
    ensures
        r.0 matches Some(n) ==> n.wf(),
        r.1 == option_count(child, client@),
        forall|g: Option<Seq<u8>>, p: Seq<Seq<u8>>| #[trigger]
            option_leaf(r.0, g, p) == table::drop_client(option_leaf(child, g, p), client@),
        forall|d: Seq<char>| #[trigger]
            option_count(r.0, d) == (if d == client@ {
                0
            } else {
                option_count(child, d)
            }),
    decreases child, 2int,
{
    let ghost was = child;
    match child {
        Some(node) => {
            let mut node = node;
            let removed: usize = node.remove_client(client);
            let ghost after = *node;
            proof {
                assert(node_dropped(*was->0, after, client@));
            }
            if node.is_empty() {
                proof {
                    assert forall|g: Option<Seq<u8>>, p: Seq<Seq<u8>>| #[trigger]
                        option_leaf(None, g, p) == table::drop_client(
                            option_leaf(was, g, p),
                            client@,
                        ) by {
                        assert(after.leaf(g, p) == Seq::<InfoView>::empty());
                    }
                    assert forall|d: Seq<char>| #[trigger]
                        option_count(None, d) == (if d == client@ {
                            0
                        } else {
                            option_count(was, d)
                        }) by {
                        assert(after.count(d) == 0);
                    }
                }
                (None, removed)
            } else {
                proof {
                    assert forall|g: Option<Seq<u8>>, p: Seq<Seq<u8>>| #[trigger]
                        option_leaf(Some(node), g, p) == table::drop_client(
                            option_leaf(was, g, p),
                            client@,
                        ) by {
                        assert(after.leaf(g, p) == option_leaf(Some(node), g, p));
                    }
                    assert forall|d: Seq<char>| #[trigger]
                        option_count(Some(node), d) == (if d == client@ {
                            0
                        } else {
                            option_count(was, d)
                        }) by {
                        assert(after.count(d) == option_count(Some(node), d));
                    }
                }
                (Some(node), removed)
            }
        },
        None => {
            assert(table::drop_client(Seq::empty(), client@) =~= Seq::empty());
            (None, 0)
        },
    }
}

/// A node after the subscriptions of a client are dropped below it.
pub(crate) open spec fn node_dropped(a: TrieNode, b: TrieNode, client: Seq<char>) -> bool {
    &&& forall|g: Option<Seq<u8>>, p: Seq<Seq<u8>>| #[trigger]
        b.leaf(g, p) == table::drop_client(a.leaf(g, p), client)
    &&& forall|d: Seq<char>| #[trigger]
        b.count(d) == (if d == client {
            0
        } else {
            a.count(d)
        })
}

/// What becomes of the children as a whole.
proof fn lemma_edges_dropped(a: Seq<Edge>, b: Seq<Edge>, client: Seq<char>)
    requires
        a.len() == b.len(),
        forall|i: int|
            0 <= i < a.len() ==> (#[trigger] b[i]).label@ == a[i].label@ && node_dropped(
                a[i].node,
                b[i].node,
                client,
            ),
    ensures
        forall|l: Seq<u8>| #[trigger] edge_index(b, l) == edge_index(a, l),
        forall|d: Seq<char>| #[trigger]
            count_edges(b, d) == (if d == client {
                0
            } else {
                count_edges(a, d)
            }),
    decreases a.len(),
{
    if a.len() > 0 {
        let fa = a.drop_last();
        let fb = b.drop_last();
        assert forall|i: int| 0 <= i < fa.len() implies (#[trigger] fb[i]).label@ == fa[i].label@
            && node_dropped(fa[i].node, fb[i].node, client) by {
            assert(fb[i] == b[i] && fa[i] == a[i]);
        }
        lemma_edges_dropped(fa, fb, client);
        assert(b[b.len() - 1].label@ == a[a.len() - 1].label@);
        assert(node_dropped(a.last().node, b.last().node, client));
        assert forall|d: Seq<char>| #[trigger]
            count_edges(b, d) == (if d == client {
                0
            } else {
                count_edges(a, d)
            }) by {
            assert(count_edges(fb, d) == (if d == client {
                0
            } else {
                count_edges(fa, d)
            }));
            assert(b.last().node.count(d) == (if d == client {
                0
            } else {
                a.last().node.count(d)
            }));
        }
        assert forall|l: Seq<u8>| #[trigger] edge_index(b, l) == edge_index(a, l) by {
            assert(edge_index(fb, l) == edge_index(fa, l));
        }
    }
}

/// The children up to one of them hold no more than all.
proof fn lemma_count_edges_prefix(edges: Seq<Edge>, n: int, client: Seq<char>)
    requires
        0 <= n <= edges.len(),
    ensures
        count_edges(edges.take(n), client) <= count_edges(edges, client),
    decreases edges.len(),
{
    if n == edges.len() {
        assert(edges.take(n) =~= edges);
    } else {
        assert(edges.drop_last().take(n) =~= edges.take(n));
        lemma_count_edges_prefix(edges.drop_last(), n, client);
    }
}

/// The groups up to one of them hold no more than all.
proof fn lemma_count_groups_prefix(groups: Seq<Bucket>, n: int, client: Seq<char>)
    requires
        0 <= n <= groups.len(),
    ensures
        count_groups(groups.take(n), client) <= count_groups(groups, client),
    decreases groups.len(),
{
    if n == groups.len() {
        assert(groups.take(n) =~= groups);
    } else {
        assert(groups.drop_last().take(n) =~= groups.take(n));
        lemma_count_groups_prefix(groups.drop_last(), n, client);
    }
}

/// Drops the subscriptions of a client in every group, and the groups that become empty.
pub(crate) fn drop_from_groups(groups: &mut Vec<Bucket>, client: &str) -> (removed: usize)
    requires
        groups_distinct(old(groups)@),
        count_groups(old(groups)@, client@) <= usize::MAX,
    ensures
        groups_distinct(final(groups)@),
        no_empty(final(groups)@),
        forall|h: Seq<u8>| #[trigger]
            members(final(groups)@, h) == table::drop_client(members(old(groups)@, h), client@),
        forall|d: Seq<char>| #[trigger]
            count_groups(final(groups)@, d) == (if d == client@ {
                0
            } else {
                count_groups(old(groups)@, d)
            }),
        removed == count_groups(old(groups)@, client@),
{
    let ghost orig = groups@;
    let mut removed: usize = 0;
    let mut i: usize = 0;
    assert(orig.take(0) =~= Seq::empty());
    while i < groups.len()
        invariant
            i <= groups@.len(),
            groups@.len() == orig.len(),
            forall|k: int|
                0 <= k < i ==> (#[trigger] groups@[k]).name@ == orig[k].name@ && table::infos(
                    groups@[k].members@,
                ) == table::drop_client(table::infos(orig[k].members@), client@),
            forall|k: int| i <= k < groups@.len() ==> #[trigger] groups@[k] == orig[k],
            removed == count_groups(orig.take(i as int), client@),
            count_groups(orig, client@) <= usize::MAX,
        decreases groups@.len() - i,
    {
        let ghost before = groups@;
        proof {
            assert(orig.take(i + 1).drop_last() =~= orig.take(i as int));
            lemma_count_groups_prefix(orig, i + 1, client@);
            assert(groups@[i as int] == orig[i as int]);
        }
        let here: usize = remove_from_list(&mut groups[i].members, client);
        removed = removed + here;
        i = i + 1;
    }
    assert(orig.take(orig.len() as int) =~= orig);
    let ghost target = groups@;
    proof {
        assert(groups_dropped(orig, target, client@));
        lemma_groups_dropped(orig, target, client@);
    }
    let mut j: usize = 0;
    while j < groups.len()
        invariant
            j <= groups@.len(),
            groups_distinct(groups@),
            forall|k: int| 0 <= k < j ==> (#[trigger] groups@[k]).members@.len() > 0,
            forall|h: Seq<u8>| #[trigger] members(groups@, h) == members(target, h),
            forall|d: Seq<char>| #[trigger] count_groups(groups@, d) == count_groups(target, d),
        decreases groups@.len() - j,
    {
        if groups[j].members.len() == 0 {
            let ghost before = groups@;
            proof {
                lemma_members_remove(before, j as int);
                lemma_members_at(before, j as int);
                assert(table::infos(before[j as int].members@) =~= Seq::empty());
            }
            groups.remove(j);
            proof {
                assert(groups@ =~= before.remove(j as int));
                assert forall|k: int| 0 <= k < j implies (#[trigger] groups@[k]).members@.len()
                    > 0 by {
                    assert(groups@[k] == before[k]);
                }
                assert forall|d: Seq<char>| #[trigger]
                    count_groups(groups@, d) == count_groups(target, d) by {
                    assert(count_groups(before.remove(j as int), d) + table::of_client(
                        table::infos(before[j as int].members@),
                        d,
                    ) == count_groups(before, d));
                }
                assert forall|h: Seq<u8>| #[trigger]
                    members(groups@, h) == members(target, h) by {
                    assert(members(before, h) == members(target, h));
                }
            }
        } else {
            j = j + 1;
        }
    }
    removed
}

impl TrieNode {
    /// Drops the subscriptions of a client in every child.
    fn drop_from_children(&mut self, client: &str) -> (removed: usize)
        requires
            old(self).wf(),
            count_edges(old(self).children@, client@) <= usize::MAX,
        ensures
            final(self).wf(),
            forall|g: Option<Seq<u8>>| #[trigger] final(self).own(g) == old(self).own(g),
            final(self).subscriptions == old(self).subscriptions,
            final(self).shared == old(self).shared,
            final(self).plus_child == old(self).plus_child,
            final(self).hash_child == old(self).hash_child,
            final(self).children@.len() == old(self).children@.len(),
            forall|i: int|
                0 <= i < final(self).children@.len() ==> (#[trigger] final(self).children@[i]).label@ == old(self).children@[i].label@ && node_dropped(
                    old(self).children@[i].node,
                    final(self).children@[i].node,
                    client@,
                ),
            removed == count_edges(old(self).children@, client@),
        decreases *old(self), 0int,
    {
        let ghost orig = self.children@;
        let ghost was = *self;
        let mut removed: usize = 0;
        let mut i: usize = 0;
        assert(orig.take(0) =~= Seq::empty());
        while i < self.children.len()
            invariant
                was == *old(self),
                orig == was.children@,
                was.wf(),
                i <= self.children@.len(),
                self.children@.len() == orig.len(),
                self.subscriptions == was.subscriptions,
                self.shared == was.shared,
                self.plus_child == was.plus_child,
                self.hash_child == was.hash_child,
                forall|k: int|
                    0 <= k < i ==> (#[trigger] self.children@[k]).label@ == orig[k].label@
                        && self.children@[k].node.wf() && node_dropped(
                        orig[k].node,
                        self.children@[k].node,
                        client@,
                    ),
                forall|k: int| i <= k < orig.len() ==> #[trigger] self.children@[k] == orig[k],
                removed == count_edges(orig.take(i as int), client@),
                count_edges(orig, client@) <= usize::MAX,
            decreases self.children@.len() - i,
        {
            proof {
                assert(orig.take(i + 1).drop_last() =~= orig.take(i as int));
                lemma_count_edges_prefix(orig, i + 1, client@);
                assert(self.children@[i as int] == orig[i as int]);
                assert(decreases_to!(*old(self) => old(self).children@[i as int].node));
            }
            let here: usize = self.children[i].node.remove_client(client);
            removed = removed + here;
            i = i + 1;
        }
        proof {
            assert(orig.take(orig.len() as int) =~= orig);
            assert(self.local_wf()) by {
                assert forall|a: int, b: int| 0 <= a < b < self.children@.len() implies (
                #[trigger] self.children@[a]).label@ != (#[trigger] self.children@[b]).label@ by {
                    assert(self.children@[a].label@ == orig[a].label@);
                    assert(self.children@[b].label@ == orig[b].label@);
                }
                assert forall|k: int| 0 <= k < self.children@.len() implies (
                #[trigger] self.children@[k]).label@ != topic::plus()
                    && self.children@[k].label@ != topic::hash() by {
                    assert(self.children@[k].label@ == orig[k].label@);
                }
            }
        }
        removed
    }

    /// Takes out the children on which nothing hangs.
    fn prune_children(&mut self)
        requires
            old(self).wf(),
        ensures
            final(self).wf(),
            final(self).children@ == without_bare(old(self).children@),
            final(self).subscriptions == old(self).subscriptions,
            final(self).shared == old(self).shared,
            forall|g: Option<Seq<u8>>, p: Seq<Seq<u8>>| #[trigger]
                final(self).leaf(g, p) == old(self).leaf(g, p),
            forall|d: Seq<char>| #[trigger] final(self).count(d) == old(self).count(d),
            final(self).plus_child == old(self).plus_child,
            final(self).hash_child == old(self).hash_child,
    {
        let ghost was = *self;
        let ghost all = self.children@;
        let ghost mut seen: int = 0;
        let mut i: usize = 0;
        proof {
            assert(all.take(0) =~= Seq::empty());
            assert(all.skip(0) =~= all);
            assert(without_bare(all.take(0)) + all.skip(0) =~= all);
        }
        while i < self.children.len()
            invariant
                i <= self.children@.len(),
                self.wf(),
                0 <= seen <= all.len(),
                i == without_bare(all.take(seen)).len(),
                self.children@ == without_bare(all.take(seen)) + all.skip(seen),
                self.subscriptions == was.subscriptions,
                self.shared == was.shared,
                forall|g: Option<Seq<u8>>, p: Seq<Seq<u8>>| #[trigger]
                    self.leaf(g, p) == was.leaf(g, p),
                forall|d: Seq<char>| #[trigger] self.count(d) == was.count(d),
                self.plus_child == was.plus_child,
                self.hash_child == was.hash_child,
            decreases self.children@.len() - i,
        {
            proof {
                assert(seen < all.len());
                assert(self.children@[i as int] == all[seen]);
                assert(all.take(seen + 1).drop_last() =~= all.take(seen));
                assert(all.take(seen + 1).last() == all[seen]);
            }
            if self.children[i].node.is_empty() {
                let ghost before = *self;
                let edge = self.children.remove(i);
                proof {
                    let edges = before.children@;
                    let level = edge.label@;
                    assert(edge == edges[i as int]);
                    assert(self.children@ =~= without_bare(all.take(seen + 1)) + all.skip(seen + 1));
                    seen = seen + 1;
                    lemma_edges_remove(edges, i as int);
                    assert forall|k: int|
                        #![trigger self.children@[k]]
                        0 <= k < self.children@.len() implies self.children@[k].node.wf()
                        && self.children@[k].label@ != topic::plus() && self.children@[k].label@
                        != topic::hash() by {
                        let x = if k < i {
                            k
                        } else {
                            k + 1
                        };
                        assert(self.children@[k] == edges[x]);
                    }
                    assert(self.local_wf());
                    assert forall|l: Seq<u8>| l != level implies #[trigger] self.child(l)
                        == before.child(l) by {
                        let m = edge_index(edges, l);
                    }
                    assert(same_but(*self, before, level));
                    lemma_same_but(*self, before, level);
                    lemma_edge_index(edges, level);
                    assert(edge_index(edges, level) == i) by {
                        let k = edge_index(edges, level);
                        assert(edges[i as int].label@ == level);
                        assert(k >= 0);
                        assert(edges[k].label@ == edges[i as int].label@);
                    }
                    assert forall|g: Option<Seq<u8>>, p: Seq<Seq<u8>>| #[trigger]
                        self.leaf(g, p) == was.leaf(g, p) by {
                        assert(before.leaf(g, p) == was.leaf(g, p));
                        if p.len() > 0 && p[0] == level {
                            assert(before.leaf(g, p) == edge.node.leaf(g, p.drop_first()));
                        }
                    }
                    assert forall|d: Seq<char>| #[trigger] self.count(d) == was.count(d) by {
                        lemma_count_edges_remove(edges, i as int, d);
                        assert(before.count(d) == was.count(d));
                        assert(edge.node.count(d) == 0);
                    }
                }
            } else {
                proof {
                    assert(self.children@ =~= without_bare(all.take(seen + 1)) + all.skip(seen + 1));
                    seen = seen + 1;
                }
                i = i + 1;
            }
        }
        proof {
            assert(all.take(seen) =~= all);
            assert(self.children@ =~= without_bare(all));
        }
    }

    /// Drops every subscription of a client at and below this node, with the nodes that become
    /// empty, and counts them.
    pub(crate) fn remove_client(&mut self, client: &str) -> (removed: usize)
        requires
            old(self).wf(),
            old(self).count(client@) <= usize::MAX,
        ensures
            final(self).wf(),
            node_dropped(*old(self), *final(self), client@),
            removed == old(self).count(client@),
        decreases *old(self), 1int,
    {
        let ghost was = *self;
        let ghost c = client@;
        let r3: usize = self.drop_from_children(client);
        let r1: usize = remove_from_list(&mut self.subscriptions, client);
        let r2: usize = drop_from_groups(&mut self.shared, client);
        let (plus_child, r4) = drop_from_option(self.plus_child.take(), client);
        self.plus_child = plus_child;
        let (hash_child, r5) = drop_from_option(self.hash_child.take(), client);
        self.hash_child = hash_child;
        let ghost full = *self;
        proof {
            table::lemma_drop_client(table::infos(was.subscriptions@), c);
            lemma_edges_dropped(was.children@, full.children@, c);
            assert forall|g: Option<Seq<u8>>, p: Seq<Seq<u8>>| #[trigger]
                full.leaf(g, p) == table::drop_client(was.leaf(g, p), c) by {
                if p.len() == 0 {
                    match g {
                        Some(h) => {
                            assert(members(full.shared@, h) == table::drop_client(
                                members(was.shared@, h),
                                c,
                            ));
                        },
                        None => {},
                    }
                } else if p[0] == topic::plus() {
                    let q = p.drop_first();
                    assert(table::drop_client(Seq::empty(), c) =~= Seq::empty());
                    assert(option_leaf(full.plus_child, g, q) == table::drop_client(
                        option_leaf(was.plus_child, g, q),
                        c,
                    ));
                } else if p[0] == topic::hash() {
                    let q = p.drop_first();
                    assert(table::drop_client(Seq::empty(), c) =~= Seq::empty());
                    assert(option_leaf(full.hash_child, g, q) == table::drop_client(
                        option_leaf(was.hash_child, g, q),
                        c,
                    ));
                } else {
                    lemma_edge_index(was.children@, p[0]);
                    assert(edge_index(full.children@, p[0]) == edge_index(was.children@, p[0]));
                    let k = edge_index(was.children@, p[0]);
                    assert(table::drop_client(Seq::empty(), c) =~= Seq::empty());
                    if k >= 0 {
                        assert(full.children@[k].label@ == was.children@[k].label@);
                        assert(full.children@[k].node.leaf(g, p.drop_first())
                            == table::drop_client(
                            was.children@[k].node.leaf(g, p.drop_first()),
                            c,
                        ));
                    }
                }
            }
            assert forall|d: Seq<char>| #[trigger]
                full.count(d) == (if d == c {
                    0
                } else {
                    was.count(d)
                }) by {
                assert(count_edges(full.children@, d) == (if d == c {
                    0
                } else {
                    count_edges(was.children@, d)
                }));
                assert(option_count(full.plus_child, d) == (if d == c {
                    0
                } else {
                    option_count(was.plus_child, d)
                }));
                assert(option_count(full.hash_child, d) == (if d == c {
                    0
                } else {
                    option_count(was.hash_child, d)
                }));
                assert(count_groups(full.shared@, d) == (if d == c {
                    0
                } else {
                    count_groups(was.shared@, d)
                }));
                assert(table::of_client(
                    table::drop_client(table::infos(was.subscriptions@), c),
                    d,
                ) == (if d == c {
                    0
                } else {
                    table::of_client(table::infos(was.subscriptions@), d)
                }));
            }
            assert(full.wf());
        }
        self.prune_children();
        r1 + r2 + r3 + r4 + r5
    }
}

/// Whom a message reaches.
#[derive(Debug)]
pub struct RouteResult {
    /// Those that each receive the message.
    pub normal: Vec<SubscriptionInfo>,
    /// The shared subscriptions, of each of which one member receives the message.
    pub shared: SharedRoutes,
}

/// The shared subscriptions that a message reaches, by group.
#[derive(Debug)]
pub struct SharedRoutes {
    /// The groups, each with its members.
    pub groups: Vec<Bucket>,
}

impl SharedRoutes {
    /// The members of a group, none where it is not reached.
    pub open spec fn members(&self, group: Seq<u8>) -> Seq<InfoView> {
        members(self.groups@, group)
    }

    /// Group names differ and no group is empty.
    pub open spec fn wf(&self) -> bool {
        groups_distinct(self.groups@) && no_empty(self.groups@)
    }

    /// Whether no group is reached.
    pub fn is_empty(&self) -> (r: bool)
        requires
            self.wf(),
        ensures
            r == (forall|g: Seq<u8>| #[trigger] self.members(g).len() == 0),
    {
        let r = self.groups.len() == 0;
        proof {
            if !r {
                lemma_members_at(self.groups@, 0);
                assert(self.groups@[0].members@.len() > 0);
                assert(self.members(self.groups@[0].name@).len() > 0);
            }
        }
        r
    }

    /// The members of a group, where it is reached.
    pub fn get(&self, group: &str) -> (r: Option<&Vec<SubscriptionInfo>>)
        requires
            self.wf(),
        ensures
            match r {
                Some(list) => table::infos(list@) == self.members(vstd::utf8::encode_utf8(group@))
                    && list@.len() > 0,
                None => self.members(vstd::utf8::encode_utf8(group@)).len() == 0,
            },
    {
        find_bucket(&self.groups, group.as_bytes())
    }
}

impl RouteResult {
    /// Those of one group, or of none, that are reached.
    pub open spec fn reached(&self, group: Option<Seq<u8>>) -> Seq<InfoView> {
        match group {
            None => table::infos(self.normal@),
            Some(g) => self.shared.members(g),
        }
    }

    /// Nobody.
    pub(crate) fn nobody() -> (r: Self)
        ensures
            r.shared.wf(),
            forall|g: Option<Seq<u8>>| #[trigger] r.reached(g) == Seq::<InfoView>::empty(),
    {
        let r = RouteResult { normal: Vec::new(), shared: SharedRoutes { groups: Vec::new() } };
        assert(table::infos(r.normal@) =~= Seq::empty());
        r
    }
}

/// Appends a copy of a list.
fn append_infos(list: &Vec<SubscriptionInfo>, out: &mut Vec<SubscriptionInfo>)
    ensures
        table::infos(final(out)@) == table::infos(old(out)@) + table::infos(list@),
        final(out)@.len() == old(out)@.len() + list@.len(),
{
    let ghost before = table::infos(out@);
    let mut i: usize = 0;
    assert(table::infos(list@).take(0) =~= Seq::empty());
    while i < list.len()
        invariant
            i <= list@.len(),
            table::infos(out@) == before + table::infos(list@).take(i as int),
            out@.len() == old(out)@.len() + i,
        decreases list@.len() - i,
    {
        let ghost so_far = table::infos(out@);
        out.push(list[i].clone());
        proof {
            assert(table::infos(out@) =~= so_far.push(list@[i as int]@));
            assert(table::infos(list@).take(i + 1) =~= table::infos(list@).take(i as int).push(
                list@[i as int]@,
            ));
        }
        i = i + 1;
    }
    assert(table::infos(list@).take(list@.len() as int) =~= table::infos(list@));
}

/// Groups up to one of them.
proof fn lemma_members_prefix(groups: Seq<Bucket>, n: int)
    requires
        groups_distinct(groups),
        0 <= n < groups.len(),
    ensures
        members(groups.take(n), groups[n].name@) == Seq::<InfoView>::empty(),
        forall|h: Seq<u8>| #[trigger]
            members(groups.take(n + 1), h) == (if h == groups[n].name@ {
                table::infos(groups[n].members@)
            } else {
                members(groups.take(n), h)
            }),
{
    let front = groups.take(n);
    lemma_group_index(front, groups[n].name@);
    let k = group_index(front, groups[n].name@);
    if k >= 0 {
        assert(front[k] == groups[k]);
    }
    assert(groups.take(n + 1).drop_last() =~= front);
    assert(groups.take(n + 1).last() == groups[n]);
}

impl TrieNode {
    /// Adds the subscriptions that end at this node to a result.
    fn collect_own(&self, result: &mut RouteResult)
        requires
            self.local_wf(),
            old(result).shared.wf(),
        ensures
            final(result).shared.wf(),
            forall|g: Option<Seq<u8>>| #[trigger]
                final(result).reached(g) == old(result).reached(g) + self.own(g),
    {
        append_infos(&self.subscriptions, &mut result.normal);
        let ghost before = result.shared.groups@;
        let ghost mine = self.shared@;
        let mut i: usize = 0;
        proof {
            assert(mine.take(0) =~= Seq::empty());
            assert forall|h: Seq<u8>| #[trigger]
                members(before, h) == members(before, h) + members(mine.take(0), h) by {
                assert(members(before, h) + Seq::<InfoView>::empty() =~= members(before, h));
            }
        }
        while i < self.shared.len()
            invariant
                i <= self.shared@.len(),
                mine == self.shared@,
                self.local_wf(),
                result.shared.wf(),
                table::infos(result.normal@) == table::infos(old(result).normal@) + table::infos(
                    self.subscriptions@,
                ),
                forall|h: Seq<u8>| #[trigger]
                    members(result.shared.groups@, h) == members(before, h) + members(
                        mine.take(i as int),
                        h,
                    ),
            decreases self.shared@.len() - i,
        {
            let ghost now = result.shared.groups@;
            let ghost name = mine[i as int].name@;
            let ghost extra = table::infos(mine[i as int].members@);
            proof {
                lemma_members_prefix(mine, i as int);
            }
            match find_group(&result.shared.groups, self.shared[i].name.as_slice()) {
                Some(k) => {
                    append_infos(&self.shared[i].members, &mut result.shared.groups[k].members);
                    proof {
                        lemma_members_at(now, k as int);
                        let g = result.shared.groups@[k as int];
                        assert(result.shared.groups@ =~= now.update(k as int, g));
                        lemma_members_update(now, k as int, g);
                    }
                },
                None => {
                    let mut list: Vec<SubscriptionInfo> = Vec::new();
                    assert(table::infos(list@) =~= Seq::empty());
                    append_infos(&self.shared[i].members, &mut list);
                    let entry = Bucket {
                        name: copy_bytes(self.shared[i].name.as_slice()),
                        members: list,
                    };
                    result.shared.groups.push(entry);
                    proof {
                        lemma_group_index(now, name);
                        let m = group_index(now, name);
                        if m >= 0 {
                            assert(now[m].name@ == name);
                        }
                        assert(result.shared.groups@ =~= now.push(entry));
                        lemma_members_push(now, entry);
                        assert(Seq::<InfoView>::empty() + extra =~= extra);
                    }
                },
            }
            proof {
                assert forall|h: Seq<u8>| #[trigger]
                    members(result.shared.groups@, h) == members(before, h) + members(
                        mine.take(i + 1),
                        h,
                    ) by {
                    assert(members(now, h) == members(before, h) + members(mine.take(i as int), h));
                    if h == name {
                        assert(members(now, h) =~= members(before, h));
                    }
                }
            }
            i = i + 1;
        }
        proof {
            assert(mine.take(mine.len() as int) =~= mine);
            assert forall|g: Option<Seq<u8>>| #[trigger]
                result.reached(g) == old(result).reached(g) + self.own(g) by {
                match g {
                    Some(h) => {
                        assert(members(result.shared.groups@, h) == members(before, h) + members(
                            mine.take(i as int),
                            h,
                        ));
                    },
                    None => {},
                }
            }
        }
    }

    /// The subscriptions below this node that a topic with the given levels reaches.
    pub(crate) open spec fn matched(&self, group: Option<Seq<u8>>, levels: Seq<Seq<u8>>) -> Seq<
        InfoView,
    >
        decreases levels.len(),
    {
        self.leaf(group, seq![topic::hash()]) + if levels.len() == 0 {
            self.own(group)
        } else {
            (if levels[0] == topic::plus() || levels[0] == topic::hash() {
                Seq::empty()
            } else {
                match self.child(levels[0]) {
                    Some(n) => n.matched(group, levels.drop_first()),
                    None => Seq::empty(),
                }
            }) + match self.child(topic::plus()) {
                Some(n) => n.matched(group, levels.drop_first()),
                None => Seq::empty(),
            }
        }
    }

    /// Adds the subscriptions below this node that a topic reaches to a result.
    pub(crate) fn collect(&self, levels: &Vec<&[u8]>, at: usize, result: &mut RouteResult)
        requires
            self.wf(),
            at <= levels@.len(),
            old(result).shared.wf(),
        ensures
            final(result).shared.wf(),
            forall|g: Option<Seq<u8>>| #[trigger]
                final(result).reached(g) == old(result).reached(g) + self.matched(
                    g,
                    topic::slices_view(levels@).skip(at as int),
                ),
        decreases levels@.len() - at,
    {
        let ghost rest = topic::slices_view(levels@).skip(at as int);
        let ghost r0 = *result;
        if let Some(node) = &self.hash_child {
            assert(node.wf());
            node.collect_own(result);
        }
        let ghost r1 = *result;
        proof {
            assert(topic::hash() != topic::plus()) by {
                assert(topic::hash()[0] != topic::plus()[0]);
            }
            assert(seq![topic::hash()].drop_first() =~= Seq::empty());
            assert forall|g: Option<Seq<u8>>| #[trigger]
                r1.reached(g) == r0.reached(g) + self.leaf(g, seq![topic::hash()]) by {
                match self.hash_child {
                    Some(n) => {
                        assert(n.leaf(g, seq![topic::hash()].drop_first()) == n.own(g));
                    },
                    None => {},
                }
                assert(r0.reached(g) + Seq::<InfoView>::empty() =~= r0.reached(g));
            }
        }
        if at == levels.len() {
            self.collect_own(result);
            proof {
                assert forall|g: Option<Seq<u8>>| #[trigger]
                    result.reached(g) == r0.reached(g) + self.matched(g, rest) by {
                    assert(r1.reached(g) == r0.reached(g) + self.leaf(g, seq![topic::hash()]));
                    assert(result.reached(g) =~= r0.reached(g) + self.matched(g, rest));
                }
            }
            return;
        }
        let level = levels[at];
        proof {
            assert(rest[0] == level@);
            assert(rest.drop_first() =~= topic::slices_view(levels@).skip(at + 1));
        }
        let ghost below = rest.drop_first();
        if !is_plus(level) && !is_hash(level) {
            if let Some(i) = self.find_child(level) {
                self.children[i].node.collect(levels, at + 1, result);
            }
        }
        let ghost r2 = *result;
        let ghost direct = |g: Option<Seq<u8>>|
            if level@ == topic::plus() || level@ == topic::hash() {
                Seq::empty()
            } else {
                match self.child(level@) {
                    Some(n) => n.matched(g, below),
                    None => Seq::empty(),
                }
            };
        assert forall|g: Option<Seq<u8>>| #[trigger]
            r2.reached(g) == r1.reached(g) + direct(g) by {
            assert(r1.reached(g) + Seq::<InfoView>::empty() =~= r1.reached(g));
        }
        if let Some(node) = &self.plus_child {
            node.collect(levels, at + 1, result);
        }
        proof {
            assert forall|g: Option<Seq<u8>>| #[trigger]
                result.reached(g) == r0.reached(g) + self.matched(g, rest) by {
                assert(r1.reached(g) == r0.reached(g) + self.leaf(g, seq![topic::hash()]));
                assert(r2.reached(g) == r1.reached(g) + direct(g));
                assert(result.reached(g) =~= r0.reached(g) + self.matched(g, rest));
            }
        }
    }
}

/// The subscriptions under a name, where there are any.
pub(crate) fn find_bucket<'a>(buckets: &'a Vec<Bucket>, name: &[u8]) -> (r: Option<
    &'a Vec<SubscriptionInfo>,
>)
    requires
        groups_distinct(buckets@),
        no_empty(buckets@),
    ensures
        match r {
            Some(list) => table::infos(list@) == members(buckets@, name@) && list@.len() > 0,
            None => members(buckets@, name@).len() == 0,
        },
{
    match find_group(buckets, name) {
        Some(i) => {
            proof {
                lemma_members_at(buckets@, i as int);
            }
            Some(&buckets[i].members)
        },
        None => {
            proof {
                lemma_group_index(buckets@, name@);
                let k = group_index(buckets@, name@);
                if k >= 0 {
                    assert(buckets@[k].name@ == name@);
                }
            }
            None
        },
    }
}

/// A child of a well-formed node is well formed.
pub(crate) proof fn lemma_child_wf(node: TrieNode, level: Seq<u8>)
    requires
        node.wf(),
    ensures
        node.child(level) matches Some(n) ==> n.wf(),
{
    lemma_edge_index(node.children@, level);
    let i = edge_index(node.children@, level);
    if i >= 0 {
        assert(node.children@[i].node.wf());
    }
}

} // verus!
