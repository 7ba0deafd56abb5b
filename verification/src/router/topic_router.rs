//! The router: the trie, an index of the exact routes, and counters.

use vstd::prelude::*;
use vstd::utf8;
use crate::router::table;
use crate::router::table::{InfoView, Route, SubscriptionInfo};
use crate::router::trie;
use crate::router::trie::{
    add_to_buckets, drop_from_groups, remove_from_buckets, Bucket, RouteResult, TrieNode,
};
use crate::topic;
use crate::topic::{is_exact_filter, parse_shared_subscription, split_levels};

verus! {

/// The topic that the levels make up.
spec fn join(levels: Seq<Seq<u8>>) -> Seq<u8>
    decreases levels.len(),
{
    if levels.len() == 0 {
        Seq::empty()
    } else if levels.len() == 1 {
        levels[0]
    } else {
        join(levels.drop_last()).push(topic::SLASH) + levels.last()
    }
}

/// The levels of a topic make it up.
proof fn lemma_join_levels(t: Seq<u8>)
    ensures
        join(topic::levels(t)) == t,
        topic::levels(t).len() > 0,
    decreases t.len(),
{
    if t.len() == 0 {
        assert(join(topic::levels(t)) =~= t);
    } else {
        let front = topic::levels(t.drop_last());
        lemma_join_levels(t.drop_last());
        assert(t.drop_last().push(t.last()) =~= t);
        let all = topic::levels(t);
        if t.last() == topic::SLASH {
            assert(all.drop_last() =~= front);
            assert(join(all) =~= t);
        } else {
            let longer = front.last().push(t.last());
            if front.len() == 1 {
                assert(all =~= seq![longer]);
            } else {
                assert(all.drop_last() =~= front.drop_last());
                assert(join(all) =~= t);
            }
        }
    }
}

/// Different topics have different levels.
proof fn lemma_levels_injective(a: Seq<u8>, b: Seq<u8>)
    requires
        topic::levels(a) == topic::levels(b),
    ensures
        a == b,
{
    lemma_join_levels(a);
    lemma_join_levels(b);
}

/// A byte other than the slash is in a topic exactly where it is in a level of it.
proof fn lemma_levels_contain(t: Seq<u8>, byte: u8)
    requires
        byte != topic::SLASH,
    ensures
        t.contains(byte) <==> exists|i: int|
            0 <= i < topic::levels(t).len() && (#[trigger] topic::levels(t)[i]).contains(byte),
    decreases t.len(),
{
    let all = topic::levels(t);
    if t.len() == 0 {
        assert(!all[0].contains(byte));
        assert forall|i: int| 0 <= i < all.len() implies !(#[trigger] all[i]).contains(byte) by {}
    } else {
        let front_t = t.drop_last();
        let front = topic::levels(front_t);
        lemma_levels_contain(front_t, byte);
        topic::lemma_levels_nonempty(front_t);
        if t.contains(byte) {
            let k = choose|k: int| 0 <= k < t.len() && t[k] == byte;
            if k < t.len() - 1 {
                assert(front_t[k] == byte);
                let i = choose|i: int| 0 <= i < front.len() && (#[trigger] front[i]).contains(byte);
                if t.last() == topic::SLASH || i < front.len() - 1 {
                    assert(all[i] == front[i]);
                } else {
                    let m = choose|m: int| 0 <= m < front[i].len() && front[i][m] == byte;
                    assert(all[i][m] == byte);
                }
            } else {
                let i = front.len() - 1;
                assert(all[i][all[i].len() - 1] == byte);
            }
        }
        if exists|i: int| 0 <= i < all.len() && (#[trigger] all[i]).contains(byte) {
            let i = choose|i: int| 0 <= i < all.len() && (#[trigger] all[i]).contains(byte);
            let m = choose|m: int| 0 <= m < all[i].len() && all[i][m] == byte;
            if t.last() == topic::SLASH {
                assert(i < front.len());
                assert(front[i].contains(byte));
                let k = choose|k: int| 0 <= k < front_t.len() && front_t[k] == byte;
                assert(t[k] == byte);
            } else if i < front.len() - 1 {
                assert(front[i].contains(byte));
                let k = choose|k: int| 0 <= k < front_t.len() && front_t[k] == byte;
                assert(t[k] == byte);
            } else if m < front.last().len() {
                assert(front[i][m] == byte);
                assert(front[i].contains(byte));
                let k = choose|k: int| 0 <= k < front_t.len() && front_t[k] == byte;
                assert(t[k] == byte);
            } else {
                assert(t[t.len() - 1] == byte);
            }
        }
    }
}

/// The first level, and what follows it.
proof fn lemma_first_level(t: Seq<u8>)
    ensures
        topic::levels(t).len() >= 2 ==> t.len() > topic::levels(t)[0].len() && t.take(
            topic::levels(t)[0].len() as int,
        ) == topic::levels(t)[0] && t[topic::levels(t)[0].len() as int] == topic::SLASH,
        topic::levels(t).len() == 1 ==> topic::levels(t)[0] == t && !t.contains(topic::SLASH),
        !topic::levels(t)[0].contains(topic::SLASH),
        topic::levels(t).len() > 0,
    decreases t.len(),
{
    if t.len() > 0 {
        let f = t.drop_last();
        let front = topic::levels(f);
        let all = topic::levels(t);
        lemma_first_level(f);
        assert(f.push(t.last()) =~= t);
        if t.last() == topic::SLASH {
            assert(all[0] == front[0]);
            if front.len() == 1 {
                assert(t.take(f.len() as int) =~= f);
            } else {
                let n = front[0].len() as int;
                assert(t.take(n) =~= f.take(n));
                assert(t[n] == f[n]);
            }
        } else if front.len() == 1 {
            assert(all =~= seq![f.push(t.last())]);
            assert(!t.contains(topic::SLASH)) by {
                if t.contains(topic::SLASH) {
                    let k = choose|k: int| 0 <= k < t.len() && t[k] == topic::SLASH;
                    assert(f[k] == topic::SLASH);
                }
            }
        } else {
            assert(all[0] == front[0]);
            let n = front[0].len() as int;
            assert(t.take(n) =~= f.take(n));
            assert(t[n] == f[n]);
        }
    }
}

/// Whether a filter begins with `$share/` shows in its levels.
proof fn lemma_share_levels(t: Seq<u8>)
    ensures
        topic::has_share_prefix(t) <==> topic::levels(t).len() >= 2 && topic::levels(t)[0]
            == topic::share_prefix().drop_last(),
{
    lemma_first_level(t);
    let all = topic::levels(t);
    let name = topic::share_prefix().drop_last();
    assert(name =~= seq![36u8, 115, 104, 97, 114, 101]);
    if topic::has_share_prefix(t) {
        assert forall|i: int| 0 <= i < 7 implies t[i] == topic::share_prefix()[i] by {
            assert(t.take(7)[i] == t[i]);
        }
        assert(t[6] == topic::SLASH);
        assert(t.contains(topic::SLASH));
        assert(all.len() >= 2);
        let n = all[0].len() as int;
        if n > 6 {
            assert(t.take(n)[6] == topic::SLASH);
            assert(all[0].contains(topic::SLASH));
        } else if n < 6 {
            assert(t[n] == topic::share_prefix()[n]);
        }
        assert(all[0] =~= name);
    }
    if all.len() >= 2 && all[0] == name {
        assert forall|i: int| 0 <= i < 6 implies t[i] == name[i] by {
            assert(t.take(6)[i] == t[i]);
        }
        assert(t.take(7) =~= topic::share_prefix());
    }
}

/// Up to the first `#` a filter keeps its wildcards.
proof fn lemma_up_to_hash_wildcards(levels: Seq<Seq<u8>>)
    ensures
        (forall|i: int| 0 <= i < levels.len() ==> !table::has_wildcard(#[trigger] levels[i]))
            <==> (forall|i: int|
            0 <= i < table::up_to_hash(levels).len() ==> !table::has_wildcard(
                #[trigger] table::up_to_hash(levels)[i],
            )),
        (forall|i: int| 0 <= i < levels.len() ==> !table::has_wildcard(#[trigger] levels[i])) ==>
            table::up_to_hash(levels) == levels,
    decreases levels.len(),
{
    let cut = table::up_to_hash(levels);
    if levels.len() > 0 {
        assert(topic::hash()[0] == topic::HASH);
        assert(topic::hash().contains(topic::HASH));
        if levels[0] == topic::hash() {
            assert(table::has_wildcard(levels[0]));
            assert(table::has_wildcard(cut[0]));
        } else {
            let rest = levels.drop_first();
            let cut_rest = table::up_to_hash(rest);
            lemma_up_to_hash_wildcards(rest);
            assert(cut[0] == levels[0]);
            assert(cut.drop_first() =~= cut_rest);
            if forall|i: int| 0 <= i < levels.len() ==> !table::has_wildcard(#[trigger] levels[i]) {
                assert forall|i: int| 0 <= i < rest.len() implies !table::has_wildcard(
                    #[trigger] rest[i],
                ) by {
                    assert(rest[i] == levels[i + 1]);
                }
                assert(cut =~= levels);
            }
            if forall|i: int| 0 <= i < cut.len() ==> !table::has_wildcard(#[trigger] cut[i]) {
                assert forall|i: int| 0 <= i < cut_rest.len() implies !table::has_wildcard(
                    #[trigger] cut_rest[i],
                ) by {
                    assert(cut_rest[i] == cut[i + 1]);
                }
                assert forall|i: int| 0 <= i < levels.len() implies !table::has_wildcard(
                    #[trigger] levels[i],
                ) by {
                    if i > 0 {
                        assert(levels[i] == rest[i - 1]);
                    } else {
                        assert(cut[0] == levels[0]);
                    }
                }
            }
        }
    } else {
        assert(cut =~= levels);
    }
}

/// Whether a filter names exactly one topic shows in its key.
proof fn lemma_exact_key(f: Seq<u8>)
    ensures
        topic::exact_filter(f) == table::exact_key(topic::share_group(f), table::path_of(f)),
        topic::exact_filter(f) ==> table::path_of(f) == topic::levels(f) && topic::share_group(f)
            is None && topic::plain_filter(f) == f,
{
    lemma_share_levels(f);
    let all = topic::levels(f);
    let cut = table::up_to_hash(all);
    topic::lemma_levels_nonempty(f);
    lemma_levels_contain(f, topic::PLUS);
    lemma_levels_contain(f, topic::HASH);
    lemma_up_to_hash_wildcards(all);
    if topic::share_group(f) is None {
        assert(topic::plain_filter(f) == f);
        if topic::has_share_prefix(f) {
            if forall|i: int| 0 <= i < cut.len() ==> !table::has_wildcard(#[trigger] cut[i]) {
                assert(cut == all);
            }
        } else {
            let clean = forall|i: int|
                0 <= i < all.len() ==> !table::has_wildcard(#[trigger] all[i]);
            assert(clean == (!f.contains(topic::PLUS) && !f.contains(topic::HASH))) by {
                if clean {
                    if f.contains(topic::PLUS) {
                        let i = choose|i: int|
                            0 <= i < all.len() && (#[trigger] all[i]).contains(topic::PLUS);
                        assert(table::has_wildcard(all[i]));
                    }
                    if f.contains(topic::HASH) {
                        let i = choose|i: int|
                            0 <= i < all.len() && (#[trigger] all[i]).contains(topic::HASH);
                        assert(table::has_wildcard(all[i]));
                    }
                } else {
                    let i = choose|i: int|
                        0 <= i < all.len() && table::has_wildcard(#[trigger] all[i]);
                    assert(all[i].contains(topic::PLUS) || all[i].contains(topic::HASH));
                }
            }
        }
    }
}

/// A topic that no filter can name exactly has levels under which no exact route is kept.
pub(crate) proof fn lemma_exact_topic(t: Seq<u8>)
    ensures
        topic::exact_filter(t) ==> table::exact_key(None, topic::levels(t)),
        !topic::exact_filter(t) ==> !table::exact_key(None, topic::levels(t)),
{
    lemma_share_levels(t);
    let all = topic::levels(t);
    lemma_levels_contain(t, topic::PLUS);
    lemma_levels_contain(t, topic::HASH);
    if table::exact_key(None, all) {
        if t.contains(topic::PLUS) {
            let i = choose|i: int| 0 <= i < all.len() && (#[trigger] all[i]).contains(topic::PLUS);
            assert(table::has_wildcard(all[i]));
        }
        if t.contains(topic::HASH) {
            let i = choose|i: int| 0 <= i < all.len() && (#[trigger] all[i]).contains(topic::HASH);
            assert(table::has_wildcard(all[i]));
        }
    }
    if topic::exact_filter(t) {
        assert forall|i: int| 0 <= i < all.len() implies !table::has_wildcard(#[trigger] all[i]) by {
            assert(!all[i].contains(topic::PLUS) && !all[i].contains(topic::HASH));
        }
    }
}

/// What the trie finds below a node is what the table says of the paths below its prefix.
proof fn lemma_matched(
    node: TrieNode,
    routes: Seq<Route>,
    group: Option<Seq<u8>>,
    prefix: Seq<Seq<u8>>,
    levels: Seq<Seq<u8>>,
)
    requires
        node.wf(),
        forall|p: Seq<Seq<u8>>| #[trigger]
            node.leaf(group, p) == table::select(routes, group, prefix + p),
    ensures
        node.matched(group, levels) == table::routed(routes, group, prefix, levels),
    decreases levels.len(), 0int,
{
    assert(prefix + seq![topic::hash()] =~= prefix.push(topic::hash()));
    assert(node.leaf(group, seq![topic::hash()]) == table::select(
        routes,
        group,
        prefix.push(topic::hash()),
    ));
    if levels.len() == 0 {
        assert(prefix + Seq::<Seq<u8>>::empty() =~= prefix);
        assert(node.leaf(group, Seq::empty()) == table::select(routes, group, prefix));
    } else {
        lemma_matched_child(node, routes, group, prefix, levels[0], levels.drop_first());
        lemma_matched_child(node, routes, group, prefix, topic::plus(), levels.drop_first());
    }
}

/// The same of the child under a level, whether or not there is one.
proof fn lemma_matched_child(
    node: TrieNode,
    routes: Seq<Route>,
    group: Option<Seq<u8>>,
    prefix: Seq<Seq<u8>>,
    level: Seq<u8>,
    levels: Seq<Seq<u8>>,
)
    requires
        node.wf(),
        forall|p: Seq<Seq<u8>>| #[trigger]
            node.leaf(group, p) == table::select(routes, group, prefix + p),
    ensures
        (match node.child(level) {
            Some(n) => n.matched(group, levels),
            None => Seq::empty(),
        }) == table::routed(routes, group, prefix.push(level), levels),
    decreases levels.len(), 1int,
{
    let longer = prefix.push(level);
    let below = |p: Seq<Seq<u8>>| table::select(routes, group, longer + p);
    assert forall|p: Seq<Seq<u8>>| #[trigger] below(p) == node.leaf(group, seq![level] + p) by {
        assert(prefix + (seq![level] + p) =~= longer + p);
        assert(node.leaf(group, seq![level] + p) == table::select(
            routes,
            group,
            prefix + (seq![level] + p),
        ));
    }
    match node.child(level) {
        Some(n) => {
            trie::lemma_child_wf(node, level);
            assert forall|p: Seq<Seq<u8>>| #[trigger] n.leaf(group, p) == table::select(
                routes,
                group,
                longer + p,
            ) by {
                assert(below(p) == node.leaf(group, seq![level] + p));
                assert((seq![level] + p).drop_first() =~= p);
            }
            lemma_matched(n, routes, group, longer, levels);
        },
        None => {
            assert forall|p: Seq<Seq<u8>>| #[trigger] table::select(routes, group, longer + p)
                == Seq::<InfoView>::empty() by {
                assert(below(p) == node.leaf(group, seq![level] + p));
            }
            lemma_routed_nowhere(routes, group, longer, levels);
        },
    }
}

/// Where no route has the prefix nothing is reached.
proof fn lemma_routed_nowhere(
    routes: Seq<Route>,
    group: Option<Seq<u8>>,
    prefix: Seq<Seq<u8>>,
    levels: Seq<Seq<u8>>,
)
    requires
        forall|p: Seq<Seq<u8>>| #[trigger]
            table::select(routes, group, prefix + p) == Seq::<InfoView>::empty(),
    ensures
        table::routed(routes, group, prefix, levels) == Seq::<InfoView>::empty(),
    decreases levels.len(),
{
    let none = Seq::<InfoView>::empty();
    assert(prefix + seq![topic::hash()] =~= prefix.push(topic::hash()));
    assert(table::select(routes, group, prefix + seq![topic::hash()]) == none);
    if levels.len() == 0 {
        assert(prefix + Seq::<Seq<u8>>::empty() =~= prefix);
        assert(table::select(routes, group, prefix + Seq::<Seq<u8>>::empty()) == none);
    } else {
        let rest = levels.drop_first();
        assert forall|p: Seq<Seq<u8>>| #[trigger]
            table::select(routes, group, prefix.push(levels[0]) + p) == none by {
            assert(prefix.push(levels[0]) + p =~= prefix + (seq![levels[0]] + p));
            assert(table::select(routes, group, prefix + (seq![levels[0]] + p)) == none);
        }
        lemma_routed_nowhere(routes, group, prefix.push(levels[0]), rest);
        assert forall|p: Seq<Seq<u8>>| #[trigger]
            table::select(routes, group, prefix.push(topic::plus()) + p) == none by {
            assert(prefix.push(topic::plus()) + p =~= prefix + (seq![topic::plus()] + p));
            assert(table::select(routes, group, prefix + (seq![topic::plus()] + p)) == none);
        }
        lemma_routed_nowhere(routes, group, prefix.push(topic::plus()), rest);
    }
    assert(table::routed(routes, group, prefix, levels) =~= none);
}

/// A subscription of a client under a key is a route.
proof fn lemma_selected_route(
    routes: Seq<Route>,
    group: Option<Seq<u8>>,
    path: Seq<Seq<u8>>,
) -> (i: int)
    requires
        table::select(routes, group, path).len() > 0,
    ensures
        0 <= i < routes.len(),
        routes[i].group == group,
        routes[i].path == path,
    decreases routes.len(),
{
    if routes.last().group == group && routes.last().path == path {
        routes.len() - 1
    } else {
        lemma_selected_route(routes.drop_last(), group, path)
    }
}

/// No route counts exactly where none satisfies the condition.
proof fn lemma_tally_zero(routes: Seq<Route>)
    ensures
        table::tally(routes, table::not_exact()) == 0 <==> forall|i: int|
            0 <= i < routes.len() ==> table::exact_key(
                (#[trigger] routes[i]).group,
                routes[i].path,
            ),
    decreases routes.len(),
{
    if routes.len() > 0 {
        let front = routes.drop_last();
        lemma_tally_zero(front);
        if table::tally(routes, table::not_exact()) == 0 {
            assert forall|i: int| 0 <= i < routes.len() implies table::exact_key(
                (#[trigger] routes[i]).group,
                routes[i].path,
            ) by {
                if i < front.len() {
                    assert(front[i] == routes[i]);
                }
            }
        }
        if forall|i: int|
            0 <= i < routes.len() ==> table::exact_key((#[trigger] routes[i]).group, routes[i].path) {
            assert forall|i: int| 0 <= i < front.len() implies table::exact_key(
                (#[trigger] front[i]).group,
                front[i].path,
            ) by {
                assert(front[i] == routes[i]);
            }
            assert(table::exact_key(
                routes[routes.len() - 1].group,
                routes[routes.len() - 1].path,
            ));
        }
    }
}

/// A list of subscriptions that is not empty is of some client.
proof fn lemma_of_client_len(list: Seq<InfoView>, client: Seq<char>)
    ensures
        table::of_client(list, client) <= list.len(),
    decreases list.len(),
{
    if list.len() > 0 {
        lemma_of_client_len(list.drop_last(), client);
    }
}

/// Routes subscriptions. Its content is the list of routes in the order of subscribing.
pub struct TopicRouter {
    root: TrieNode,
    exact_routes: Vec<Bucket>,
    active_routes: usize,
    non_exact_routes: usize,
    mutation_epoch: u64,
    routes: Ghost<Seq<Route>>,
}

impl View for TopicRouter {
    type V = Seq<Route>;

    closed spec fn view(&self) -> Seq<Route> {
        self.routes@
    }
}

impl TopicRouter {
    /// The trie, the index and the counters say what the list of routes says.
    pub closed spec fn wf(&self) -> bool {
        &&& table::valid(self@)
        &&& self.root.wf()
        &&& forall|g: Option<Seq<u8>>, p: Seq<Seq<u8>>| #[trigger]
            self.root.leaf(g, p) == table::select(self@, g, p)
        &&& forall|c: Seq<char>| #[trigger]
            self.root.count(c) == table::tally(self@, table::by_client(c))
        &&& trie::groups_distinct(self.exact_routes@)
        &&& trie::no_empty(self.exact_routes@)
        &&& forall|t: Seq<u8>| #[trigger]
            trie::members(self.exact_routes@, t) == (if topic::exact_filter(t) {
                table::select(self@, None, topic::levels(t))
            } else {
                Seq::empty()
            })
        &&& forall|c: Seq<char>| #[trigger]
            trie::count_groups(self.exact_routes@, c) == table::tally(
                self@,
                table::exact_by_client(c),
            )
        &&& self.active_routes == self@.len()
        &&& self.non_exact_routes == table::tally(self@, table::not_exact())
    }

    /// The routes of a well-formed router are valid.
    pub proof fn lemma_valid(&self)
        requires
            self.wf(),
        ensures
            table::valid(self@),
    {
    }

    /// A number that changes with every change of the routes.
    pub closed spec fn epoch(&self) -> u64 {
        self.mutation_epoch
    }

    /// A router without routes.
    pub fn new() -> (r: Self)
        ensures
            r.wf(),
            r@ == Seq::<Route>::empty(),
            r.epoch() == 0,
    {
        let r = TopicRouter {
            root: TrieNode::empty(),
            exact_routes: Vec::new(),
            active_routes: 0,
            non_exact_routes: 0,
            mutation_epoch: 0,
            routes: Ghost(Seq::empty()),
        };
        assert forall|g: Option<Seq<u8>>, p: Seq<Seq<u8>>, c: Seq<char>| #[trigger]
            table::of_client(table::select(r@, g, p), c) <= 1 by {}
        assert forall|t: Seq<u8>| #[trigger]
            trie::members(r.exact_routes@, t) == (if topic::exact_filter(t) {
                table::select(r@, None, topic::levels(t))
            } else {
                Seq::empty()
            }) by {}
        r
    }

    /// Subscribes with the default options.
    pub fn subscribe(
        &mut self,
        client_id: &str,
        topic_filter: &str,
        qos: u8,
        subscription_identifier: Option<u32>,
    )
        requires
            old(self).wf(),
            old(self)@.len() < usize::MAX,
        ensures
            final(self).wf(),
            final(self)@ == table::subscribed(
                old(self)@,
                route_for(
                    utf8::encode_utf8(topic_filter@),
                    (InfoView {
                        client: client_id@,
                        qos,
                        subscription_identifier,
                        no_local: false,
                        retain_as_published: false,
                    }),
                ),
            ),
            final(self).epoch() == old(self).epoch().wrapping_add(1),
            final(self).epoch() != old(self).epoch(),
    {
        self.subscribe_with_options(
            client_id,
            topic_filter,
            qos,
            subscription_identifier,
            false,
            false,
        );
    }

    /// Subscribes a client to a topic filter, with wildcards (`+`, `#`) and shared subscriptions
    /// (`$share/group/filter`). An earlier subscription of the client under the same key is
    /// replaced.
    pub fn subscribe_with_options(
        &mut self,
        client_id: &str,
        topic_filter: &str,
        qos: u8,
        subscription_identifier: Option<u32>,
        no_local: bool,
        retain_as_published: bool,
    )
        requires
            old(self).wf(),
            old(self)@.len() < usize::MAX,
        ensures
            final(self).wf(),
            final(self)@ == table::subscribed(
                old(self)@,
                route_for(
                    utf8::encode_utf8(topic_filter@),
                    (InfoView {
                        client: client_id@,
                        qos,
                        subscription_identifier,
                        no_local,
                        retain_as_published,
                    }),
                ),
            ),
            final(self).epoch() == old(self).epoch().wrapping_add(1),
            final(self).epoch() != old(self).epoch(),
    {
        let ghost routes = self@;
        let ghost f = utf8::encode_utf8(topic_filter@);
        let filter = topic_filter.as_bytes();
        let (group, plain) = parse_shared_subscription(filter);
        let levels = split_levels(plain);
        let info = SubscriptionInfo {
            client_id: client_id.to_owned(),
            qos,
            subscription_identifier,
            no_local,
            retain_as_published,
        };
        let exact = is_exact_filter(filter);
        let ghost c = client_id@;
        let ghost route = route_for(f, info@);
        let ghost all = table::subscribed(routes, route);
        let ghost kept = table::without(routes, route.group, route.path, c);
        let ghost had = table::of_client(table::select(routes, route.group, route.path), c);
        proof {
            assert(topic::slices_view(levels@).skip(0) =~= topic::slices_view(levels@));
            table::lemma_up_to_hash_twice(topic::levels(plain@));
            table::lemma_subscribed_valid(routes, route);
            table::lemma_without(routes, route.group, route.path, c);
            table::lemma_push_route(kept, route);
            lemma_exact_key(f);
            assert(had <= 1);
        }
        let existed = self.root.add(&levels, 0, group, info.clone());
        if exact {
            let _ = add_to_buckets(&mut self.exact_routes, filter, info);
        }
        if !existed {
            self.active_routes = self.active_routes + 1;
            proof {
                lemma_tally_bound(routes, table::not_exact());
            }
            if !exact {
                self.non_exact_routes = self.non_exact_routes + 1;
            }
        }
        self.mutation_epoch = self.mutation_epoch.wrapping_add(1);
        proof {
            self.routes@ = all;
            assert forall|g: Option<Seq<u8>>, p: Seq<Seq<u8>>| #[trigger]
                self.root.leaf(g, p) == table::select(all, g, p) by {
                assert(table::select(kept, g, p) == (if g == route.group && p == route.path {
                    table::drop_client(table::select(routes, g, p), c)
                } else {
                    table::select(routes, g, p)
                }));
            }
            assert forall|d: Seq<char>| #[trigger]
                self.root.count(d) == table::tally(all, table::by_client(d)) by {
                let h = table::by_client(d);
                assert(table::tally(kept, h) + (if h(route.group, route.path, c) {
                    had
                } else {
                    0
                }) == table::tally(routes, h));
                assert(table::tally(kept.push(route), h) == table::tally(kept, h) + (if h(
                    route.group,
                    route.path,
                    c,
                ) {
                    1nat
                } else {
                    0
                }));
            }
            assert forall|t: Seq<u8>| #[trigger]
                trie::members(self.exact_routes@, t) == (if topic::exact_filter(t) {
                    table::select(all, None, topic::levels(t))
                } else {
                    Seq::empty()
                }) by {
                let p = topic::levels(t);
                assert(table::select(kept, None, p) == (if None::<Seq<u8>> == route.group && p
                    == route.path {
                    table::drop_client(table::select(routes, None, p), c)
                } else {
                    table::select(routes, None, p)
                }));
                if topic::exact_filter(t) {
                    lemma_exact_key(t);
                    if None::<Seq<u8>> == route.group && p == route.path {
                        assert(topic::exact_filter(f));
                        lemma_levels_injective(t, f);
                    }
                }
            }
            assert forall|d: Seq<char>| #[trigger]
                trie::count_groups(self.exact_routes@, d) == table::tally(
                    all,
                    table::exact_by_client(d),
                ) by {
                let h = table::exact_by_client(d);
                assert(table::tally(kept, h) + (if h(route.group, route.path, c) {
                    had
                } else {
                    0
                }) == table::tally(routes, h));
                assert(table::tally(kept.push(route), h) == table::tally(kept, h) + (if h(
                    route.group,
                    route.path,
                    c,
                ) {
                    1nat
                } else {
                    0
                }));
            }
            let h = table::not_exact();
            assert(table::tally(kept, h) + (if h(route.group, route.path, c) {
                had
            } else {
                0
            }) == table::tally(routes, h));
            assert(table::tally(kept.push(route), h) == table::tally(kept, h) + (if h(
                route.group,
                route.path,
                c,
            ) {
                1nat
            } else {
                0
            }));
        }
    }

    /// Ends the subscription of a client to a topic filter, and says whether there was one.
    pub fn unsubscribe(&mut self, client_id: &str, topic_filter: &str) -> (removed: bool)
        requires
            old(self).wf(),
        ensures
            final(self).wf(),
            ({
                let f = utf8::encode_utf8(topic_filter@);
                let group = topic::share_group(f);
                let path = topic::levels(topic::plain_filter(f));
                &&& removed == (table::of_client(
                    table::select(old(self)@, group, path),
                    client_id@,
                ) > 0)
                &&& final(self)@ == table::without(old(self)@, group, path, client_id@)
            }),
            final(self).epoch() == (if removed {
                old(self).epoch().wrapping_add(1)
            } else {
                old(self).epoch()
            }),
    {
        let ghost routes = self@;
        let ghost f = utf8::encode_utf8(topic_filter@);
        let filter = topic_filter.as_bytes();
        let (group, plain) = parse_shared_subscription(filter);
        let levels = split_levels(plain);
        let ghost c = client_id@;
        let ghost gv = topic::share_group(f);
        let ghost path = topic::levels(topic::plain_filter(f));
        let ghost all = table::without(routes, gv, path, c);
        let ghost had = table::of_client(table::select(routes, gv, path), c);
        proof {
            assert(topic::slices_view(levels@).skip(0) =~= topic::slices_view(levels@));
            table::lemma_without_valid(routes, gv, path, c);
            table::lemma_without(routes, gv, path, c);
            assert(had <= 1);
        }
        let removed = self.root.remove(&levels, 0, group, client_id);
        if removed {
            proof {
                lemma_of_client_len(table::select(routes, gv, path), c);
                let i = lemma_selected_route(routes, gv, path);
                assert(table::up_to_hash(routes[i].path) == routes[i].path);
                lemma_exact_key(f);
                let h = table::not_exact();
                assert(table::tally(all, h) + (if h(gv, path, c) {
                    had
                } else {
                    0
                }) == table::tally(routes, h));
            }
            self.active_routes = self.active_routes - 1;
            if is_exact_filter(filter) {
                let _ = remove_from_buckets(&mut self.exact_routes, filter, client_id);
            } else {
                self.non_exact_routes = self.non_exact_routes - 1;
            }
            self.mutation_epoch = self.mutation_epoch.wrapping_add(1);
        }
        proof {
            self.routes@ = all;
            assert forall|g: Option<Seq<u8>>, p: Seq<Seq<u8>>| #[trigger]
                self.root.leaf(g, p) == table::select(all, g, p) by {
                assert(table::select(all, g, p) == (if g == gv && p == path {
                    table::drop_client(table::select(routes, g, p), c)
                } else {
                    table::select(routes, g, p)
                }));
            }
            assert forall|d: Seq<char>| #[trigger]
                self.root.count(d) == table::tally(all, table::by_client(d)) by {
                let h = table::by_client(d);
                assert(table::tally(all, h) + (if h(gv, path, c) {
                    had
                } else {
                    0
                }) == table::tally(routes, h));
            }
            assert forall|t: Seq<u8>| #[trigger]
                trie::members(self.exact_routes@, t) == (if topic::exact_filter(t) {
                    table::select(all, None, topic::levels(t))
                } else {
                    Seq::empty()
                }) by {
                let p = topic::levels(t);
                if removed {
                    lemma_exact_key(f);
                }
                assert(table::select(all, None, p) == (if None::<Seq<u8>> == gv && p == path {
                    table::drop_client(table::select(routes, None, p), c)
                } else {
                    table::select(routes, None, p)
                }));
                if topic::exact_filter(t) {
                    lemma_exact_key(t);
                    if removed && None::<Seq<u8>> == gv && p == path {
                        assert(topic::exact_filter(f));
                        lemma_levels_injective(t, f);
                    }
                }
            }
            assert forall|d: Seq<char>| #[trigger]
                trie::count_groups(self.exact_routes@, d) == table::tally(
                    all,
                    table::exact_by_client(d),
                ) by {
                let h = table::exact_by_client(d);
                assert(table::tally(all, h) + (if h(gv, path, c) {
                    had
                } else {
                    0
                }) == table::tally(routes, h));
            }
        }
        removed
    }

    /// Ends every subscription of a client, shared or not, and counts them.
    pub fn remove_client(&mut self, client_id: &str) -> (removed: usize)
        requires
            old(self).wf(),
        ensures
            final(self).wf(),
            final(self)@ == table::without_client(old(self)@, client_id@),
            removed == table::tally(old(self)@, table::by_client(client_id@)),
            removed == old(self)@.len() - final(self)@.len(),
            final(self).epoch() == (if removed > 0 {
                old(self).epoch().wrapping_add(1)
            } else {
                old(self).epoch()
            }),
    {
        let ghost routes = self@;
        let ghost c = client_id@;
        let ghost all = table::without_client(routes, c);
        proof {
            table::lemma_without_client(routes, c);
            table::lemma_without_valid(routes, None, Seq::empty(), c);
        }
        let removed: usize = self.root.remove_client(client_id);
        if removed > 0 {
            let exact_removed: usize = drop_from_groups(&mut self.exact_routes, client_id);
            let non_exact_removed: usize = removed.saturating_sub(exact_removed);
            self.active_routes = self.active_routes - removed;
            if non_exact_removed > 0 {
                self.non_exact_routes = self.non_exact_routes - non_exact_removed;
            }
            self.mutation_epoch = self.mutation_epoch.wrapping_add(1);
        }
        proof {
            self.routes@ = all;
            assert forall|g: Option<Seq<u8>>, p: Seq<Seq<u8>>| #[trigger]
                self.root.leaf(g, p) == table::select(all, g, p) by {
                assert(table::select(all, g, p) == table::drop_client(
                    table::select(routes, g, p),
                    c,
                ));
            }
            assert forall|d: Seq<char>| #[trigger]
                self.root.count(d) == table::tally(all, table::by_client(d)) by {
                assert(table::tally(all, table::by_client(d)) == (if d == c {
                    0
                } else {
                    table::tally(routes, table::by_client(d))
                }));
            }
            assert forall|t: Seq<u8>| #[trigger]
                trie::members(self.exact_routes@, t) == (if topic::exact_filter(t) {
                    table::select(all, None, topic::levels(t))
                } else {
                    Seq::empty()
                }) by {
                assert(table::select(all, None, topic::levels(t)) == table::drop_client(
                    table::select(routes, None, topic::levels(t)),
                    c,
                ));
                assert(table::drop_client(Seq::empty(), c) =~= Seq::empty());
            }
            assert forall|d: Seq<char>| #[trigger]
                trie::count_groups(self.exact_routes@, d) == table::tally(
                    all,
                    table::exact_by_client(d),
                ) by {
                assert(table::tally(all, table::exact_by_client(d)) == (if d == c {
                    0
                } else {
                    table::tally(routes, table::exact_by_client(d))
                }));
            }
        }
        removed
    }

    /// Whether there is any route.
    pub fn has_routes(&self) -> (r: bool)
        requires
            self.wf(),
        ensures
            r == (self@.len() > 0),
    {
        self.active_routes != 0
    }

    /// How many routes there are.
    pub fn route_count(&self) -> (n: usize)
        requires
            self.wf(),
        ensures
            n == self@.len(),
    {
        self.active_routes
    }

    /// A number that changes with every change of the routes.
    pub fn mutation_epoch(&self) -> (r: u64)
        ensures
            r == self.epoch(),
    {
        self.mutation_epoch
    }

    /// Whether there are routes and each of them names exactly one topic.
    pub fn has_only_exact_routes(&self) -> (r: bool)
        requires
            self.wf(),
        ensures
            r == (self@.len() > 0 && forall|i: int|
                0 <= i < self@.len() ==> table::exact_key(
                    (#[trigger] self@[i]).group,
                    self@[i].path,
                )),
    {
        proof {
            lemma_tally_zero(self@);
        }
        self.has_routes() && self.non_exact_routes == 0
    }

    /// The subscriptions to exactly this topic, where there are any.
    pub fn match_exact(&self, topic: &str) -> (r: Option<&Vec<SubscriptionInfo>>)
        requires
            self.wf(),
        ensures
            ({
                let t = utf8::encode_utf8(topic@);
                let list = table::select(self@, None, topic::levels(t));
                match r {
                    Some(found) => topic::exact_filter(t) && table::infos(found@) == list
                        && list.len() > 0,
                    None => !topic::exact_filter(t) || list.len() == 0,
                }
            }),
    {
        let r = trie::find_bucket(&self.exact_routes, topic.as_bytes());
        proof {
            let t = utf8::encode_utf8(topic@);
            assert(trie::members(self.exact_routes@, t) == (if topic::exact_filter(t) {
                table::select(self@, None, topic::levels(t))
            } else {
                Seq::empty()
            }));
            match r {
                Some(list) => {
                    assert(table::infos(list@).len() == list@.len());
                },
                None => {},
            }
        }
        r
    }

    /// Whom a message for a topic reaches.
    pub fn match_topic(&self, topic: &str) -> (result: RouteResult)
        requires
            self.wf(),
        ensures
            result.shared.wf(),
            forall|g: Option<Seq<u8>>| #[trigger]
                result.reached(g) == table::routed(
                    self@,
                    g,
                    Seq::empty(),
                    topic::levels(utf8::encode_utf8(topic@)),
                ),
    {
        let levels = split_levels(topic.as_bytes());
        let mut result = RouteResult::nobody();
        let ghost r0 = result;
        self.root.collect(&levels, 0, &mut result);
        proof {
            let all = topic::slices_view(levels@);
            assert(all.skip(0) =~= all);
            assert forall|g: Option<Seq<u8>>| #[trigger]
                result.reached(g) == table::routed(self@, g, Seq::empty(), all) by {
                assert forall|p: Seq<Seq<u8>>| #[trigger]
                    self.root.leaf(g, p) == table::select(
                        self@,
                        g,
                        Seq::<Seq<u8>>::empty() + p,
                    ) by {
                    assert(Seq::<Seq<u8>>::empty() + p =~= p);
                }
                lemma_matched(self.root, self@, g, Seq::empty(), all);
                assert(r0.reached(g) + self.root.matched(g, all) =~= self.root.matched(g, all));
            }
        }
        result
    }
}

/// The route that a subscription to a filter makes.
pub open spec fn route_for(filter: Seq<u8>, info: InfoView) -> Route {
    Route { group: topic::share_group(filter), path: table::path_of(filter), info }
}

/// No more routes count than there are.
proof fn lemma_tally_bound(
    routes: Seq<Route>,
    f: spec_fn(Option<Seq<u8>>, Seq<Seq<u8>>, Seq<char>) -> bool,
)
    ensures
        table::tally(routes, f) <= routes.len(),
    decreases routes.len(),
{
    if routes.len() > 0 {
        lemma_tally_bound(routes.drop_last(), f);
    }
}

} // verus!
