//! The routing table as a list of routes: the model that the trie is held against.

use vstd::prelude::*;
use crate::topic;

verus! {

/// A subscription as the router hands it out.
#[derive(Debug, PartialEq, Eq)]
pub struct SubscriptionInfo {
    /// The client that subscribed.
    pub client_id: String,
    /// The highest quality of service at which it receives messages.
    pub qos: u8,
    /// The identifier that messages for this subscription carry.
    pub subscription_identifier: Option<u32>,
    /// Whether the client's own messages are kept from it.
    pub no_local: bool,
    /// Whether the retain flag is forwarded as it was published.
    pub retain_as_published: bool,
}

/// The content of a subscription.
pub struct InfoView {
    /// The client that subscribed.
    pub client: Seq<char>,
    /// The highest quality of service.
    pub qos: u8,
    /// The subscription identifier.
    pub subscription_identifier: Option<u32>,
    /// Whether the client's own messages are kept from it.
    pub no_local: bool,
    /// Whether the retain flag is forwarded as it was published.
    pub retain_as_published: bool,
}

impl View for SubscriptionInfo {
    type V = InfoView;

    open spec fn view(&self) -> InfoView {
        InfoView {
            client: self.client_id@,
            qos: self.qos,
            subscription_identifier: self.subscription_identifier,
            no_local: self.no_local,
            retain_as_published: self.retain_as_published,
        }
    }
}

impl Clone for SubscriptionInfo {
    fn clone(&self) -> (r: Self)
        ensures
            r == *self,
    {
        SubscriptionInfo {
            client_id: self.client_id.clone(),
            qos: self.qos,
            subscription_identifier: self.subscription_identifier,
            no_local: self.no_local,
            retain_as_published: self.retain_as_published,
        }
    }
}

/// The content of a list of subscriptions.
pub open spec fn infos(list: Seq<SubscriptionInfo>) -> Seq<InfoView> {
    Seq::new(list.len(), |i: int| list[i]@)
}

/// One route: the group of a shared subscription, the levels of the filter, and who receives.
pub struct Route {
    /// The group, where the subscription is shared.
    pub group: Option<Seq<u8>>,
    /// The levels of the filter, up to its `#`.
    pub path: Seq<Seq<u8>>,
    /// The subscription.
    pub info: InfoView,
}

/// The levels up to the first `#`, which is kept.
pub open spec fn up_to_hash(levels: Seq<Seq<u8>>) -> Seq<Seq<u8>>
    decreases levels.len(),
{
    if levels.len() == 0 {
        Seq::empty()
    } else if levels[0] == topic::hash() {
        seq![topic::hash()]
    } else {
        seq![levels[0]] + up_to_hash(levels.drop_first())
    }
}

/// The levels under which a topic filter is kept.
pub open spec fn path_of(filter: Seq<u8>) -> Seq<Seq<u8>> {
    up_to_hash(topic::levels(topic::plain_filter(filter)))
}

/// The subscriptions of one group, or of none, under one path, in the order of subscribing.
pub open spec fn select(
    routes: Seq<Route>,
    group: Option<Seq<u8>>,
    path: Seq<Seq<u8>>,
) -> Seq<InfoView>
    decreases routes.len(),
{
    if routes.len() == 0 {
        Seq::empty()
    } else {
        let front = select(routes.drop_last(), group, path);
        if routes.last().group == group && routes.last().path == path {
            front.push(routes.last().info)
        } else {
            front
        }
    }
}

/// The subscriptions of other clients.
pub open spec fn drop_client(list: Seq<InfoView>, client: Seq<char>) -> Seq<InfoView>
    decreases list.len(),
{
    if list.len() == 0 {
        Seq::empty()
    } else {
        let front = drop_client(list.drop_last(), client);
        if list.last().client == client {
            front
        } else {
            front.push(list.last())
        }
    }
}

/// How many subscriptions of a client there are.
pub open spec fn of_client(list: Seq<InfoView>, client: Seq<char>) -> nat
    decreases list.len(),
{
    if list.len() == 0 {
        0
    } else {
        of_client(list.drop_last(), client) + if list.last().client == client {
            1nat
        } else {
            0
        }
    }
}

/// The routes but those of one client under one key.
pub open spec fn without(
    routes: Seq<Route>,
    group: Option<Seq<u8>>,
    path: Seq<Seq<u8>>,
    client: Seq<char>,
) -> Seq<Route>
    decreases routes.len(),
{
    if routes.len() == 0 {
        Seq::empty()
    } else {
        let front = without(routes.drop_last(), group, path, client);
        let last = routes.last();
        if last.group == group && last.path == path && last.info.client == client {
            front
        } else {
            front.push(last)
        }
    }
}

/// The routes of all other clients.
pub open spec fn without_client(routes: Seq<Route>, client: Seq<char>) -> Seq<Route>
    decreases routes.len(),
{
    if routes.len() == 0 {
        Seq::empty()
    } else {
        let front = without_client(routes.drop_last(), client);
        if routes.last().info.client == client {
            front
        } else {
            front.push(routes.last())
        }
    }
}

/// How many routes satisfy a condition on their key and client.
pub open spec fn tally(
    routes: Seq<Route>,
    f: spec_fn(Option<Seq<u8>>, Seq<Seq<u8>>, Seq<char>) -> bool,
) -> nat
    decreases routes.len(),
{
    if routes.len() == 0 {
        0
    } else {
        let last = routes.last();
        tally(routes.drop_last(), f) + if f(last.group, last.path, last.info.client) {
            1nat
        } else {
            0
        }
    }
}

/// Whether a level holds a wildcard character.
pub open spec fn has_wildcard(level: Seq<u8>) -> bool {
    level.contains(topic::PLUS) || level.contains(topic::HASH)
}

/// Whether a key is that of a filter which names exactly one topic.
pub open spec fn exact_key(group: Option<Seq<u8>>, path: Seq<Seq<u8>>) -> bool {
    &&& group is None
    &&& forall|i: int| 0 <= i < path.len() ==> !has_wildcard(#[trigger] path[i])
    &&& !(path.len() >= 2 && path[0] == topic::share_prefix().drop_last())
}

/// The condition that a route belongs to a client.
pub open spec fn by_client(client: Seq<char>) -> spec_fn(
    Option<Seq<u8>>,
    Seq<Seq<u8>>,
    Seq<char>,
) -> bool {
    |g: Option<Seq<u8>>, p: Seq<Seq<u8>>, c: Seq<char>| c == client
}

/// The condition that a route is not exact.
pub open spec fn not_exact() -> spec_fn(Option<Seq<u8>>, Seq<Seq<u8>>, Seq<char>) -> bool {
    |g: Option<Seq<u8>>, p: Seq<Seq<u8>>, c: Seq<char>| !exact_key(g, p)
}

/// The condition that a route is exact and belongs to a client.
pub open spec fn exact_by_client(client: Seq<char>) -> spec_fn(
    Option<Seq<u8>>,
    Seq<Seq<u8>>,
    Seq<char>,
) -> bool {
    |g: Option<Seq<u8>>, p: Seq<Seq<u8>>, c: Seq<char>| exact_key(g, p) && c == client
}

/// Every client occurs at most once under a key, and every path ends with its `#`.
pub open spec fn valid(routes: Seq<Route>) -> bool {
    &&& forall|g: Option<Seq<u8>>, p: Seq<Seq<u8>>, c: Seq<char>|
        #[trigger] of_client(select(routes, g, p), c) <= 1
    &&& forall|i: int|
        0 <= i < routes.len() ==> up_to_hash((#[trigger] routes[i]).path) == routes[i].path
}

/// The table after a subscription: an earlier one of the client under the same key is replaced.
pub open spec fn subscribed(routes: Seq<Route>, route: Route) -> Seq<Route> {
    without(routes, route.group, route.path, route.info.client).push(route)
}

/// Those that a message for a topic with the levels `levels` below `prefix` reaches, in order:
/// filters that end here with `#`, then those that end here where no level is left, or else
/// those that go on with the next level and those that go on with `+`.
pub open spec fn routed(
    routes: Seq<Route>,
    group: Option<Seq<u8>>,
    prefix: Seq<Seq<u8>>,
    levels: Seq<Seq<u8>>,
) -> Seq<InfoView>
    decreases levels.len(),
{
    select(routes, group, prefix.push(topic::hash())) + if levels.len() == 0 {
        select(routes, group, prefix)
    } else {
        (if levels[0] == topic::plus() || levels[0] == topic::hash() {
            Seq::empty()
        } else {
            routed(routes, group, prefix.push(levels[0]), levels.drop_first())
        }) + routed(routes, group, prefix.push(topic::plus()), levels.drop_first())
    }
}

/// Dropping the subscriptions of a client.
pub proof fn lemma_drop_client(list: Seq<InfoView>, client: Seq<char>)
    ensures
        drop_client(list, client).len() + of_client(list, client) == list.len(),
        forall|d: Seq<char>| #[trigger]
            of_client(drop_client(list, client), d) == (if d == client {
                0
            } else {
                of_client(list, d)
            }),
        of_client(list, client) == 0 ==> drop_client(list, client) == list,
    decreases list.len(),
{
    if list.len() > 0 {
        let front = list.drop_last();
        lemma_drop_client(front, client);
        let kept = drop_client(front, client);
        assert(kept.push(list.last()).drop_last() =~= kept);
        assert forall|d: Seq<char>| #[trigger]
            of_client(drop_client(list, client), d) == (if d == client {
                0
            } else {
                of_client(list, d)
            }) by {
            assert(of_client(kept, d) == (if d == client {
                0
            } else {
                of_client(front, d)
            }));
        }
        if of_client(list, client) == 0 {
            assert(front.push(list.last()) =~= list);
        }
    } else {
        assert(drop_client(list, client) =~= list);
    }
}

/// One more subscription at the end of a list.
pub proof fn lemma_push_info(list: Seq<InfoView>, info: InfoView)
    ensures
        forall|d: Seq<char>| #[trigger]
            of_client(list.push(info), d) == of_client(list, d) + (if info.client == d {
                1nat
            } else {
                0
            }),
{
    assert(list.push(info).drop_last() =~= list);
}

/// One more route at the end of a table.
pub proof fn lemma_push_route(routes: Seq<Route>, route: Route)
    ensures
        forall|g: Option<Seq<u8>>, p: Seq<Seq<u8>>| #[trigger]
            select(routes.push(route), g, p) == (if route.group == g && route.path == p {
                select(routes, g, p).push(route.info)
            } else {
                select(routes, g, p)
            }),
        forall|f: spec_fn(Option<Seq<u8>>, Seq<Seq<u8>>, Seq<char>) -> bool| #[trigger]
            tally(routes.push(route), f) == tally(routes, f) + (if f(
                route.group,
                route.path,
                route.info.client,
            ) {
                1nat
            } else {
                0
            }),
{
    assert(routes.push(route).drop_last() =~= routes);
}

/// What is left of a table without the routes of a client under one key.
pub proof fn lemma_without(
    routes: Seq<Route>,
    group: Option<Seq<u8>>,
    path: Seq<Seq<u8>>,
    client: Seq<char>,
)
    ensures
        forall|g: Option<Seq<u8>>, p: Seq<Seq<u8>>| #[trigger]
            select(without(routes, group, path, client), g, p) == (if g == group && p == path {
                drop_client(select(routes, g, p), client)
            } else {
                select(routes, g, p)
            }),
        forall|f: spec_fn(Option<Seq<u8>>, Seq<Seq<u8>>, Seq<char>) -> bool| #[trigger]
            tally(without(routes, group, path, client), f) + (if f(group, path, client) {
                of_client(select(routes, group, path), client)
            } else {
                0
            }) == tally(routes, f),
        without(routes, group, path, client).len() + of_client(
            select(routes, group, path),
            client,
        ) == routes.len(),
        forall|i: int|
            0 <= i < without(routes, group, path, client).len() ==> routes.contains(
                #[trigger] without(routes, group, path, client)[i],
            ),
        of_client(select(routes, group, path), client) == 0 ==> without(
            routes,
            group,
            path,
            client,
        ) == routes,
    decreases routes.len(),
{
    if routes.len() > 0 {
        let front = routes.drop_last();
        let last = routes.last();
        lemma_without(front, group, path, client);
        let kept = without(front, group, path, client);
        lemma_push_route(kept, last);
        lemma_push_route(front, last);
        assert(front.push(last) =~= routes);
        lemma_push_info(select(front, group, path), last.info);
        let all = without(routes, group, path, client);
        assert forall|g: Option<Seq<u8>>, p: Seq<Seq<u8>>| #[trigger]
            select(all, g, p) == (if g == group && p == path {
                drop_client(select(routes, g, p), client)
            } else {
                select(routes, g, p)
            }) by {
            let sf = select(front, g, p);
            assert(select(kept, g, p) == (if g == group && p == path {
                drop_client(sf, client)
            } else {
                sf
            }));
            assert(sf.push(last.info).drop_last() =~= sf);
        }
        assert forall|f: spec_fn(Option<Seq<u8>>, Seq<Seq<u8>>, Seq<char>) -> bool| #[trigger]
            tally(all, f) + (if f(group, path, client) {
                of_client(select(routes, group, path), client)
            } else {
                0
            }) == tally(routes, f) by {
            assert(tally(kept, f) + (if f(group, path, client) {
                of_client(select(front, group, path), client)
            } else {
                0
            }) == tally(front, f));
        }
        assert forall|i: int| 0 <= i < all.len() implies routes.contains(#[trigger] all[i]) by {
            if i < kept.len() {
                assert(all[i] == kept[i]);
                let j = choose|j: int| 0 <= j < front.len() && front[j] == kept[i];
                assert(routes[j] == all[i]);
            } else {
                assert(routes[routes.len() - 1] == all[i]);
            }
        }
    } else {
        assert(without(routes, group, path, client) =~= routes);
        assert forall|g: Option<Seq<u8>>, p: Seq<Seq<u8>>| #[trigger]
            select(without(routes, group, path, client), g, p) == (if g == group && p == path {
                drop_client(select(routes, g, p), client)
            } else {
                select(routes, g, p)
            }) by {
            assert(drop_client(select(routes, g, p), client) =~= Seq::empty());
        }
    }
}

/// What is left of a table without the routes of a client.
pub proof fn lemma_without_client(routes: Seq<Route>, client: Seq<char>)
    ensures
        forall|g: Option<Seq<u8>>, p: Seq<Seq<u8>>| #[trigger]
            select(without_client(routes, client), g, p) == drop_client(
                select(routes, g, p),
                client,
            ),
        forall|d: Seq<char>|
            tally(without_client(routes, client), #[trigger] by_client(d)) == (if d == client {
                0
            } else {
                tally(routes, by_client(d))
            }),
        forall|d: Seq<char>|
            tally(without_client(routes, client), #[trigger] exact_by_client(d)) == (if d
                == client {
                0
            } else {
                tally(routes, exact_by_client(d))
            }),
        tally(without_client(routes, client), not_exact()) + tally(routes, by_client(client))
            == tally(routes, not_exact()) + tally(routes, exact_by_client(client)),
        without_client(routes, client).len() + tally(routes, by_client(client)) == routes.len(),
        tally(routes, exact_by_client(client)) <= tally(routes, by_client(client)),
        tally(routes, by_client(client)) == 0 ==> without_client(routes, client) == routes,
        forall|i: int|
            0 <= i < without_client(routes, client).len() ==> routes.contains(
                #[trigger] without_client(routes, client)[i],
            ),
    decreases routes.len(),
{
    if routes.len() > 0 {
        let front = routes.drop_last();
        let last = routes.last();
        lemma_without_client(front, client);
        let kept = without_client(front, client);
        lemma_push_route(kept, last);
        lemma_push_route(front, last);
        assert(front.push(last) =~= routes);
        let all = without_client(routes, client);
        assert forall|g: Option<Seq<u8>>, p: Seq<Seq<u8>>| #[trigger]
            select(all, g, p) == drop_client(select(routes, g, p), client) by {
            let sf = select(front, g, p);
            assert(select(kept, g, p) == drop_client(sf, client));
            assert(sf.push(last.info).drop_last() =~= sf);
        }
        assert forall|d: Seq<char>|
            tally(all, #[trigger] by_client(d)) == (if d == client {
                0
            } else {
                tally(routes, by_client(d))
            }) by {
            assert(tally(kept, by_client(d)) == (if d == client {
                0
            } else {
                tally(front, by_client(d))
            }));
        }
        assert forall|d: Seq<char>|
            tally(all, #[trigger] exact_by_client(d)) == (if d == client {
                0
            } else {
                tally(routes, exact_by_client(d))
            }) by {
            assert(tally(kept, exact_by_client(d)) == (if d == client {
                0
            } else {
                tally(front, exact_by_client(d))
            }));
        }
        assert forall|i: int| 0 <= i < all.len() implies routes.contains(#[trigger] all[i]) by {
            if i < kept.len() {
                assert(all[i] == kept[i]);
                let j = choose|j: int| 0 <= j < front.len() && front[j] == kept[i];
                assert(routes[j] == all[i]);
            } else {
                assert(routes[routes.len() - 1] == all[i]);
            }
        }
    } else {
        assert(without_client(routes, client) =~= routes);
        assert forall|g: Option<Seq<u8>>, p: Seq<Seq<u8>>| #[trigger]
            select(without_client(routes, client), g, p) == drop_client(
                select(routes, g, p),
                client,
            ) by {
            assert(drop_client(select(routes, g, p), client) =~= Seq::empty());
        }
    }
}

/// Taking the levels up to the first `#` twice is taking them once.
pub proof fn lemma_up_to_hash_twice(levels: Seq<Seq<u8>>)
    ensures
        up_to_hash(up_to_hash(levels)) == up_to_hash(levels),
    decreases levels.len(),
{
    if levels.len() > 0 && levels[0] != topic::hash() {
        lemma_up_to_hash_twice(levels.drop_first());
        let cut = up_to_hash(levels);
        assert(cut.drop_first() =~= up_to_hash(levels.drop_first()));
    } else if levels.len() > 0 {
        assert(up_to_hash(levels)[0] == topic::hash());
    }
}

/// A subscription keeps a table valid.
pub proof fn lemma_subscribed_valid(routes: Seq<Route>, route: Route)
    requires
        valid(routes),
        up_to_hash(route.path) == route.path,
    ensures
        valid(subscribed(routes, route)),
{
    let kept = without(routes, route.group, route.path, route.info.client);
    lemma_without(routes, route.group, route.path, route.info.client);
    lemma_push_route(kept, route);
    let all = subscribed(routes, route);
    assert forall|g: Option<Seq<u8>>, p: Seq<Seq<u8>>, c: Seq<char>|
        #[trigger] of_client(select(all, g, p), c) <= 1 by {
        lemma_drop_client(select(routes, g, p), route.info.client);
        lemma_push_info(select(kept, g, p), route.info);
        assert(of_client(select(routes, g, p), c) <= 1);
        assert(of_client(select(kept, g, p), c) <= 1);
    }
    assert forall|i: int| 0 <= i < all.len() implies up_to_hash((#[trigger] all[i]).path)
        == all[i].path by {
        if i < kept.len() {
            assert(all[i] == kept[i]);
            let j = choose|j: int| 0 <= j < routes.len() && routes[j] == kept[i];
            assert(up_to_hash(routes[j].path) == routes[j].path);
        }
    }
}

/// A removal keeps a table valid.
pub proof fn lemma_without_valid(
    routes: Seq<Route>,
    group: Option<Seq<u8>>,
    path: Seq<Seq<u8>>,
    client: Seq<char>,
)
    requires
        valid(routes),
    ensures
        valid(without(routes, group, path, client)),
        valid(without_client(routes, client)),
{
    lemma_without(routes, group, path, client);
    lemma_without_client(routes, client);
    let a = without(routes, group, path, client);
    let b = without_client(routes, client);
    assert forall|g: Option<Seq<u8>>, p: Seq<Seq<u8>>, c: Seq<char>|
        #[trigger] of_client(select(a, g, p), c) <= 1 by {
        lemma_drop_client(select(routes, g, p), client);
        assert(of_client(select(routes, g, p), c) <= 1);
    }
    assert forall|g: Option<Seq<u8>>, p: Seq<Seq<u8>>, c: Seq<char>|
        #[trigger] of_client(select(b, g, p), c) <= 1 by {
        lemma_drop_client(select(routes, g, p), client);
        assert(of_client(select(routes, g, p), c) <= 1);
        assert(of_client(drop_client(select(routes, g, p), client), c) <= 1);
    }
    assert forall|i: int| 0 <= i < a.len() implies up_to_hash((#[trigger] a[i]).path)
        == a[i].path by {
        let j = choose|j: int| 0 <= j < routes.len() && routes[j] == a[i];
        assert(up_to_hash(routes[j].path) == routes[j].path);
    }
    assert forall|i: int| 0 <= i < b.len() implies up_to_hash((#[trigger] b[i]).path)
        == b[i].path by {
        let j = choose|j: int| 0 <= j < routes.len() && routes[j] == b[i];
        assert(up_to_hash(routes[j].path) == routes[j].path);
    }
}

} // verus!
