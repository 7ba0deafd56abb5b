//! What holds of the router as a whole.

use vstd::prelude::*;
use crate::router::table;
use crate::router::table::{InfoView, Route};
use crate::router::topic_router;
use crate::topic;

verus! {

/// How many routes satisfy a condition.
pub open spec fn count_routes(routes: Seq<Route>, f: spec_fn(Route) -> bool) -> nat
    decreases routes.len(),
{
    if routes.len() == 0 {
        0
    } else {
        count_routes(routes.drop_last(), f) + if f(routes.last()) {
            1nat
        } else {
            0
        }
    }
}

/// How often a subscription occurs in a list.
pub open spec fn occurrences(list: Seq<InfoView>, x: InfoView) -> nat
    decreases list.len(),
{
    if list.len() == 0 {
        0
    } else {
        occurrences(list.drop_last(), x) + if list.last() == x {
            1nat
        } else {
            0
        }
    }
}

/// Two lists, one behind the other.
proof fn lemma_occurrences_concat(a: Seq<InfoView>, b: Seq<InfoView>, x: InfoView)
    ensures
        occurrences(a + b, x) == occurrences(a, x) + occurrences(b, x),
    decreases b.len(),
{
    if b.len() == 0 {
        assert(a + b =~= a);
    } else {
        assert((a + b).drop_last() =~= a + b.drop_last());
        lemma_occurrences_concat(a, b.drop_last(), x);
    }
}

/// What is selected under a key.
proof fn lemma_select_occurrences(
    routes: Seq<Route>,
    g: Option<Seq<u8>>,
    p: Seq<Seq<u8>>,
    x: InfoView,
)
    ensures
        occurrences(table::select(routes, g, p), x) == count_routes(
            routes,
            |r: Route| r.group == g && r.path == p && r.info == x,
        ),
    decreases routes.len(),
{
    if routes.len() > 0 {
        lemma_select_occurrences(routes.drop_last(), g, p, x);
        let front = table::select(routes.drop_last(), g, p);
        assert(front.push(routes.last().info).drop_last() =~= front);
    }
}

/// A condition that one of two others makes up, never both.
proof fn lemma_count_split(
    routes: Seq<Route>,
    f: spec_fn(Route) -> bool,
    a: spec_fn(Route) -> bool,
    b: spec_fn(Route) -> bool,
)
    requires
        forall|i: int|
            0 <= i < routes.len() ==> {
                let r = #[trigger] routes[i];
                f(r) == (a(r) || b(r)) && !(a(r) && b(r))
            },
    ensures
        count_routes(routes, f) == count_routes(routes, a) + count_routes(routes, b),
    decreases routes.len(),
{
    if routes.len() > 0 {
        let front = routes.drop_last();
        assert forall|i: int| 0 <= i < front.len() implies {
            let r = #[trigger] front[i];
            f(r) == (a(r) || b(r)) && !(a(r) && b(r))
        } by {
            assert(front[i] == routes[i]);
        }
        lemma_count_split(front, f, a, b);
        let last = routes[routes.len() - 1];
        assert(f(last) == (a(last) || b(last)) && !(a(last) && b(last)));
    }
}

/// A condition that no route satisfies.
proof fn lemma_count_none(routes: Seq<Route>, f: spec_fn(Route) -> bool)
    requires
        forall|i: int| 0 <= i < routes.len() ==> !f(#[trigger] routes[i]),
    ensures
        count_routes(routes, f) == 0,
    decreases routes.len(),
{
    if routes.len() > 0 {
        let front = routes.drop_last();
        assert forall|i: int| 0 <= i < front.len() implies !f(#[trigger] front[i]) by {
            assert(front[i] == routes[i]);
        }
        lemma_count_none(front, f);
        assert(!f(routes[routes.len() - 1]));
    }
}

/// Two conditions that agree on every route.
proof fn lemma_count_same(routes: Seq<Route>, f: spec_fn(Route) -> bool, a: spec_fn(Route) -> bool)
    requires
        forall|i: int| 0 <= i < routes.len() ==> f(#[trigger] routes[i]) == a(routes[i]),
    ensures
        count_routes(routes, f) == count_routes(routes, a),
    decreases routes.len(),
{
    if routes.len() > 0 {
        let front = routes.drop_last();
        assert forall|i: int| 0 <= i < front.len() implies f(#[trigger] front[i]) == a(
            front[i],
        ) by {
            assert(front[i] == routes[i]);
        }
        lemma_count_same(front, f, a);
        assert(f(routes[routes.len() - 1]) == a(routes[routes.len() - 1]));
    }
}

/// The condition that a route is `x` under `g`, goes through `prefix`, and matches the levels
/// that are left.
spec fn reaches(
    g: Option<Seq<u8>>,
    prefix: Seq<Seq<u8>>,
    levels: Seq<Seq<u8>>,
    x: InfoView,
) -> spec_fn(Route) -> bool {
    |r: Route|
        {
            &&& r.group == g
            &&& r.info == x
            &&& r.path.len() >= prefix.len()
            &&& r.path.take(prefix.len() as int) == prefix
            &&& topic::levels_match(levels, r.path.skip(prefix.len() as int))
        }
}

/// The condition that a route is `x` under `g` with exactly this path.
spec fn sits_at(g: Option<Seq<u8>>, p: Seq<Seq<u8>>, x: InfoView) -> spec_fn(Route) -> bool {
    |r: Route| r.group == g && r.path == p && r.info == x
}

/// A path with a `#` ends with it.
proof fn lemma_hash_is_last(path: Seq<Seq<u8>>, i: int)
    requires
        table::up_to_hash(path) == path,
        0 <= i < path.len(),
        path[i] == topic::hash(),
    ensures
        i == path.len() - 1,
    decreases path.len(),
{
    if path[0] != topic::hash() {
        let rest = path.drop_first();
        assert(path =~= seq![path[0]] + table::up_to_hash(rest));
        assert(table::up_to_hash(rest) =~= rest);
        lemma_hash_is_last(rest, i - 1);
    }
}

/// The path of one more level.
proof fn lemma_prefix_push(path: Seq<Seq<u8>>, prefix: Seq<Seq<u8>>, level: Seq<u8>)
    ensures
        (path.len() >= prefix.len() + 1 && path.take(prefix.len() as int + 1) == prefix.push(level)) <==> (
        path.len() >= prefix.len() + 1 && path.take(prefix.len() as int) == prefix
            && path[prefix.len() as int] == level),
        path.len() >= prefix.len() + 1 ==> path.skip(prefix.len() as int).drop_first()
            == path.skip(prefix.len() as int + 1) && path.skip(prefix.len() as int)[0]
            == path[prefix.len() as int],
{
    let n = prefix.len() as int;
    if path.len() >= n + 1 {
        assert(path.skip(n).drop_first() =~= path.skip(n + 1));
        assert(path.take(n + 1) =~= path.take(n).push(path[n]));
        if path.take(n + 1) == prefix.push(level) {
            assert(path.take(n) =~= prefix) by {
                assert(path.take(n + 1).drop_last() =~= path.take(n));
                assert(prefix.push(level).drop_last() =~= prefix);
            }
            assert(path.take(n + 1)[n] == prefix.push(level)[n]);
        }
    }
}

/// Whoever a topic reaches below a prefix is counted once for each route that matches there.
proof fn lemma_routed_count(
    routes: Seq<Route>,
    g: Option<Seq<u8>>,
    prefix: Seq<Seq<u8>>,
    levels: Seq<Seq<u8>>,
    x: InfoView,
)
    requires
        table::valid(routes),
    ensures
        occurrences(table::routed(routes, g, prefix, levels), x) == count_routes(
            routes,
            reaches(g, prefix, levels, x),
        ),
    decreases levels.len(),
{
    let n = prefix.len() as int;
    let hashed = prefix.push(topic::hash());
    let all = reaches(g, prefix, levels, x);
    let at_hash = sits_at(g, hashed, x);
    lemma_select_occurrences(routes, g, hashed, x);
    assert(count_routes(routes, |r: Route| r.group == g && r.path == hashed && r.info == x)
        == count_routes(routes, at_hash)) by {
        lemma_count_same(
            routes,
            |r: Route| r.group == g && r.path == hashed && r.info == x,
            at_hash,
        );
    }
    assert(topic::hash() != topic::plus()) by {
        assert(topic::hash()[0] != topic::plus()[0]);
    }
    if levels.len() == 0 {
        let at_end = sits_at(g, prefix, x);
        lemma_select_occurrences(routes, g, prefix, x);
        lemma_count_same(
            routes,
            |r: Route| r.group == g && r.path == prefix && r.info == x,
            at_end,
        );
        assert forall|i: int| 0 <= i < routes.len() implies {
            let r = #[trigger] routes[i];
            all(r) == (at_hash(r) || at_end(r)) && !(at_hash(r) && at_end(r))
        } by {
            let r = routes[i];
            lemma_prefix_push(r.path, prefix, topic::hash());
            if all(r) {
                let rest = r.path.skip(n);
                if rest.len() == 0 {
                    assert(r.path =~= prefix);
                } else {
                    assert(rest[0] == topic::hash());
                    lemma_hash_is_last(r.path, n);
                    assert(r.path =~= r.path.take(n + 1));
                }
            }
            if at_hash(r) {
                assert(r.path.take(n) =~= prefix);
                assert(r.path.skip(n)[0] == topic::hash());
            }
            if at_end(r) {
                assert(r.path.take(n) =~= prefix);
                assert(r.path.skip(n).len() == 0);
            }
        }
        lemma_count_split(routes, all, at_hash, at_end);
        lemma_occurrences_concat(
            table::select(routes, g, hashed),
            table::select(routes, g, prefix),
            x,
        );
    } else {
        let rest = levels.drop_first();
        let direct = reaches(g, prefix.push(levels[0]), rest, x);
        let through_plus = reaches(g, prefix.push(topic::plus()), rest, x);
        let wild = levels[0] == topic::plus() || levels[0] == topic::hash();
        let direct_if = |r: Route| !wild && direct(r);
        let beyond = |r: Route| direct_if(r) || through_plus(r);
        lemma_routed_count(routes, g, prefix.push(levels[0]), rest, x);
        lemma_routed_count(routes, g, prefix.push(topic::plus()), rest, x);
        assert forall|i: int| 0 <= i < routes.len() implies {
            let r = #[trigger] routes[i];
            &&& all(r) == (at_hash(r) || beyond(r)) && !(at_hash(r) && beyond(r))
            &&& !(direct_if(r) && through_plus(r))
        } by {
            let r = routes[i];
            lemma_prefix_push(r.path, prefix, topic::hash());
            lemma_prefix_push(r.path, prefix, topic::plus());
            lemma_prefix_push(r.path, prefix, levels[0]);
            let left = r.path.skip(n);
            if all(r) {
                assert(left.len() > 0);
                if left[0] == topic::hash() {
                    lemma_hash_is_last(r.path, n);
                    assert(r.path =~= r.path.take(n + 1));
                }
            }
            if at_hash(r) {
                assert(r.path.take(n) =~= prefix);
                assert(r.path[n] == topic::hash());
                assert(left[0] == topic::hash());
            }
        }
        lemma_count_split(routes, all, at_hash, beyond);
        lemma_count_split(routes, beyond, direct_if, through_plus);
        let first = table::routed(routes, g, prefix.push(levels[0]), rest);
        let second = table::routed(routes, g, prefix.push(topic::plus()), rest);
        let head = if wild {
            Seq::empty()
        } else {
            first
        };
        if wild {
            lemma_count_none(routes, direct_if);
        } else {
            lemma_count_same(routes, direct_if, direct);
        }
        lemma_occurrences_concat(head, second, x);
        lemma_occurrences_concat(table::select(routes, g, hashed), head + second, x);
    }
}

/// A message reaches exactly the subscriptions whose filter matches its topic, each as often as
/// it has matching filters.
pub proof fn law_routed_is_matching(
    routes: Seq<Route>,
    g: Option<Seq<u8>>,
    levels: Seq<Seq<u8>>,
    x: InfoView,
)
    requires
        table::valid(routes),
    ensures
        occurrences(table::routed(routes, g, Seq::empty(), levels), x) == count_routes(
            routes,
            |r: Route| r.group == g && r.info == x && topic::levels_match(levels, r.path),
        ),
{
    lemma_routed_count(routes, g, Seq::empty(), levels, x);
    let f = |r: Route| r.group == g && r.info == x && topic::levels_match(levels, r.path);
    let h = reaches(g, Seq::empty(), levels, x);
    assert forall|i: int| 0 <= i < routes.len() implies h(#[trigger] routes[i]) == f(routes[i]) by {
        let r = routes[i];
        assert(r.path.take(0) =~= Seq::empty());
        assert(r.path.skip(0) =~= r.path);
    }
    lemma_count_same(routes, h, f);
}

/// What follows a `#` in a filter does not matter for what it matches.
pub proof fn law_kept_path_matches_alike(levels: Seq<Seq<u8>>, filter: Seq<Seq<u8>>)
    ensures
        topic::levels_match(levels, table::up_to_hash(filter)) == topic::levels_match(
            levels,
            filter,
        ),
    decreases filter.len(),
{
    if filter.len() > 0 && filter[0] != topic::hash() {
        let cut = table::up_to_hash(filter);
        assert(cut[0] == filter[0]);
        assert(cut.drop_first() =~= table::up_to_hash(filter.drop_first()));
        if levels.len() > 0 {
            law_kept_path_matches_alike(levels.drop_first(), filter.drop_first());
        }
    } else if filter.len() > 0 {
        assert(table::up_to_hash(filter)[0] == topic::hash());
    }
}

/// A route that satisfies a condition is counted.
proof fn lemma_count_some(routes: Seq<Route>, f: spec_fn(Route) -> bool, i: int)
    requires
        0 <= i < routes.len(),
        f(routes[i]),
    ensures
        count_routes(routes, f) > 0,
    decreases routes.len(),
{
    if i < routes.len() - 1 {
        lemma_count_some(routes.drop_last(), f, i);
    }
}

/// What is counted occurs.
proof fn lemma_occurs(list: Seq<InfoView>, x: InfoView)
    ensures
        occurrences(list, x) > 0 <==> list.contains(x),
    decreases list.len(),
{
    if list.len() > 0 {
        let front = list.drop_last();
        lemma_occurs(front, x);
        if front.contains(x) {
            let i = choose|i: int| 0 <= i < front.len() && front[i] == x;
            assert(list[i] == x);
        }
        if list.contains(x) && list.last() != x {
            let i = choose|i: int| 0 <= i < list.len() && list[i] == x;
            assert(front[i] == x);
        }
        if list.last() == x {
            assert(list[list.len() - 1] == x);
        }
    }
}

/// Once a client has subscribed, a message for a topic that matches its filter reaches that
/// subscription.
pub proof fn law_subscriber_is_reached(
    routes: Seq<Route>,
    filter: Seq<u8>,
    info: InfoView,
    topic_name: Seq<u8>,
)
    requires
        table::valid(routes),
    ensures
        topic::levels_match(
            topic::levels(topic_name),
            topic::levels(topic::plain_filter(filter)),
        ) ==> table::routed(
            table::subscribed(routes, topic_router::route_for(filter, info)),
            topic::share_group(filter),
            Seq::empty(),
            topic::levels(topic_name),
        ).contains(info),
{
    let route = topic_router::route_for(filter, info);
    let all = table::subscribed(routes, route);
    let levels = topic::levels(topic_name);
    let g = topic::share_group(filter);
    table::lemma_up_to_hash_twice(topic::levels(topic::plain_filter(filter)));
    table::lemma_subscribed_valid(routes, route);
    law_routed_is_matching(all, g, levels, info);
    law_kept_path_matches_alike(levels, topic::levels(topic::plain_filter(filter)));
    let f = |r: Route| r.group == g && r.info == info && topic::levels_match(levels, r.path);
    if topic::levels_match(levels, topic::levels(topic::plain_filter(filter))) {
        assert(all[all.len() - 1] == route);
        lemma_count_some(all, f, all.len() - 1);
        lemma_occurs(table::routed(all, g, Seq::empty(), levels), info);
    }
}

/// Nobody is reached whose filter does not match: whoever a message reaches holds a route that
/// matches its topic.
pub proof fn law_only_matching_is_reached(
    routes: Seq<Route>,
    g: Option<Seq<u8>>,
    levels: Seq<Seq<u8>>,
    x: InfoView,
)
    requires
        table::valid(routes),
    ensures
        table::routed(routes, g, Seq::empty(), levels).contains(x) ==> exists|i: int|
            0 <= i < routes.len() && (#[trigger] routes[i]).group == g && routes[i].info == x
                && topic::levels_match(levels, routes[i].path),
{
    law_routed_is_matching(routes, g, levels, x);
    lemma_occurs(table::routed(routes, g, Seq::empty(), levels), x);
    let f = |r: Route| r.group == g && r.info == x && topic::levels_match(levels, r.path);
    if !exists|i: int|
        0 <= i < routes.len() && (#[trigger] routes[i]).group == g && routes[i].info == x
            && topic::levels_match(levels, routes[i].path) {
        assert forall|i: int| 0 <= i < routes.len() implies !f(#[trigger] routes[i]) by {}
        lemma_count_none(routes, f);
    }
}

/// Unsubscribing undoes subscribing, where the client had no subscription under that key before.
pub proof fn law_unsubscribe_undoes_subscribe(routes: Seq<Route>, filter: Seq<u8>, info: InfoView)
    requires
        table::of_client(
            table::select(routes, topic::share_group(filter), table::path_of(filter)),
            info.client,
        ) == 0,
    ensures
        table::without(
            table::subscribed(routes, topic_router::route_for(filter, info)),
            topic::share_group(filter),
            table::path_of(filter),
            info.client,
        ) == routes,
{
    let route = topic_router::route_for(filter, info);
    table::lemma_without(routes, route.group, route.path, info.client);
    let all = table::subscribed(routes, route);
    assert(all.drop_last() =~= routes);
}

/// After the removal of a client no message reaches it, and whom a message reached among the
/// others it still reaches, as often as before.
pub proof fn law_removed_client_is_never_reached(
    routes: Seq<Route>,
    client: Seq<char>,
    g: Option<Seq<u8>>,
    levels: Seq<Seq<u8>>,
    x: InfoView,
)
    requires
        table::valid(routes),
    ensures
        occurrences(
            table::routed(table::without_client(routes, client), g, Seq::empty(), levels),
            x,
        ) == (if x.client == client {
            0
        } else {
            occurrences(table::routed(routes, g, Seq::empty(), levels), x)
        }),
{
    let after = table::without_client(routes, client);
    table::lemma_without_valid(routes, None, Seq::empty(), client);
    law_routed_is_matching(routes, g, levels, x);
    law_routed_is_matching(after, g, levels, x);
    let f = |r: Route| r.group == g && r.info == x && topic::levels_match(levels, r.path);
    lemma_count_without_client(routes, client, f, x);
}

/// Routes of other clients stay.
proof fn lemma_count_without_client(
    routes: Seq<Route>,
    client: Seq<char>,
    f: spec_fn(Route) -> bool,
    x: InfoView,
)
    requires
        forall|r: Route| #[trigger] f(r) ==> r.info == x,
    ensures
        count_routes(table::without_client(routes, client), f) == (if x.client == client {
            0
        } else {
            count_routes(routes, f)
        }),
    decreases routes.len(),
{
    if routes.len() > 0 {
        let front = routes.drop_last();
        lemma_count_without_client(front, client, f, x);
        let kept = table::without_client(front, client);
        assert(kept.push(routes.last()).drop_last() =~= kept);
    }
}

} // verus!
