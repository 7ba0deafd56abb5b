use pipistrelle::router::topic_router::TopicRouter;
use pipistrelle::topic::{
    publish_topic_error_reason, topic_filter_valid, topic_matches_acl_filter, topic_matches_filter,
};

#[test]
fn test_exact_matches() {
    let mut router = TopicRouter::new();
    router.subscribe("client1", "sensor/temp", 1, None);
    router.subscribe("client2", "sensor/humi", 0, None);

    let res = router.match_topic("sensor/temp");
    assert_eq!(res.normal.len(), 1);
    assert_eq!(res.normal[0].client_id, "client1");

    let res2 = router.match_topic("sensor/humi");
    assert_eq!(res2.normal.len(), 1);
    assert_eq!(res2.normal[0].client_id, "client2");
}

#[test]
fn test_exact_route_cache_lifecycle() {
    let mut router = TopicRouter::new();
    router.subscribe("client1", "sensor/temp", 0, None);
    assert!(router.has_only_exact_routes());
    let exact = router.match_exact("sensor/temp").unwrap();
    assert_eq!(exact.len(), 1);
    assert_eq!(exact[0].client_id, "client1");

    router.subscribe("client2", "sensor/temp", 1, Some(7));
    let exact = router.match_exact("sensor/temp").unwrap();
    assert_eq!(exact.len(), 2);
    assert!(exact.iter().any(|sub| sub.client_id == "client2"));

    assert!(router.unsubscribe("client1", "sensor/temp"));
    let exact = router.match_exact("sensor/temp").unwrap();
    assert_eq!(exact.len(), 1);
    assert_eq!(exact[0].client_id, "client2");

    assert_eq!(router.remove_client("client2"), 1);
    assert!(router.match_exact("sensor/temp").is_none());
    assert!(!router.has_routes());
}

#[test]
fn routing_epoch_changes_for_route_semantic_mutations() {
    let mut router = TopicRouter::new();
    let e0 = router.mutation_epoch();
    router.subscribe_with_options("client1", "sensor/temp", 0, None, false, false);
    let e1 = router.mutation_epoch();
    assert!(e1 > e0);

    // Re-subscribing the same route can change QoS/options even though the route
    // count stays constant, so it must still invalidate zero-route snapshots.
    router.subscribe_with_options("client1", "sensor/temp", 1, Some(7), true, true);
    let e2 = router.mutation_epoch();
    assert!(e2 > e1);

    assert!(router.unsubscribe("client1", "sensor/temp"));
    assert!(router.mutation_epoch() > e2);
}

#[test]
fn wildcard_route_disables_exact_only_fast_path() {
    let mut router = TopicRouter::new();
    router.subscribe("client1", "sensor/temp", 0, None);
    assert!(router.has_only_exact_routes());
    router.subscribe("client2", "sensor/+", 0, None);
    assert!(!router.has_only_exact_routes());
    assert!(router.unsubscribe("client2", "sensor/+"));
    assert!(router.has_only_exact_routes());
}

#[test]
fn topic_filter_validation_covers_wildcards_and_shared_syntax() {
    for valid in [
        "a/b",
        "a/+",
        "a/#",
        "+/b",
        "#",
        "$share/g/a/+",
        "$share/g/#",
    ] {
        assert!(topic_filter_valid(valid), "expected valid: {valid}");
    }
    for invalid in [
        "",
        "a#",
        "a/#/b",
        "a/+b",
        "$share//a",
        "$share/g/",
        "$share/g+/a",
    ] {
        assert!(!topic_filter_valid(invalid), "expected invalid: {invalid}");
    }
}

#[test]
fn test_plus_wildcard() {
    let mut router = TopicRouter::new();
    router.subscribe("client1", "sensor/+/cpu", 1, None);

    let res_match = router.match_topic("sensor/opi_zero3/cpu");
    assert_eq!(res_match.normal.len(), 1);
    assert_eq!(res_match.normal[0].client_id, "client1");

    let res_no_match = router.match_topic("sensor/opi_zero3/gpu/cpu");
    assert!(res_no_match.normal.is_empty());
}

#[test]
fn test_hash_wildcard() {
    let mut router = TopicRouter::new();
    router.subscribe("client1", "sensor/#", 2, None);

    let res1 = router.match_topic("sensor/temp");
    assert_eq!(res1.normal.len(), 1);

    let res2 = router.match_topic("sensor/humi/status/errors");
    assert_eq!(res2.normal.len(), 1);

    let res3 = router.match_topic("sensor"); // '#' matches 0 or more levels
    assert_eq!(res3.normal.len(), 1);
}

#[test]
fn test_shared_subscriptions() {
    let mut router = TopicRouter::new();
    router.subscribe("client1", "$share/workers/job/+", 1, None);
    router.subscribe("client2", "$share/workers/job/+", 1, None);
    router.subscribe("client3", "job/+", 0, None); // normal sub

    let res = router.match_topic("job/compile");
    assert_eq!(res.normal.len(), 1);
    assert_eq!(res.normal[0].client_id, "client3");

    let shared_workers = res.shared.get("workers").unwrap();
    assert_eq!(shared_workers.len(), 2);
    assert!(shared_workers.iter().any(|s| s.client_id == "client1"));
    assert!(shared_workers.iter().any(|s| s.client_id == "client2"));
}

#[test]
fn test_unsubscribe() {
    let mut router = TopicRouter::new();
    router.subscribe("client1", "sensor/temp", 1, None);

    // Remove active sub
    assert!(router.unsubscribe("client1", "sensor/temp"));
    let res = router.match_topic("sensor/temp");
    assert!(res.normal.is_empty());

    // Remove non-existent sub
    assert!(!router.unsubscribe("client1", "sensor/temp"));
}

#[test]
fn test_remove_client_cleans_all_routes() {
    let mut router = TopicRouter::new();
    router.subscribe("client-a", "sensor/+", 0, None);
    router.subscribe("client-a", "$share/workers/jobs/#", 1, None);
    router.subscribe("client-b", "sensor/+", 0, None);

    assert_eq!(router.remove_client("client-a"), 2);

    let sensor = router.match_topic("sensor/temp");
    assert_eq!(sensor.normal.len(), 1);
    assert_eq!(sensor.normal[0].client_id, "client-b");

    let jobs = router.match_topic("jobs/one");
    assert!(jobs.shared.is_empty());
    assert!(router.has_routes());

    assert_eq!(router.remove_client("client-b"), 1);
    assert!(!router.has_routes());
}

#[test]
fn test_topic_matches_acl_filter() {
    assert!(topic_matches_acl_filter("a/b/c", "a/b/c"));
    assert!(!topic_matches_acl_filter("a/b/c", "a/b/d"));
    assert!(topic_matches_acl_filter("sensor/temperature", "sensor/+"));
    assert!(topic_matches_acl_filter(
        "sensor/temperature/cpu",
        "sensor/+/cpu"
    ));
    assert!(!topic_matches_acl_filter(
        "sensor/temperature/cpu",
        "sensor/+"
    ));
    assert!(topic_matches_acl_filter(
        "sensor/temperature/cpu",
        "sensor/#"
    ));
    assert!(topic_matches_acl_filter("sensor", "sensor/#"));
    assert!(topic_matches_acl_filter("a/b/c/d/e", "#"));
}

#[test]
fn routed_is_what_matches() {
    let filters = ["a/+/c", "a/#", "a/b/c", "+", "#", "b/#"];
    let topics = ["a", "a/b/c", "a/x/c", "b", "b/c", "/"];
    let mut router = TopicRouter::new();
    for (i, filter) in filters.iter().enumerate() {
        router.subscribe(&format!("c{i}"), filter, 0, None);
    }
    for topic in topics {
        let found = router.match_topic(topic);
        for (i, filter) in filters.iter().enumerate() {
            let reached = found.normal.iter().any(|s| s.client_id == format!("c{i}"));
            assert_eq!(reached, topic_matches_filter(topic, filter), "{topic} {filter}");
        }
    }
}

#[test]
fn subscribing_again_replaces_the_options() {
    let mut router = TopicRouter::new();
    router.subscribe_with_options("c", "a", 0, None, false, false);
    router.subscribe_with_options("c", "a", 2, Some(9), true, true);
    let found = router.match_topic("a");
    assert_eq!(found.normal.len(), 1);
    assert_eq!(found.normal[0].qos, 2);
    assert_eq!(found.normal[0].subscription_identifier, Some(9));
    assert!(found.normal[0].no_local);
    assert!(found.normal[0].retain_as_published);
}

#[test]
fn forbidden_topics_are_told_apart() {
    assert_eq!(publish_topic_error_reason("a/b"), None);
    assert_eq!(publish_topic_error_reason("caf\u{e9}"), None);
    assert_eq!(publish_topic_error_reason("a/+"), Some(0x82));
    assert_eq!(publish_topic_error_reason("a/#"), Some(0x82));
    assert_eq!(publish_topic_error_reason("a\u{1}"), Some(0x81));
    assert_eq!(publish_topic_error_reason("a\u{85}"), Some(0x81));
    assert_eq!(publish_topic_error_reason("a\u{fdd0}"), Some(0x81));
    assert_eq!(publish_topic_error_reason("a\u{ffff}"), Some(0x81));
}

#[test]
fn every_subscription_raises_the_epoch_by_one() {
    let mut router = TopicRouter::new();
    assert_eq!(router.mutation_epoch(), 0);
    router.subscribe("a", "x/+", 0, None);
    router.subscribe("a", "x/+", 1, Some(7));
    router.subscribe_with_options("b", "x/y", 1, None, true, false);
    assert_eq!(router.mutation_epoch(), 3);
}
