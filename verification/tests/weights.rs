use ecs_cluster_discovery::ordered::{PeerSet, ServiceMap};
use ecs_cluster_discovery::quotas::{choose_peers, limit_quotas, take_peers};
use ecs_cluster_discovery::selection::{
    filter_peers_with_bias, select_peers, unserved_services, weigh_services, Unserved,
};
use ecs_cluster_discovery::weights::{
    add_default_service_weights, get_max_peers_per_service, normalize_weights, quotas_by_weight,
    PeersByService, ServiceWeights, Weight,
};

#[derive(Clone, Copy, Debug, PartialEq)]
struct Float(f32);

impl Weight for Float {
    fn is_finite(self) -> bool {
        self.0.is_finite()
    }

    fn from_count(count: usize) -> Self {
        Float(count as f32)
    }

    fn plus(self, other: Self) -> Self {
        Float(self.0 + other.0)
    }

    fn times(self, other: Self) -> Self {
        Float(self.0 * other.0)
    }

    fn divided_by(self, other: Self) -> Self {
        Float(self.0 / other.0)
    }

    fn whole(self) -> usize {
        self.0 as usize
    }
}

fn weights(entries: &[(&str, f32)]) -> ServiceWeights<Float> {
    let mut map = ServiceWeights::new();
    for (service, weight) in entries {
        map.insert(service.to_string(), Float(*weight));
    }
    map
}

fn peers(entries: &[(&str, &[&str])]) -> PeersByService {
    let mut map = PeersByService::new();
    for (service, addresses) in entries {
        let mut set = PeerSet::new();
        for address in addresses.iter() {
            set.insert(address.to_string());
        }
        map.insert(service.to_string(), set);
    }
    map
}

fn numbered(prefix: &str, count: usize) -> PeerSet {
    let mut set = PeerSet::new();
    for number in 0..count {
        set.insert(format!("{prefix}-{number:02}"));
    }
    set
}

#[test]
fn test_get_max_peers_per_service_equal_split() {
    let weights_1 = weights(&[("service-1", 0.5), ("service-2", 0.5)]);
    let mut num_peers = get_max_peers_per_service(weights_1, 10, true);
    assert_eq!(num_peers.remove("service-1"), Some(5));
    assert_eq!(num_peers.remove("service-2"), Some(5));

    let weights_2 = weights(&[("service-1", 0.5), ("service-2", 0.5)]);
    let mut num_peers = get_max_peers_per_service(weights_2, 1, true);
    assert_eq!(num_peers.remove("service-1"), Some(1));
    assert_eq!(num_peers.remove("service-2"), Some(1));

    let weights_3 = weights(&[("service-1", 0.5), ("service-2", 0.5)]);
    let mut num_peers = get_max_peers_per_service(weights_3, 7, true);
    assert_eq!(num_peers.remove("service-1"), Some(3));
    assert_eq!(num_peers.remove("service-2"), Some(3));
}

#[test]
fn test_get_max_peers_per_service_distribution() {
    let four = [
        ("service-1", 0.2),
        ("service-2", 0.4),
        ("service-3", 0.3),
        ("service-4", 0.1),
    ];
    let mut num_peers = get_max_peers_per_service(weights(&four), 10, true);
    assert_eq!(num_peers.remove("service-1"), Some(2));
    assert_eq!(num_peers.remove("service-2"), Some(4));
    assert_eq!(num_peers.remove("service-3"), Some(3));
    assert_eq!(num_peers.remove("service-4"), Some(1));

    let mut num_peers = get_max_peers_per_service(weights(&four), 5, true);
    assert_eq!(num_peers.remove("service-1"), Some(1));
    assert_eq!(num_peers.remove("service-2"), Some(2));
    assert_eq!(num_peers.remove("service-3"), Some(1));
    assert_eq!(num_peers.remove("service-4"), Some(1));

    let mut num_peers = get_max_peers_per_service(weights(&four), 5, false);
    assert_eq!(num_peers.remove("service-1"), Some(1));
    assert_eq!(num_peers.remove("service-2"), Some(2));
    assert_eq!(num_peers.remove("service-3"), Some(1));
    assert_eq!(num_peers.remove("service-4"), Some(0));
}

#[test]
fn test_normalize_weights() {
    let given = weights(&[("service-1", 1.2), ("service-2", 1.4), ("service-3", 1.1)]);
    let mut normalized = normalize_weights(given);
    assert_eq!(normalized.remove("service-1"), Some(Float(0.32432434)));
    assert_eq!(normalized.remove("service-2"), Some(Float(0.3783784)));
    assert_eq!(normalized.remove("service-3"), Some(Float(0.29729733)));
}

#[test]
fn test_default_weights() {
    let two = peers(&[("service-1", &[]), ("service-2", &[])]);
    let mut given = weights(&[]);
    add_default_service_weights(&two, &mut given);
    assert_eq!(given.remove("service-1"), Some(Float(0.5)));
    assert_eq!(given.remove("service-2"), Some(Float(0.5)));

    let four = peers(&[
        ("service-1", &[]),
        ("service-2", &[]),
        ("service-3", &[]),
        ("service-4", &[]),
    ]);
    let mut given = weights(&[("service-3", 0.2), ("service-4", 0.2)]);
    add_default_service_weights(&four, &mut given);
    assert_eq!(given.remove("service-1"), Some(Float(0.25)));
    assert_eq!(given.remove("service-2"), Some(Float(0.25)));
    assert_eq!(given.remove("service-3"), Some(Float(0.2)));
    assert_eq!(given.remove("service-4"), Some(Float(0.2)));
}

#[test]
fn test_filter_peers_with_bias() {
    let found = peers(&[("service-1", &["demo-1"]), ("service-2", &["demo-2"])]);
    let given = weights(&[("service-1", 0.5), ("service-2", 0.5)]);
    let selected = filter_peers_with_bias(found, given, 10, false);
    assert_eq!(selected, ["demo-1", "demo-2"]);

    let found = peers(&[("service-1", &["demo-1"]), ("service-2", &[])]);
    let given = weights(&[("service-1", 0.5), ("service-2", 0.5)]);
    let selected = filter_peers_with_bias(found, given, 10, false);
    assert_eq!(selected, ["demo-1"]);

    let found = peers(&[
        ("service-1", &["demo-1", "demo-2", "demo-3"]),
        ("service-2", &["demo-4"]),
    ]);
    let given = weights(&[("service-1", 0.75), ("service-2", 0.25)]);
    // The bias leaves service-2 without a peer here, unless one peer of each
    // service is asked for.
    let selected = filter_peers_with_bias(found, given, 3, false);
    assert_eq!(selected, ["demo-1", "demo-2"]);

    let found = peers(&[
        ("service-1", &["demo-1", "demo-2", "demo-3"]),
        ("service-2", &["demo-4"]),
    ]);
    let given = weights(&[("service-1", 0.75), ("service-2", 0.25)]);
    let selected = filter_peers_with_bias(found, given, 3, true);
    assert_eq!(selected, ["demo-1", "demo-2", "demo-4"]);
}

#[test]
fn no_services_give_no_peers() {
    let selected = filter_peers_with_bias(peers(&[]), weights(&[("service-1", 1.0)]), 10, true);
    assert!(selected.is_empty());
}

#[test]
fn weights_of_services_without_peers_are_dropped() {
    let one = peers(&[("service-1", &[])]);
    let mut given = weights(&[("service-1", 0.5), ("service-9", 0.5)]);
    add_default_service_weights(&one, &mut given);
    assert_eq!(given.len(), 1);
    assert_eq!(given.get("service-1"), Some(&Float(0.5)));
    assert_eq!(given.get("service-9"), None);
}

/// How many of the peers come from a service.
fn count_of(peers: &[String], service: &str) -> usize {
    peers.iter().filter(|peer| peer.starts_with(service)).count()
}

fn ten_each(services: &[&str]) -> PeersByService {
    let mut map = PeersByService::new();
    for service in services {
        map.insert(service.to_string(), numbered(service, 10));
    }
    map
}

#[test]
fn half_of_the_peers_come_from_a_service_of_weight_one_half() {
    for (weighted, other) in [("search-service", "indexer-service"), ("a", "b"), ("b", "a")] {
        for at_least_one in [false, true] {
            let found = ten_each(&[weighted, other]);
            let given = weights(&[(weighted, 0.5)]);
            let selected = filter_peers_with_bias(found, given, 10, at_least_one);
            assert_eq!(selected.len(), 10);
            assert_eq!(count_of(&selected, weighted), 5);
            assert_eq!(count_of(&selected, other), 5);
        }
    }
}

#[test]
fn weights_of_other_services_count_in_the_sum() {
    let given = weights(&[("a", 1.0), ("x", 1.0)]);
    let selected = filter_peers_with_bias(ten_each(&["a", "b"]), given, 10, false);
    assert_eq!(count_of(&selected, "a"), 5);
    assert_eq!(count_of(&selected, "b"), 5);

    let given = weights(&[("search", 0.5), ("x", 0.5)]);
    let selected = filter_peers_with_bias(ten_each(&["search", "indexer"]), given, 10, false);
    assert_eq!(count_of(&selected, "search"), 5);
    assert_eq!(count_of(&selected, "indexer"), 5);

    let given = weights(&[("a", 1.0), ("x", 1.0)]);
    assert_eq!(filter_peers_with_bias(ten_each(&["a"]), given, 10, false).len(), 5);
}

#[test]
fn weights_of_other_services_alone_leave_an_even_share() {
    let given = weights(&[("x", 1.0)]);
    let selected = filter_peers_with_bias(ten_each(&["a", "b"]), given, 4, false);
    assert_eq!(selected, ["a-00", "a-01", "b-00", "b-01"]);
}

#[test]
fn all_peers_are_returned_where_there_are_no_more_than_asked_for() {
    let mut found = PeersByService::new();
    found.insert("a".to_string(), numbered("a", 3));
    found.insert("b".to_string(), numbered("b", 4));
    let selected = filter_peers_with_bias(found, weights(&[("a", 2.0)]), 10, false);
    assert_eq!(count_of(&selected, "a"), 3);
    assert_eq!(count_of(&selected, "b"), 4);
}

#[test]
fn a_zero_weight_gives_no_peer() {
    let given = weights(&[("a", 0.0)]);
    let selected = filter_peers_with_bias(ten_each(&["a", "b"]), given, 10, false);
    assert_eq!(count_of(&selected, "a"), 0);
    assert_eq!(count_of(&selected, "b"), 5);
}

#[test]
fn no_more_peers_are_returned_than_asked_for() {
    let found = || {
        peers(&[
            ("a", &["a-1", "a-2", "a-3"]),
            ("b", &["b-1", "b-2", "b-3"]),
            ("c", &["c-1"]),
        ])
    };
    let given = || weights(&[("a", 2.0), ("b", 2.0), ("c", -3.0)]);
    let selected = filter_peers_with_bias(found(), given(), 4, false);
    assert_eq!(selected, ["a-1", "a-2", "b-1", "b-2"]);
    let selected = filter_peers_with_bias(found(), given(), 3, false);
    assert_eq!(selected, ["a-1", "a-2", "b-1"]);
    let selected = filter_peers_with_bias(found(), given(), 4, true);
    assert_eq!(selected, ["a-1", "a-2", "b-1", "c-1"]);
    let selected = filter_peers_with_bias(found(), given(), 3, true);
    assert_eq!(selected, ["a-1", "b-1", "c-1"]);

    // One peer of each service comes before the maximum.
    let selected = filter_peers_with_bias(found(), given(), 2, true);
    assert_eq!(selected, ["a-1", "b-1", "c-1"]);

    let given = weights(&[("a", 0.9), ("b", 0.05), ("c", 0.05)]);
    let selected = filter_peers_with_bias(ten_each(&["a", "b", "c"]), given, 10, true);
    assert_eq!(count_of(&selected, "a"), 8);
    assert_eq!(count_of(&selected, "b"), 1);
    assert_eq!(count_of(&selected, "c"), 1);
}

#[test]
fn every_maximum_is_kept() {
    for weight in [0.1, 0.3, 0.5, 1.0, 2.5, 7.0] {
        for maximum in 1..30 {
            for at_least_one in [false, true] {
                let mut found = PeersByService::new();
                for service in ["a", "b", "c", "d", "e", "f", "g"] {
                    found.insert(service.to_string(), numbered(service, 30));
                }
                let given = weights(&[("b", weight), ("e", 0.7), ("x", 0.2)]);
                let selected = filter_peers_with_bias(found, given, maximum, at_least_one);
                if at_least_one {
                    assert!(selected.len() <= maximum.max(7));
                    for service in ["a", "b", "c", "d", "e", "f", "g"] {
                        assert!(count_of(&selected, service) > 0);
                    }
                } else {
                    assert!(selected.len() <= maximum);
                }
            }
        }
    }
}

#[test]
fn services_are_weighed_by_their_part_of_the_sum() {
    let two = peers(&[("a", &[]), ("b", &[])]);
    let all = weigh_services(&two, weights(&[("a", 1.5)]));
    assert_eq!(all.get("a"), Some(&Float(1.0)));
    assert_eq!(all.get("b"), Some(&Float(0.5)));

    let all = weigh_services(&two, weights(&[("a", 1.0), ("b", 2.0), ("x", 1.0)]));
    assert_eq!(all.get("a"), Some(&Float(0.25)));
    assert_eq!(all.get("b"), Some(&Float(0.5)));
    assert_eq!(all.len(), 2);

    let all = weigh_services(&two, weights(&[("x", 8.0)]));
    assert_eq!(all.get("a"), Some(&Float(0.5)));
    assert_eq!(all.get("b"), Some(&Float(0.5)));
    assert_eq!(all.len(), 2);
}

fn quotas(entries: &[(&str, usize)]) -> ServiceMap<usize> {
    let mut map = ServiceMap::new();
    for (service, quota) in entries {
        map.insert(service.to_string(), *quota);
    }
    map
}

#[test]
fn quotas_are_limited_evenly() {
    let found = peers(&[
        ("a", &["1", "2", "3", "4", "5"]),
        ("b", &["6"]),
        ("c", &["7", "8", "9"]),
        ("d", &[]),
    ]);
    let given = || quotas(&[("a", 9), ("b", 2), ("c", 3)]);
    // Five, one and three peers can be given.
    let kept = limit_quotas(&found, given(), 9);
    assert_eq!(kept.get("a"), Some(&9));
    assert_eq!(kept.get("c"), Some(&3));
    for (most, a, b, c) in [
        (8, 4, 1, 3),
        (7, 3, 1, 3),
        (6, 3, 1, 2),
        (5, 2, 1, 2),
        (4, 2, 1, 1),
        (3, 1, 1, 1),
        (2, 1, 1, 0),
        (1, 1, 0, 0),
        (0, 0, 0, 0),
    ] {
        let kept = limit_quotas(&found, given(), most);
        assert_eq!(kept.get("a"), Some(&a));
        assert_eq!(kept.get("b"), Some(&b));
        assert_eq!(kept.get("c"), Some(&c));
        assert_eq!(kept.get("d"), Some(&0));
    }
    assert_eq!(choose_peers(&found, given(), 5, false), ["1", "2", "6", "7", "8"]);
    assert_eq!(choose_peers(&found, given(), 2, true), ["1", "6", "7"]);
    assert_eq!(choose_peers(&found, given(), 9, false), take_peers(&found, &given()));
    assert_eq!(choose_peers(&found, given(), usize::MAX, false), take_peers(&found, &given()));
}

/// The names and weights of services left out.
fn left_out(unserved: &[Unserved<Float>]) -> Vec<(&str, f32)> {
    unserved.iter().map(|one| (one.service.as_str(), one.weight.0)).collect()
}

#[test]
fn services_with_a_zero_quota_are_listed() {
    let given = weights(&[("d", 0.1), ("b", 0.7), ("a", 0.05), ("c", 0.15)]);
    let without = quotas_by_weight(&given, 7, false);
    assert_eq!(left_out(&unserved_services(&given, &without)), [("a", 0.05), ("d", 0.1)]);
    let with = quotas_by_weight(&given, 7, true);
    assert!(unserved_services(&given, &with).is_empty());
}

#[test]
fn services_left_out_by_their_weight_are_told() {
    let found = || peers(&[("a", &["1", "2", "3"]), ("b", &["4"]), ("c", &["5"])]);
    let given = || weights(&[("a", 6.0), ("b", 1.0), ("c", 1.0)]);
    let selection = select_peers(found(), given(), 3, false);
    assert_eq!(selection.peers, ["1", "2"]);
    assert_eq!(left_out(&selection.unserved), [("b", 0.125), ("c", 0.125)]);

    let selection = select_peers(found(), given(), 3, true);
    assert_eq!(selection.peers, ["1", "4", "5"]);
    assert!(selection.unserved.is_empty());

    let selection = select_peers(peers(&[]), given(), 3, false);
    assert!(selection.peers.is_empty());
    assert!(selection.unserved.is_empty());
}

/// Whether `few` is `all` with some items left out.
fn is_subsequence(few: &[String], all: &[String]) -> bool {
    let mut rest = all.iter();
    few.iter().all(|peer| rest.any(|other| other == peer))
}

#[test]
fn more_peers_or_one_of_each_service_lose_no_peer() {
    let found = || {
        let mut map = PeersByService::new();
        for service in ["a", "b", "c", "d"] {
            map.insert(service.to_string(), numbered(service, 20));
        }
        map
    };
    // The quotas leave room for one peer of the service with the least weight.
    let given = || weights(&[("a", 0.03), ("b", 0.2), ("c", 0.3), ("d", 0.2), ("x", 0.27)]);
    for maximum in 4..20 {
        let fewer = filter_peers_with_bias(found(), given(), maximum, false);
        let more = filter_peers_with_bias(found(), given(), maximum + 1, false);
        let each = filter_peers_with_bias(found(), given(), maximum + 1, true);
        assert!(is_subsequence(&fewer, &more));
        assert!(is_subsequence(&more, &each));
    }
}

#[test]
fn by_the_same_quotas_a_larger_limit_loses_no_peer() {
    let found = ten_each(&["a", "b", "c"]);
    let given = || quotas(&[("a", 7), ("b", 2), ("c", 9)]);
    for most in 0..20 {
        let fewer = choose_peers(&found, given(), most, false);
        let more = choose_peers(&found, given(), most + 1, false);
        assert_eq!(fewer.len(), most.min(18));
        assert!(is_subsequence(&fewer, &more));
        assert!(is_subsequence(&more, &take_peers(&found, &given())));
    }
}

#[test]
fn at_least_one_peer_raises_zero_quotas_only() {
    let given = || weights(&[("a", 0.01), ("b", 0.3), ("c", 0.69)]);
    let without = get_max_peers_per_service(given(), 10, false);
    let with = get_max_peers_per_service(given(), 10, true);
    assert_eq!([without.get("a"), with.get("a")], [Some(&0), Some(&1)]);
    assert_eq!([without.get("b"), with.get("b")], [Some(&3), Some(&3)]);
    assert_eq!([without.get("c"), with.get("c")], [Some(&6), Some(&6)]);
}

#[test]
fn only_the_proportions_of_weights_matter() {
    let given = normalize_weights(weights(&[("a", 1.2), ("b", 1.4), ("c", 1.1)]));
    let doubled = normalize_weights(weights(&[("a", 2.4), ("b", 2.8), ("c", 2.2)]));
    for service in ["a", "b", "c"] {
        assert_eq!(given.get(service), doubled.get(service));
    }
}

#[test]
fn without_weights_peers_are_taken_evenly() {
    let found = peers(&[
        ("a", &["a-1", "a-2", "a-3"]),
        ("b", &["b-1", "b-2", "b-3"]),
    ]);
    let selected = filter_peers_with_bias(found, weights(&[]), 4, false);
    assert_eq!(selected, ["a-1", "a-2", "b-1", "b-2"]);
}

#[test]
fn peers_are_taken_in_order_up_to_the_quota() {
    let found = peers(&[("b", &["2", "1"]), ("a", &["9", "10", "8"]), ("c", &["x"])]);
    let mut quotas = ServiceMap::new();
    quotas.insert("a".to_string(), 2);
    quotas.insert("b".to_string(), 5);
    assert_eq!(take_peers(&found, &quotas), ["10", "8", "1", "2"]);
}

#[test]
fn a_larger_weight_gives_no_smaller_quota() {
    let given = weights(&[("a", 0.1), ("b", 0.2), ("c", 0.2), ("d", 0.7)]);
    let quotas = get_max_peers_per_service(normalize_weights(given), 25, true);
    assert_eq!(quotas.get("a"), Some(&2));
    assert_eq!(quotas.get("b"), Some(&4));
    assert_eq!(quotas.get("c"), Some(&4));
    assert_eq!(quotas.get("d"), Some(&14));
}

#[test]
fn fair_quotas_keep_the_maximum() {
    let many = ["1", "2", "3", "4", "5", "6", "7", "8", "9"];
    let found = peers(&[("a", &many), ("b", &many), ("c", &many)]);
    let selected = filter_peers_with_bias(found, weights(&[]), 8, false);
    assert_eq!(selected, ["1", "2", "1", "2", "1", "2"]);
}
