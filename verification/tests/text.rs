use ecs_cluster_discovery::arn::{parse_arn_to_name, parse_service_names, split_after_last_slash};
use ecs_cluster_discovery::ipv4::{decimal_text, dotted_text, parse_ipv4};
use ecs_cluster_discovery::ordered::{PeerSet, ServiceMap};
use ecs_cluster_discovery::text::{compare, same_text, Order};

#[test]
fn test_parse_arn_service_name() {
    let arn = "arn:aws:ecs:us-east-1:xxxxxxx:service/ecs-cluster/service-name";
    assert_eq!(
        parse_arn_to_name(arn.to_string()).as_deref(),
        Some("service-name")
    );
    let arn = "arn:aws:ecs:us-east-1:xxxxxxx:service/ecs-cluster/servIceNaMe";
    assert_eq!(
        parse_arn_to_name(arn.to_string()).as_deref(),
        Some("servicename")
    );
}

#[test]
fn names_need_a_slash() {
    assert_eq!(parse_arn_to_name("service-name".to_string()), None);
    assert_eq!(parse_arn_to_name(String::new()), None);
    assert_eq!(parse_arn_to_name("service/".to_string()).as_deref(), Some(""));
    assert_eq!(parse_arn_to_name("/É".to_string()).as_deref(), Some("é"));
    assert_eq!(split_after_last_slash("a/b/C"), Some("C"));
    assert_eq!(
        parse_service_names(vec!["x/A".to_string(), "none".to_string(), "y/b".to_string()]),
        ["a", "b"]
    );
}

#[test]
fn strings_are_ordered_as_the_standard_library_orders_them() {
    let all = ["", "a", "ab", "b", "B", "service-1", "service-10", "service-2", "é", "𝄞", "\u{ffff}"];
    for a in all {
        for b in all {
            let expected = if a < b {
                Order::Before
            } else if a == b {
                Order::Same
            } else {
                Order::After
            };
            assert_eq!(compare(a, b), expected);
            assert_eq!(same_text(a, b), a == b);
        }
    }
}

#[test]
fn addresses_are_read_and_written() {
    assert_eq!(parse_ipv4("10.1.198.20"), Some(0x0a01_c614));
    assert_eq!(parse_ipv4("0.0.0.0"), Some(0));
    assert_eq!(parse_ipv4("255.255.255.255"), Some(u32::MAX));
    assert_eq!(dotted_text(0x0a01_c614), "10.1.198.20");
    assert_eq!(dotted_text(u32::MAX), "255.255.255.255");
    assert_eq!(decimal_text(0), "0");
    assert_eq!(decimal_text(107), "107");
    for text in ["", "1.2.3", "1.2.3.4.", "1.2.3.4.5", ".1.2.3", "1..2.3", "01.2.3.4", "1.2.3.00",
        "256.1.1.1", "1.2.3.1000", " 1.2.3.4", "1.2.3.4 ", "1.2.3.-4", "1.2.3.a", "1,2,3,4"]
    {
        assert_eq!(parse_ipv4(text), None, "{text}");
    }
}

#[test]
fn reading_gives_back_what_was_written() {
    for address in [0, 1, 9, 10, 99, 100, 255, 256, 0x0102_0304, 0xc0a8_0001, 0xdead_beef] {
        assert_eq!(parse_ipv4(&dotted_text(address)), Some(address));
    }
}

#[test]
fn a_set_holds_each_address_once_in_order() {
    let mut set = PeerSet::new();
    for address in ["b", "a", "c", "a"] {
        set.insert(address.to_string());
    }
    assert_eq!(set.len(), 3);
    assert_eq!(set.item(0), "a");
    assert_eq!(set.item(1), "b");
    assert_eq!(set.item(2), "c");
}

#[test]
fn a_map_holds_the_last_value_of_each_name_in_order() {
    let mut map = ServiceMap::new();
    map.insert("b".to_string(), 1);
    map.insert("a".to_string(), 2);
    map.insert("b".to_string(), 3);
    assert_eq!(map.len(), 2);
    assert_eq!((map.key(0).as_str(), *map.value(0)), ("a", 2));
    assert_eq!((map.key(1).as_str(), *map.value(1)), ("b", 3));
    assert_eq!(map.get("b"), Some(&3));
    assert_eq!(map.remove("a"), Some(2));
    assert_eq!(map.remove("a"), None);
    assert_eq!(map.get("a"), None);
    assert_eq!(map.len(), 1);
}

#[test]
fn the_order_does_not_depend_on_how_a_set_was_filled() {
    let mut one = PeerSet::new();
    let mut other = PeerSet::new();
    for address in ["x", "10.0.0.10", "10.0.0.9", "é"] {
        one.insert(address.to_string());
    }
    for address in ["é", "10.0.0.9", "10.0.0.10", "x", "x"] {
        other.insert(address.to_string());
    }
    assert_eq!(one.len(), other.len());
    for at in 0..one.len() {
        assert_eq!(one.item(at), other.item(at));
    }
    assert_eq!(one.item(0), "10.0.0.10");
}
