use ecs_cluster_discovery::discovery::Step;
use ecs_cluster_discovery::ipv4::parse_ipv4;
use ecs_cluster_discovery::metadata::{
    ContainerMetadata, FileContent, MetadataError, MetadataStep, MAX_ATTEMPTS, WAIT_MILLIS,
};
use ecs_cluster_discovery::subnet::{validate_host_within_subnet, Subnet};
use ecs_cluster_discovery::tasks::{peers_from_tasks, Attachment, Detail, TaskDescription};
use ecs_cluster_discovery::weights::Weight;
use ecs_cluster_discovery::{GetPeersBuilder, GetPeersError};

#[derive(Clone, Copy, Debug, PartialEq)]
struct Float(f32);

impl Weight for Float {
    fn is_finite(self) -> bool {
        self.0.is_finite()
    }

    fn from_count(count: usize) -> Self {
        Float(count as f32)
    }

    fn plus(self, other: Self) -> Self {
        Float(self.0 + other.0)
    }

    fn times(self, other: Self) -> Self {
        Float(self.0 * other.0)
    }

    fn divided_by(self, other: Self) -> Self {
        Float(self.0 / other.0)
    }

    fn whole(self) -> usize {
        self.0 as usize
    }
}

fn subnet(text: &str) -> Subnet {
    match text.parse::<ipnet::IpNet>().unwrap() {
        ipnet::IpNet::V4(net) => Subnet::V4 {
            address: net.addr().into(),
            prefix: net.prefix_len(),
        },
        ipnet::IpNet::V6(net) => Subnet::V6 {
            address: net.addr().into(),
            prefix: net.prefix_len(),
        },
    }
}

fn metadata(cluster: &str, address: &str) -> ContainerMetadata {
    ContainerMetadata {
        cluster: cluster.to_string(),
        cluster_instance_arn: String::new(),
        tark_arn: String::new(),
        task_definition_family: String::new(),
        task_definition_revision: 1,
        container_id: String::new(),
        container_name: String::new(),
        created_at: String::new(),
        started_at: String::new(),
        docker_container_name: String::new(),
        image_id: String::new(),
        image_name: String::new(),
        port_mappings: Vec::new(),
        networks: Vec::new(),
        metadata_file_status: "READY".to_string(),
        availability_zone: String::new(),
        host_private_ipv4_address: parse_ipv4(address).unwrap(),
        host_public_ipv4_address: 0,
    }
}

fn detail(name: &str, value: &str) -> Detail {
    Detail {
        name: Some(name.to_string()),
        value: Some(value.to_string()),
    }
}

fn interface(details: Vec<Detail>) -> Attachment {
    Attachment {
        kind: Some("ElasticNetworkInterface".to_string()),
        details: Some(details),
    }
}

fn task(address: &str) -> TaskDescription {
    TaskDescription {
        attachments: vec![interface(vec![
            detail("privateIPv4Address", address),
            detail("privateDnsName", &format!("ip-{address}.local")),
        ])],
    }
}

fn names(all: &[&str]) -> Vec<String> {
    all.iter().map(|name| name.to_string()).collect()
}

#[test]
fn test_subnet_validation() {
    let subnet = subnet("10.1.0.0/16");
    validate_host_within_subnet(&subnet, parse_ipv4("10.1.198.20").unwrap()).expect("Valid IP");
    validate_host_within_subnet(&subnet, parse_ipv4("11.1.198.20").unwrap())
        .expect_err("Invalid IP");
    validate_host_within_subnet(&subnet, parse_ipv4("10.2.198.20").unwrap())
        .expect_err("Invalid IP");
}

#[test]
fn hosts_outside_are_named_with_the_subnet() {
    let host = parse_ipv4("11.1.198.20").unwrap();
    let error = validate_host_within_subnet(&subnet("10.1.2.3/16"), host).unwrap_err();
    assert_eq!(
        error.0,
        "Host address 11.1.198.20 is not within specified VPC subnet (10.1.2.3/16), no peers can \
         be contacted"
    );
    let error = validate_host_within_subnet(&subnet("fd00::/8"), host).unwrap_err();
    assert_eq!(
        error.0,
        "Host address 11.1.198.20 is not within specified VPC subnet (fd00::/8), no peers can be \
         contacted"
    );
}

#[test]
fn prefixes_cover_their_leading_bits() {
    let host = parse_ipv4("10.1.198.20").unwrap();
    for (text, inside) in [
        ("0.0.0.0/0", true),
        ("10.1.198.20/32", true),
        ("10.1.198.21/32", false),
        ("10.1.198.21/31", true),
        ("10.1.199.0/23", true),
        ("10.1.199.0/24", false),
        ("::/0", false),
        ("::ffff:10.1.198.20/128", false),
    ] {
        assert_eq!(validate_host_within_subnet(&subnet(text), host).is_ok(), inside, "{text}");
    }
}

#[test]
fn errors_are_shown_with_their_cause() {
    assert_eq!(
        GetPeersError("it broke".to_string()).message(),
        "Failed to get peers due to error: it broke"
    );
}

#[test]
fn a_task_gives_its_first_interface_in_the_subnet() {
    let tasks = vec![
        TaskDescription {
            attachments: vec![
                Attachment {
                    kind: Some("Other".to_string()),
                    details: Some(vec![detail("privateIPv4Address", "10.1.0.1")]),
                },
                Attachment {
                    kind: None,
                    details: None,
                },
                interface(vec![detail("privateIPv4Address", "192.168.0.1")]),
                interface(vec![detail("privateIPv4Address", "10.1.0.300")]),
                interface(vec![
                    Detail {
                        name: Some("privateIPv4Address".to_string()),
                        value: None,
                    },
                    Detail {
                        name: None,
                        value: Some("10.1.0.9".to_string()),
                    },
                ]),
                interface(vec![
                    detail("privateIPv4Address", "10.1.0.2"),
                    detail("privateDnsName", "two.ec2.local"),
                ]),
                interface(vec![
                    detail("privateIPv4Address", "10.1.0.3"),
                    detail("privateDnsName", "three.ec2.local"),
                ]),
            ],
        },
        TaskDescription {
            attachments: vec![interface(vec![detail("privateIPv4Address", "10.1.0.4")])],
        },
        TaskDescription {
            attachments: Vec::new(),
        },
    ];
    let subnet = subnet("10.1.0.0/16");
    assert_eq!(peers_from_tasks(&tasks, &subnet, false), ["10.1.0.2", "10.1.0.4"]);
    assert_eq!(peers_from_tasks(&tasks, &subnet, true), ["two.ec2.local"]);
}

#[test]
fn the_last_detail_of_a_name_counts() {
    let tasks = vec![TaskDescription {
        attachments: vec![interface(vec![
            detail("privateIPv4Address", "192.168.0.1"),
            detail("privateIPv4Address", "10.1.0.7"),
        ])],
    }];
    assert_eq!(peers_from_tasks(&tasks, &subnet("10.1.0.0/16"), false), ["10.1.0.7"]);
}

#[test]
fn requests_are_built_up() {
    let request: GetPeersBuilder<Float> = GetPeersBuilder::new(subnet("10.1.0.0/16"));
    assert_eq!(request.max_peers(), 10);
    assert!(request.services().is_empty());
    assert!(!request.return_dns_name());
    assert!(!request.one_peer_per_service());
    assert_eq!(request.service_weight("search-service"), None);

    let request = request
        .with_service_filter("Indexer-Service")
        .with_service_filter("search-service")
        .with_service_weight("Search-Service", Float(0.1))
        .with_service_weight("search-service", Float(0.5))
        .with_at_least_one_peer_per_service()
        .with_return_dns_name()
        .with_max_peers(100);
    assert_eq!(request.services(), &["indexer-service", "search-service"]);
    assert_eq!(request.service_weight("search-service"), Some(&Float(0.5)));
    assert_eq!(request.service_weight("Search-Service"), None);
    assert_eq!(request.max_peers(), 100);
    assert!(request.return_dns_name());
    assert!(request.one_peer_per_service());
    assert_eq!(*request.subnet(), subnet("10.1.0.0/16"));
    assert_eq!(request.with_max_peers(1).max_peers(), 1);
}

#[test]
fn a_host_outside_the_subnet_asks_nothing() {
    let request: GetPeersBuilder<Float> = GetPeersBuilder::new(subnet("10.1.0.0/16"));
    match Step::begin(request, &metadata("demo", "10.2.0.1")) {
        Step::Done(Err(error)) => assert_eq!(
            error.0,
            "Host address 10.2.0.1 is not within specified VPC subnet (10.1.0.0/16), no peers can \
             be contacted"
        ),
        _ => panic!("no error"),
    }
}

/// Runs the steps of a request in a cluster with three services, and returns the
/// requests made with the outcome.
fn run(mut step: Step<Float>) -> (Vec<String>, Result<Vec<String>, String>) {
    let mut requests = Vec::new();
    loop {
        step = match step {
            Step::ListServices(listing) => {
                requests.push(format!("services of {}", listing.cluster()));
                listing.listed(Ok(Some(names(&[
                    "arn:aws:ecs:service/demo/Web",
                    "unnamed",
                    "arn:aws:ecs:service/demo/api",
                    "arn:aws:ecs:service/demo/idle",
                ]))))
            },
            Step::ListTasks(listing) => {
                requests.push(format!("tasks of {} in {}", listing.service(), listing.cluster()));
                let reply = match listing.service().as_str() {
                    "web" => Ok(Some(names(&["w1", "w2"]))),
                    "api" => Ok(Some(names(&["a1"]))),
                    "broken" => Err("no such service".to_string()),
                    _ => Ok(None),
                };
                listing.found(reply)
            },
            Step::DescribeTasks(lookup) => {
                requests.push(format!("{:?} in {}", lookup.tasks(), lookup.cluster()));
                let reply = match lookup.tasks().len() {
                    0 => Vec::new(),
                    1 => vec![task("10.1.0.1")],
                    _ => vec![task("10.1.0.9"), task("10.9.0.1"), task("10.1.0.20"), task("10.1.0.3")],
                };
                lookup.found(Ok(reply))
            },
            Step::Done(outcome) => {
                let outcome = outcome.map(|selection| selection.peers);
                return (requests, outcome.map_err(|error| error.0));
            },
        }
    }
}

#[test]
fn all_services_are_asked_about_where_none_is_named() {
    let request = GetPeersBuilder::new(subnet("10.1.0.0/16"));
    let (requests, outcome) = run(Step::begin(request, &metadata("demo", "10.1.0.5")));
    assert_eq!(
        requests,
        [
            "services of demo",
            "tasks of web in demo",
            "tasks of api in demo",
            "tasks of idle in demo",
            "[\"a1\"] in demo",
            "[] in demo",
            "[\"w1\", \"w2\"] in demo",
        ]
    );
    assert_eq!(outcome, Ok(names(&["10.1.0.1", "10.1.0.20", "10.1.0.3", "10.1.0.9"])));
}

#[test]
fn only_named_services_are_asked_about() {
    let request = GetPeersBuilder::new(subnet("10.1.0.0/16"))
        .with_service_filter("WEB")
        .with_service_filter("web")
        .with_return_dns_name()
        .with_max_peers(2);
    let (requests, outcome) = run(Step::begin(request, &metadata("demo", "10.1.0.5")));
    assert_eq!(
        requests,
        ["tasks of web in demo", "tasks of web in demo", "[\"w1\", \"w2\"] in demo"]
    );
    assert_eq!(outcome, Ok(names(&["ip-10.1.0.20.local", "ip-10.1.0.9.local"])));
}

#[test]
fn a_weight_decides_between_services() {
    let request = GetPeersBuilder::new(subnet("10.1.0.0/16"))
        .with_service_filter("web")
        .with_service_filter("api")
        .with_service_weight("api", Float(1.0))
        .with_service_weight("web", Float(3.0))
        .with_max_peers(3);
    let (_, outcome) = run(Step::begin(request, &metadata("demo", "10.1.0.5")));
    assert_eq!(outcome, Ok(names(&["10.1.0.20", "10.1.0.3"])));

    let request = GetPeersBuilder::new(subnet("10.1.0.0/16"))
        .with_service_filter("web")
        .with_service_filter("api")
        .with_service_weight("api", Float(1.0))
        .with_service_weight("web", Float(3.0))
        .with_at_least_one_peer_per_service()
        .with_max_peers(3);
    let (_, outcome) = run(Step::begin(request, &metadata("demo", "10.1.0.5")));
    assert_eq!(outcome, Ok(names(&["10.1.0.1", "10.1.0.20", "10.1.0.3"])));
}

#[test]
fn services_left_out_by_their_weight_are_named_in_the_answer() {
    let request = GetPeersBuilder::new(subnet("10.1.0.0/16"))
        .with_service_filter("api")
        .with_service_weight("api", Float(0.1))
        .with_service_weight("ghost", Float(0.9))
        .with_max_peers(3);
    match Step::begin(request, &metadata("demo", "10.1.0.5")) {
        Step::ListTasks(listing) => match listing.found(Ok(Some(names(&["a1"])))) {
            Step::DescribeTasks(lookup) => match lookup.found(Ok(vec![task("10.1.0.1")])) {
                Step::Done(Ok(selection)) => {
                    assert!(selection.peers.is_empty());
                    assert_eq!(selection.unserved.len(), 1);
                    assert_eq!(selection.unserved[0].service, "api");
                    assert_eq!(selection.unserved[0].weight, Float(0.1));
                },
                _ => panic!("no answer"),
            },
            _ => panic!("the tasks are to be described"),
        },
        _ => panic!("the tasks are to be listed"),
    }
}

#[test]
fn no_more_peers_are_answered_than_asked_for() {
    let request = GetPeersBuilder::new(subnet("10.1.0.0/16"))
        .with_service_filter("web")
        .with_service_filter("api")
        .with_service_weight("web", Float(9.0))
        .with_max_peers(2);
    let (_, outcome) = run(Step::begin(request, &metadata("demo", "10.1.0.5")));
    assert_eq!(outcome, Ok(names(&["10.1.0.1", "10.1.0.20"])));
}

#[test]
fn the_first_failure_ends_the_search() {
    let request = GetPeersBuilder::new(subnet("10.1.0.0/16"))
        .with_service_filter("broken")
        .with_service_filter("web");
    let (requests, outcome) = run(Step::begin(request, &metadata("demo", "10.1.0.5")));
    assert_eq!(requests, ["tasks of broken in demo"]);
    assert_eq!(outcome, Err("no such service".to_string()));

    let request: GetPeersBuilder<Float> = GetPeersBuilder::new(subnet("10.1.0.0/16"));
    match Step::begin(request, &metadata("demo", "10.1.0.5")) {
        Step::ListServices(listing) => {
            let (_, outcome) = run(listing.listed(Err("denied".to_string())));
            assert_eq!(outcome, Err("denied".to_string()));
        },
        _ => panic!("the services are to be listed"),
    }

    let request: GetPeersBuilder<Float> =
        GetPeersBuilder::new(subnet("10.1.0.0/16")).with_service_filter("web");
    match Step::begin(request, &metadata("demo", "10.1.0.5")) {
        Step::ListTasks(listing) => match listing.found(Ok(Some(names(&["w1"])))) {
            Step::DescribeTasks(lookup) => {
                let (_, outcome) = run(lookup.found(Err("throttled".to_string())));
                assert_eq!(outcome, Err("throttled".to_string()));
            },
            _ => panic!("the tasks are to be described"),
        },
        _ => panic!("the tasks are to be listed"),
    }
}

#[test]
fn a_cluster_without_services_has_no_peers() {
    let request: GetPeersBuilder<Float> = GetPeersBuilder::new(subnet("10.1.0.0/16"));
    match Step::begin(request, &metadata("demo", "10.1.0.5")) {
        Step::ListServices(listing) => {
            let (requests, outcome) = run(listing.listed(Ok(None)));
            assert!(requests.is_empty());
            assert_eq!(outcome, Ok(Vec::new()));
        },
        _ => panic!("the services are to be listed"),
    }
}

#[test]
fn without_a_file_there_is_no_metadata() {
    match MetadataStep::begin(None) {
        MetadataStep::Done(Err(error)) => {
            assert!(matches!(error, MetadataError::Missing));
            assert_eq!(error.message(), "No metadata file present");
        },
        _ => panic!("no error"),
    }
}

#[test]
fn the_metadata_file_is_read_three_times_at_most() {
    assert_eq!(MAX_ATTEMPTS * WAIT_MILLIS, 1500);
    let mut step = MetadataStep::begin(Some("/metadata.json".to_string()));
    let mut attempts = 0;
    let error = loop {
        step = match step {
            MetadataStep::Attempt(attempt) => {
                assert_eq!(attempt.file(), "/metadata.json");
                attempts += 1;
                attempt.next(FileContent::Incomplete)
            },
            MetadataStep::Done(outcome) => break outcome.unwrap_err(),
        }
    };
    assert_eq!(attempts, 3);
    assert!(matches!(error, MetadataError::Malformed));
    assert_eq!(error.message(), "Malformed metadata file present");
}

#[test]
fn complete_metadata_end_the_reading() {
    let step = MetadataStep::begin(Some("/metadata.json".to_string()));
    let step = match step {
        MetadataStep::Attempt(attempt) => attempt.next(FileContent::Incomplete),
        _ => panic!("no attempt"),
    };
    let step = match step {
        MetadataStep::Attempt(attempt) => {
            attempt.next(FileContent::Complete(metadata("demo", "10.1.0.5")))
        },
        _ => panic!("no second attempt"),
    };
    match step {
        MetadataStep::Done(Ok(found)) => assert_eq!(found.cluster, "demo"),
        _ => panic!("no metadata"),
    }
}

#[test]
fn metadata_that_are_not_ready_are_read_again() {
    let mut early = metadata("demo", "10.1.0.5");
    early.metadata_file_status = "PENDING".to_string();
    let mut step = MetadataStep::begin(Some("/metadata.json".to_string()));
    let mut attempts = 0;
    let error = loop {
        step = match step {
            MetadataStep::Attempt(attempt) => {
                attempts += 1;
                attempt.next(FileContent::Complete(early.clone()))
            },
            MetadataStep::Done(outcome) => break outcome.unwrap_err(),
        }
    };
    assert_eq!(attempts, 3);
    assert!(matches!(error, MetadataError::Malformed));

    let step = match MetadataStep::begin(Some("/metadata.json".to_string())) {
        MetadataStep::Attempt(attempt) => attempt.next(FileContent::Complete(early)),
        _ => panic!("no attempt"),
    };
    let step = match step {
        MetadataStep::Attempt(attempt) => {
            attempt.next(FileContent::Complete(metadata("demo", "10.1.0.5")))
        },
        _ => panic!("no second attempt"),
    };
    match step {
        MetadataStep::Done(Ok(found)) => assert_eq!(found.metadata_file_status, "READY"),
        _ => panic!("no metadata"),
    }
}

#[test]
fn an_unreadable_file_ends_the_reading() {
    match MetadataStep::begin(Some("/metadata.json".to_string())) {
        MetadataStep::Attempt(attempt) => {
            match attempt.next(FileContent::Unreadable("gone".to_string())) {
                MetadataStep::Done(Err(error)) => assert_eq!(error.message(), "gone"),
                _ => panic!("no error"),
            }
        },
        _ => panic!("no attempt"),
    }
}
