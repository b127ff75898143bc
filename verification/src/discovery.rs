//! How the peers in a cluster are found, request by request.
//!
//! Each step names a request to the cluster. The reply leads to the next step,
//! and the last step holds the peers or the first error met.

use vstd::prelude::*;
use crate::arn::{parse_service_names, service_names};
use crate::builder::{answers, GetPeersBuilder, PeerQuery};
use crate::error::GetPeersError;
use crate::metadata::ContainerMetadata;
use crate::ordered::{
    in_order, lemma_ascending_distinct, lemma_in_order_of, lemma_take_one_more, PeerSet, ServiceMap,
};
use crate::quotas::{all_ordered, finite_peers, first, law_at_most_max_peers, peer_sets};
use crate::selection::{
    is_chosen, law_at_least_one_peer_per_service, law_only_found_peers, lemma_full_selection,
    views, Selection,
};
use crate::subnet::{outside_text, validate_host_within_subnet};
use crate::tasks::{
    all_described, is_address_within, law_peers_within_subnet, peers_from_tasks, task_peers, TaskDescription,
};
use crate::text::texts;
use crate::weights::{PeersByService, Weight};

verus! {

/// How many services are asked for at most.
pub const MAX_SERVICES: i32 = 100;

/// The tasks found for each service.
pub type TasksByService = ServiceMap<Vec<String>>;

/// The tasks found for each service, as sequences.
pub open spec fn task_lists(tasks: Map<Seq<char>, Vec<String>>) -> Map<Seq<char>, Seq<Seq<char>>> {
    tasks.map_values(|list: Vec<String>| texts(list@))
}

/// The services of the cluster are to be listed.
pub struct ServiceListing<W> {
    request: GetPeersBuilder<W>,
    cluster: String,
}

/// The running tasks of a service are to be listed.
pub struct TaskListing<W> {
    request: GetPeersBuilder<W>,
    cluster: String,
    services: Vec<String>,
    next: usize,
    tasks_by_service: TasksByService,
}

/// The tasks of a service are to be described.
pub struct PeerLookup<W> {
    request: GetPeersBuilder<W>,
    cluster: String,
    tasks_by_service: TasksByService,
    next: usize,
    peers_by_service: PeersByService,
}

/// What is to be done next.
pub enum Step<W> {
    ListServices(ServiceListing<W>),
    ListTasks(TaskListing<W>),
    DescribeTasks(PeerLookup<W>),
    Done(Result<Selection<W>, GetPeersError>),
}

/// The peers found so far, with the first `max_peers` of those found for a
/// service.
pub open spec fn collected(
    peers: Map<Seq<char>, Set<Seq<char>>>,
    service: Seq<char>,
    found: Seq<Seq<char>>,
    max_peers: nat,
) -> Map<Seq<char>, Set<Seq<char>>> {
    let known = if peers.contains_key(service) {
        peers[service]
    } else {
        Set::empty()
    };
    peers.insert(service, known.union(first(found, max_peers).to_set()))
}

/// Adds the first `max_peers` of the peers found for a service to those found so
/// far.
pub fn collect_peers(
    peers_by_service: &mut PeersByService,
    service: String,
    found: &Vec<String>,
    max_peers: usize,
)
    requires
        old(peers_by_service).wf(),
        all_ordered(old(peers_by_service)@),
    ensures
        final(peers_by_service).wf(),
        all_ordered(final(peers_by_service)@),
        peer_sets(final(peers_by_service)@) == collected(
            peer_sets(old(peers_by_service)@),
            service@,
            texts(found@),
            max_peers as nat,
        ),
{
    let ghost before = peers_by_service@;
    let mut set = match peers_by_service.remove(service.as_str()) {
        Some(set) => set,
        None => PeerSet::new(),
    };
    let ghost known = set@;
    let count = if max_peers < found.len() { max_peers } else { found.len() };
    let mut i: usize = 0;
    assert(known =~= known.union(texts(found@).take(0).to_set()));
    while i < count
        invariant
            i <= count <= found.len(),
            set.wf(),
            set@ == known.union(texts(found@).take(i as int).to_set()),
        decreases count - i,
    {
        set.insert(found[i].clone());
        proof {
            let all = texts(found@);
            lemma_take_one_more(all, i as int);
            assert(set@ =~= known.union(all.take(i + 1).to_set()));
        }
        i = i + 1;
    }
    proof {
        assert(texts(found@).take(count as int) =~= first(texts(found@), max_peers as nat));
    }
    let ghost name = service@;
    peers_by_service.insert(service, set);
    proof {
        let wanted = collected(peer_sets(before), name, texts(found@), max_peers as nat);
        assert(peers_by_service@ =~= before.insert(name, set));
        assert(peer_sets(peers_by_service@) =~= wanted);
    }
}

impl<W: Weight> ServiceListing<W> {
    /// What is asked for.
    pub closed spec fn query(&self) -> PeerQuery<W> {
        self.request@
    }

    /// The name of the cluster.
    pub closed spec fn cluster_name(&self) -> Seq<char> {
        self.cluster@
    }

    /// The request is well-formed.
    pub closed spec fn wf(&self) -> bool {
        self.request.wf()
    }
}

impl<W: Weight> TaskListing<W> {
    /// What is asked for.
    pub closed spec fn query(&self) -> PeerQuery<W> {
        self.request@
    }

    /// The name of the cluster.
    pub closed spec fn cluster_name(&self) -> Seq<char> {
        self.cluster@
    }

    /// The services whose tasks are listed.
    pub closed spec fn services(&self) -> Seq<Seq<char>> {
        texts(self.services@)
    }

    /// How many of the services have been asked about.
    pub closed spec fn position(&self) -> nat {
        self.next as nat
    }

    /// The tasks found so far.
    pub closed spec fn tasks(&self) -> Map<Seq<char>, Seq<Seq<char>>> {
        task_lists(self.tasks_by_service@)
    }

    /// The request is well-formed, and a service is left to ask about.
    pub closed spec fn wf(&self) -> bool {
        &&& self.request.wf()
        &&& self.next < self.services@.len()
        &&& self.tasks_by_service.wf()
    }
}

impl<W: Weight> PeerLookup<W> {
    /// What is asked for.
    pub closed spec fn query(&self) -> PeerQuery<W> {
        self.request@
    }

    /// The name of the cluster.
    pub closed spec fn cluster_name(&self) -> Seq<char> {
        self.cluster@
    }

    /// The tasks of each service.
    pub closed spec fn all_tasks(&self) -> Map<Seq<char>, Seq<Seq<char>>> {
        task_lists(self.tasks_by_service@)
    }

    /// How many of the services have been looked at, in the order of their names.
    pub closed spec fn position(&self) -> nat {
        self.next as nat
    }

    /// The service that is looked at.
    pub open spec fn service(&self) -> Seq<char> {
        in_order(self.all_tasks().dom())[self.position() as int]
    }

    /// The peers found so far.
    pub closed spec fn peers(&self) -> Map<Seq<char>, Set<Seq<char>>> {
        peer_sets(self.peers_by_service@)
    }

    /// The request is well-formed, and a service is left to look at.
    pub closed spec fn wf(&self) -> bool {
        &&& self.request.wf()
        &&& self.tasks_by_service.wf()
        &&& self.next < self.tasks_by_service.keys().len()
        &&& self.peers_by_service.wf()
        &&& all_ordered(self.peers_by_service@)
    }
}

/// `step` looks at the service at place `next`, or answers where all services
/// have been looked at.
pub open spec fn looks_at<W: Weight>(
    step: Step<W>,
    query: PeerQuery<W>,
    cluster: Seq<char>,
    tasks: Map<Seq<char>, Seq<Seq<char>>>,
    next: nat,
    peers: Map<Seq<char>, Set<Seq<char>>>,
) -> bool {
    if next < in_order(tasks.dom()).len() {
        step matches Step::DescribeTasks(lookup) && {
            &&& lookup.wf()
            &&& lookup.query() == query
            &&& lookup.cluster_name() == cluster
            &&& lookup.all_tasks() == tasks
            &&& lookup.position() == next
            &&& lookup.peers() == peers
        }
    } else {
        step matches Step::Done(Ok(selection)) && answers(query, peers, selection)
    }
}

/// `step` lists the tasks of the service at place `next`, or goes on to the peers
/// where all services have been asked about.
pub open spec fn lists<W: Weight>(
    step: Step<W>,
    query: PeerQuery<W>,
    cluster: Seq<char>,
    services: Seq<Seq<char>>,
    next: nat,
    tasks: Map<Seq<char>, Seq<Seq<char>>>,
) -> bool {
    if next < services.len() {
        step matches Step::ListTasks(listing) && {
            &&& listing.wf()
            &&& listing.query() == query
            &&& listing.cluster_name() == cluster
            &&& listing.services() == services
            &&& listing.position() == next
            &&& listing.tasks() == tasks
        }
    } else {
        looks_at(step, query, cluster, tasks, 0, Map::empty())
    }
}

/// `step` ends with this error.
pub open spec fn fails<W>(step: Step<W>, text: Seq<char>) -> bool {
    step matches Step::Done(Err(error)) && error.0@ == text
}

/// The texts of a reply that may hold none.
pub open spec fn texts_or_none(reply: Option<Vec<String>>) -> Seq<Seq<char>> {
    match reply {
        Some(items) => texts(items@),
        None => Seq::empty(),
    }
}

/// The items of a reply that may hold none.
fn items_or_none(reply: Option<Vec<String>>) -> (items: Vec<String>)
    ensures
        texts(items@) == texts_or_none(reply),
{
    match reply {
        Some(items) => items,
        None => {
            let items: Vec<String> = Vec::new();
            assert(texts(items@) =~= Seq::<Seq<char>>::empty());
            items
        },
    }
}

/// Looks at the service at place `next`, if there is one, else selects the peers.
fn look_at<W: Weight>(
    request: GetPeersBuilder<W>,
    cluster: String,
    tasks_by_service: TasksByService,
    next: usize,
    peers_by_service: PeersByService,
) -> (step: Step<W>)
    requires
        request.wf(),
        tasks_by_service.wf(),
        next <= tasks_by_service.keys().len(),
        peers_by_service.wf(),
        all_ordered(peers_by_service@),
    ensures
        looks_at(
            step,
            request@,
            cluster@,
            task_lists(tasks_by_service@),
            next as nat,
            peer_sets(peers_by_service@),
        ),
{
    proof {
        tasks_by_service.lemma_domain();
        assert(task_lists(tasks_by_service@).dom() =~= tasks_by_service@.dom());
    }
    if next < tasks_by_service.len() {
        Step::DescribeTasks(
            PeerLookup { request, cluster, tasks_by_service, next, peers_by_service },
        )
    } else {
        Step::Done(Ok(request.select(peers_by_service)))
    }
}

/// Lists the tasks of the service at place `next`, if there is one, else goes on
/// to the peers.
fn list<W: Weight>(
    request: GetPeersBuilder<W>,
    cluster: String,
    services: Vec<String>,
    next: usize,
    tasks_by_service: TasksByService,
) -> (step: Step<W>)
    requires
        request.wf(),
        next <= services@.len(),
        tasks_by_service.wf(),
    ensures
        lists(
            step,
            request@,
            cluster@,
            texts(services@),
            next as nat,
            task_lists(tasks_by_service@),
        ),
{
    if next < services.len() {
        Step::ListTasks(TaskListing { request, cluster, services, next, tasks_by_service })
    } else {
        let peers_by_service: PeersByService = ServiceMap::new();
        assert(peer_sets(peers_by_service@) =~= Map::<Seq<char>, Set<Seq<char>>>::empty());
        look_at(request, cluster, tasks_by_service, 0, peers_by_service)
    }
}

/// Copies strings.
fn copies(items: &Vec<String>) -> (copied: Vec<String>)
    ensures
        texts(copied@) == texts(items@),
{
    let mut copied: Vec<String> = Vec::new();
    let mut i: usize = 0;
    while i < items.len()
        invariant
            i <= items.len(),
            texts(copied@) == texts(items@).take(i as int),
        decreases items.len() - i,
    {
        let ghost before = copied@;
        let item = items[i].clone();
        let ghost text = item@;
        copied.push(item);
        assert(texts(copied@) =~= texts(before).push(text));
        assert(texts(items@).take(i + 1) =~= texts(items@).take(i as int).push(text));
        i = i + 1;
    }
    assert(texts(items@).take(i as int) =~= texts(items@));
    copied
}

impl<W: Weight> Step<W> {
    /// Begins on a host with this metadata. A host outside the subnet asks the
    /// cluster nothing. Where services were named their tasks are listed, else
    /// the services are.
    pub fn begin(request: GetPeersBuilder<W>, metadata: &ContainerMetadata) -> (step: Step<W>)
        requires
            request.wf(),
        ensures
            !request@.subnet.covers(metadata.host_private_ipv4_address) ==> fails(
                step,
                outside_text(request@.subnet, metadata.host_private_ipv4_address),
            ),
            request@.subnet.covers(metadata.host_private_ipv4_address) ==> begins_with(
                step,
                request@,
                metadata.cluster@,
            ),
    {
        if let Err(error) = validate_host_within_subnet(
            request.subnet(),
            metadata.host_private_ipv4_address,
        ) {
            return Step::Done(Err(error));
        }
        let cluster = metadata.cluster.clone();
        if request.services().len() == 0 {
            Step::ListServices(ServiceListing { request, cluster })
        } else {
            let services = copies(request.services());
            let tasks_by_service: TasksByService = ServiceMap::new();
            assert(task_lists(tasks_by_service@) =~= Map::<Seq<char>, Seq<Seq<char>>>::empty());
            list(request, cluster, services, 0, tasks_by_service)
        }
    }
}

/// `step` is the first one in a cluster: the services are listed where none is
/// asked for, else their tasks.
pub open spec fn begins_with<W: Weight>(
    step: Step<W>,
    query: PeerQuery<W>,
    cluster: Seq<char>,
) -> bool {
    if query.services.len() == 0 {
        step matches Step::ListServices(listing) && {
            &&& listing.wf()
            &&& listing.query() == query
            &&& listing.cluster_name() == cluster
        }
    } else {
        lists(step, query, cluster, query.services, 0, Map::empty())
    }
}

impl<W: Weight> ServiceListing<W> {
    /// The cluster whose services are to be listed.
    pub fn cluster(&self) -> (cluster: &String)
        ensures
            cluster@ == self.cluster_name(),
    {
        &self.cluster
    }

    /// Goes on with the resource names of the services, or with what went wrong.
    pub fn listed(self, reply: Result<Option<Vec<String>>, String>) -> (step: Step<W>)
        requires
            self.wf(),
        ensures
            match reply {
                Ok(arns) => lists(
                    step,
                    self.query(),
                    self.cluster_name(),
                    service_names(texts_or_none(arns)),
                    0,
                    Map::empty(),
                ),
                Err(text) => fails(step, text@),
            },
    {
        match reply {
            Ok(arns) => {
                let services = parse_service_names(items_or_none(arns));
                let tasks_by_service: TasksByService = ServiceMap::new();
                assert(task_lists(tasks_by_service@) =~= Map::<Seq<char>, Seq<Seq<char>>>::empty());
                list(self.request, self.cluster, services, 0, tasks_by_service)
            },
            Err(text) => Step::Done(Err(GetPeersError(text))),
        }
    }
}

impl<W: Weight> TaskListing<W> {
    /// The cluster that the service runs in.
    pub fn cluster(&self) -> (cluster: &String)
        ensures
            cluster@ == self.cluster_name(),
    {
        &self.cluster
    }

    /// The service whose running tasks are to be listed.
    pub fn service(&self) -> (service: &String)
        requires
            self.wf(),
        ensures
            self.position() < self.services().len(),
            service@ == self.services()[self.position() as int],
    {
        &self.services[self.next]
    }

    /// Goes on with the tasks of the service, or with what went wrong.
    pub fn found(self, reply: Result<Option<Vec<String>>, String>) -> (step: Step<W>)
        requires
            self.wf(),
        ensures
            match reply {
                Ok(tasks) => lists(
                    step,
                    self.query(),
                    self.cluster_name(),
                    self.services(),
                    self.position() + 1,
                    self.tasks().insert(
                        self.services()[self.position() as int],
                        texts_or_none(tasks),
                    ),
                ),
                Err(text) => fails(step, text@),
            },
    {
        match reply {
            Ok(tasks) => {
                let ghost before = self.tasks_by_service@;
                let mut tasks_by_service = self.tasks_by_service;
                let service = self.services[self.next].clone();
                let items = items_or_none(tasks);
                tasks_by_service.insert(service, items);
                assert(task_lists(tasks_by_service@) =~= task_lists(before).insert(
                    service@,
                    texts(items@),
                ));
                assert(self.next < self.services.len());
                list(self.request, self.cluster, self.services, self.next + 1, tasks_by_service)
            },
            Err(text) => Step::Done(Err(GetPeersError(text))),
        }
    }
}

impl<W: Weight> PeerLookup<W> {
    /// The cluster that the tasks run in.
    pub fn cluster(&self) -> (cluster: &String)
        ensures
            cluster@ == self.cluster_name(),
    {
        &self.cluster
    }

    /// The tasks to be described.
    pub fn tasks(&self) -> (tasks: &Vec<String>)
        requires
            self.wf(),
        ensures
            self.all_tasks().contains_key(self.service()),
            texts(tasks@) == self.all_tasks()[self.service()],
    {
        proof {
            self.tasks_by_service.lemma_entry(self.next as int);
            self.tasks_by_service.lemma_domain();
            assert(self.all_tasks().dom() =~= self.tasks_by_service@.dom());
        }
        self.tasks_by_service.value(self.next)
    }

    /// Goes on with the tasks described, or with what went wrong.
    pub fn found(self, reply: Result<Vec<TaskDescription>, String>) -> (step: Step<W>)
        requires
            self.wf(),
            reply matches Ok(tasks) ==> all_described(tasks@),
        ensures
            match reply {
                Ok(tasks) => looks_at(
                    step,
                    self.query(),
                    self.cluster_name(),
                    self.all_tasks(),
                    self.position() + 1,
                    collected(
                        self.peers(),
                        self.service(),
                        task_peers(tasks@, self.query().subnet, self.query().return_dns_name),
                        self.query().max_peers as nat,
                    ),
                ),
                Err(text) => fails(step, text@),
            },
    {
        match reply {
            Ok(tasks) => {
                let peers = peers_from_tasks(
                    &tasks,
                    self.request.subnet(),
                    self.request.return_dns_name(),
                );
                let max_peers = self.request.max_peers();
                let service = self.tasks_by_service.key(self.next).clone();
                let mut peers_by_service = self.peers_by_service;
                collect_peers(&mut peers_by_service, service, &peers, max_peers);
                let total = self.tasks_by_service.len();
                assert(self.next < total);
                proof {
                    self.tasks_by_service.lemma_domain();
                    assert(self.all_tasks().dom() =~= self.tasks_by_service@.dom());
                }
                look_at(
                    self.request,
                    self.cluster,
                    self.tasks_by_service,
                    self.next + 1,
                    peers_by_service,
                )
            },
            Err(text) => Step::Done(Err(GetPeersError(text))),
        }
    }
}

/// What a cluster replies to the requests that succeed.
pub struct Replies {
    /// The resource names of its services.
    pub services: Seq<Seq<char>>,
    /// The running tasks of a service.
    pub tasks: spec_fn(Seq<char>) -> Seq<Seq<char>>,
    /// The descriptions of tasks.
    pub described: spec_fn(Seq<Seq<char>>) -> Seq<TaskDescription>,
}

/// The services asked about: those named, else those of the cluster.
pub open spec fn asked_services<W>(query: PeerQuery<W>, replies: Replies) -> Seq<Seq<char>> {
    if query.services.len() == 0 {
        service_names(replies.services)
    } else {
        query.services
    }
}

/// The tasks of services.
pub open spec fn tasks_of(
    services: Seq<Seq<char>>,
    replies: Replies,
) -> Map<Seq<char>, Seq<Seq<char>>> {
    Map::new(|service: Seq<char>| services.contains(service), |service: Seq<char>| (replies.tasks)(service))
}

/// The peers of a service: those of its tasks, but no more of them than are
/// asked for.
pub open spec fn service_peers<W>(
    query: PeerQuery<W>,
    replies: Replies,
    service: Seq<char>,
) -> Set<Seq<char>> {
    first(
        task_peers(
            (replies.described)((replies.tasks)(service)),
            query.subnet,
            query.return_dns_name,
        ),
        query.max_peers as nat,
    ).to_set()
}

/// The peers of services.
pub open spec fn peers_of<W>(
    query: PeerQuery<W>,
    replies: Replies,
    services: Seq<Seq<char>>,
) -> Map<Seq<char>, Set<Seq<char>>> {
    Map::new(
        |service: Seq<char>| services.contains(service),
        |service: Seq<char>| service_peers(query, replies, service),
    )
}

/// `after` is the step that a successful reply leads to.
pub open spec fn follows<W: Weight>(step: Step<W>, replies: Replies, after: Step<W>) -> bool {
    match step {
        Step::ListServices(listing) => lists(
            after,
            listing.query(),
            listing.cluster_name(),
            service_names(replies.services),
            0,
            Map::empty(),
        ),
        Step::ListTasks(listing) => {
            let service = listing.services()[listing.position() as int];
            lists(
                after,
                listing.query(),
                listing.cluster_name(),
                listing.services(),
                listing.position() + 1,
                listing.tasks().insert(service, (replies.tasks)(service)),
            )
        },
        Step::DescribeTasks(lookup) => {
            let found = (replies.described)(lookup.all_tasks()[lookup.service()]);
            looks_at(
                after,
                lookup.query(),
                lookup.cluster_name(),
                lookup.all_tasks(),
                lookup.position() + 1,
                collected(
                    lookup.peers(),
                    lookup.service(),
                    task_peers(found, lookup.query().subnet, lookup.query().return_dns_name),
                    lookup.query().max_peers as nat,
                ),
            )
        },
        Step::Done(_) => false,
    }
}

/// `steps` are the steps in a cluster whose replies all succeed.
pub open spec fn is_run<W: Weight>(
    steps: Seq<Step<W>>,
    query: PeerQuery<W>,
    cluster: Seq<char>,
    replies: Replies,
) -> bool {
    &&& steps.len() > 0
    &&& begins_with(steps[0], query, cluster)
    &&& forall|i: int|
        0 <= i < steps.len() - 1 ==> follows(#[trigger] steps[i], replies, steps[i + 1])
}

/// `step` holds what the replies so far gave.
pub open spec fn on_track<W: Weight>(
    step: Step<W>,
    query: PeerQuery<W>,
    cluster: Seq<char>,
    replies: Replies,
) -> bool {
    let services = asked_services(query, replies);
    match step {
        Step::ListServices(listing) => {
            &&& query.services.len() == 0
            &&& listing.query() == query
            &&& listing.cluster_name() == cluster
        },
        Step::ListTasks(listing) => {
            &&& listing.query() == query
            &&& listing.cluster_name() == cluster
            &&& listing.services() == services
            &&& listing.position() < services.len()
            &&& listing.tasks() == tasks_of(services.take(listing.position() as int), replies)
        },
        Step::DescribeTasks(lookup) => {
            let names = in_order(services.to_set());
            &&& lookup.query() == query
            &&& lookup.cluster_name() == cluster
            &&& lookup.all_tasks() == tasks_of(services, replies)
            &&& lookup.position() < names.len()
            &&& lookup.peers() == peers_of(query, replies, names.take(lookup.position() as int))
        },
        Step::Done(outcome) => outcome matches Ok(selection) && answers(
            query,
            peers_of(query, replies, services),
            selection,
        ),
    }
}

proof fn lemma_tasks_domain(services: Seq<Seq<char>>, replies: Replies)
    ensures
        tasks_of(services, replies).dom() == services.to_set(),
{
    assert(tasks_of(services, replies).dom() =~= services.to_set());
}

proof fn lemma_looks_at_on_track<W: Weight>(
    step: Step<W>,
    query: PeerQuery<W>,
    cluster: Seq<char>,
    replies: Replies,
    next: nat,
)
    requires
        ({
            let services = asked_services(query, replies);
            let names = in_order(services.to_set());
            &&& next <= names.len()
            &&& looks_at(
                step,
                query,
                cluster,
                tasks_of(services, replies),
                next,
                peers_of(query, replies, names.take(next as int)),
            )
        }),
    ensures
        on_track(step, query, cluster, replies),
{
    let services = asked_services(query, replies);
    let names = in_order(services.to_set());
    lemma_tasks_domain(services, replies);
    if next == names.len() {
        assert(services.to_set().finite());
        lemma_in_order_of(services.to_set());
        assert(names.take(next as int) =~= names);
        assert forall|service: Seq<char>| names.contains(service) == services.contains(service) by {
            assert(names.to_set().contains(service) == services.to_set().contains(service));
        }
        assert(peers_of(query, replies, names) =~= peers_of(query, replies, services));
    }
}

proof fn lemma_lists_on_track<W: Weight>(
    step: Step<W>,
    query: PeerQuery<W>,
    cluster: Seq<char>,
    replies: Replies,
    next: nat,
)
    requires
        ({
            let services = asked_services(query, replies);
            &&& next <= services.len()
            &&& lists(
                step,
                query,
                cluster,
                services,
                next,
                tasks_of(services.take(next as int), replies),
            )
        }),
    ensures
        on_track(step, query, cluster, replies),
{
    let services = asked_services(query, replies);
    if next == services.len() {
        let names = in_order(services.to_set());
        assert(services.take(next as int) =~= services);
        assert(peers_of(query, replies, names.take(0)) =~= Map::<Seq<char>, Set<Seq<char>>>::empty());
        lemma_looks_at_on_track(step, query, cluster, replies, 0);
    }
}

proof fn lemma_none_listed(services: Seq<Seq<char>>, replies: Replies)
    ensures
        tasks_of(services.take(0), replies) == Map::<Seq<char>, Seq<Seq<char>>>::empty(),
{
    assert(tasks_of(services.take(0), replies) =~= Map::<Seq<char>, Seq<Seq<char>>>::empty());
}

proof fn lemma_follows_on_track<W: Weight>(
    step: Step<W>,
    query: PeerQuery<W>,
    cluster: Seq<char>,
    replies: Replies,
    after: Step<W>,
)
    requires
        on_track(step, query, cluster, replies),
        follows(step, replies, after),
    ensures
        on_track(after, query, cluster, replies),
{
    let services = asked_services(query, replies);
    match step {
        Step::ListServices(listing) => {
            lemma_none_listed(services, replies);
            lemma_lists_on_track(after, query, cluster, replies, 0);
        },
        Step::ListTasks(listing) => {
            let i = listing.position() as int;
            lemma_take_one_more(services, i);
            assert(tasks_of(services.take(i), replies).insert(
                services[i],
                (replies.tasks)(services[i]),
            ) =~= tasks_of(services.take(i + 1), replies));
            lemma_lists_on_track(after, query, cluster, replies, (i + 1) as nat);
        },
        Step::DescribeTasks(lookup) => {
            let i = lookup.position() as int;
            let names = in_order(services.to_set());
            lemma_tasks_domain(services, replies);
            assert(services.to_set().finite());
            lemma_in_order_of(services.to_set());
            lemma_ascending_distinct(names);
            lemma_take_one_more(names, i);
            let service = names[i];
            assert(names.to_set().contains(service));
            assert(services.contains(service));
            let before = peers_of(query, replies, names.take(i));
            assert(!names.take(i).contains(service));
            let found = service_peers(query, replies, service);
            assert(Set::<Seq<char>>::empty().union(found) =~= found);
            assert(before.insert(service, found) =~= peers_of(query, replies, names.take(i + 1)));
            lemma_looks_at_on_track(after, query, cluster, replies, (i + 1) as nat);
        },
        Step::Done(_) => {},
    }
}

/// Every step of a run holds exactly what the replies so far gave.
pub proof fn law_run_keeps_track<W: Weight>(
    steps: Seq<Step<W>>,
    query: PeerQuery<W>,
    cluster: Seq<char>,
    replies: Replies,
    i: int,
)
    requires
        is_run(steps, query, cluster, replies),
        0 <= i < steps.len(),
    ensures
        on_track(steps[i], query, cluster, replies),
    decreases i,
{
    if i == 0 {
        let services = asked_services(query, replies);
        if query.services.len() > 0 {
            lemma_none_listed(services, replies);
            lemma_lists_on_track(steps[0], query, cluster, replies, 0);
        }
    } else {
        law_run_keeps_track(steps, query, cluster, replies, i - 1);
        assert(follows(steps[i - 1], replies, steps[i]));
        lemma_follows_on_track(steps[i - 1], query, cluster, replies, steps[i]);
    }
}

/// A run that ends returns a selection of the peers of the services asked about.
pub proof fn law_run_answers<W: Weight>(
    steps: Seq<Step<W>>,
    query: PeerQuery<W>,
    cluster: Seq<char>,
    replies: Replies,
)
    requires
        is_run(steps, query, cluster, replies),
        steps.last() is Done,
    ensures
        steps.last() matches Step::Done(Ok(selection)) && answers(
            query,
            peers_of(query, replies, asked_services(query, replies)),
            selection,
        ),
{
    law_run_keeps_track(steps, query, cluster, replies, steps.len() - 1);
}

/// How many requests are left to make at most.
pub open spec fn requests_left<W: Weight>(step: Step<W>, services: nat) -> int {
    match step {
        Step::ListServices(_) => 2 * services as int + 1,
        Step::ListTasks(listing) => 2 * services - listing.position(),
        Step::DescribeTasks(lookup) => services - lookup.position(),
        Step::Done(_) => 0,
    }
}

/// Each reply leaves fewer requests to make, so that a run ends after one request
/// for the services and two for each service at most.
pub proof fn law_run_ends<W: Weight>(
    steps: Seq<Step<W>>,
    query: PeerQuery<W>,
    cluster: Seq<char>,
    replies: Replies,
    i: int,
)
    requires
        is_run(steps, query, cluster, replies),
        0 <= i < steps.len(),
    ensures
        0 <= requests_left(steps[i], asked_services(query, replies).len()),
        requests_left(steps[i], asked_services(query, replies).len()) + i <= 2 * asked_services(
            query,
            replies,
        ).len() + 1,
        i + 1 < steps.len() ==> requests_left(steps[i + 1], asked_services(query, replies).len())
            < requests_left(steps[i], asked_services(query, replies).len()),
    decreases i,
{
    let services = asked_services(query, replies);
    let names = in_order(services.to_set());
    services.lemma_cardinality_of_set();
    assert(services.to_set().finite());
    lemma_in_order_of(services.to_set());
    law_run_keeps_track(steps, query, cluster, replies, i);
    if i + 1 < steps.len() {
        law_run_keeps_track(steps, query, cluster, replies, i + 1);
        assert(follows(steps[i], replies, steps[i + 1]));
        lemma_tasks_domain(services, replies);
    }
    if i > 0 {
        law_run_ends(steps, query, cluster, replies, i - 1);
    }
}

/// Where services are named, no other service is asked about, and only their
/// peers are returned.
pub proof fn law_only_named_services<W: Weight>(
    steps: Seq<Step<W>>,
    query: PeerQuery<W>,
    cluster: Seq<char>,
    replies: Replies,
    i: int,
)
    requires
        is_run(steps, query, cluster, replies),
        query.services.len() > 0,
        0 <= i < steps.len(),
    ensures
        steps[i] !is ListServices,
        steps[i] matches Step::ListTasks(listing) ==> query.services.contains(
            listing.services()[listing.position() as int],
        ),
        steps[i] matches Step::DescribeTasks(lookup) ==> query.services.contains(lookup.service()),
        peers_of(query, replies, asked_services(query, replies)).dom() == query.services.to_set(),
{
    law_run_keeps_track(steps, query, cluster, replies, i);
    let services = query.services;
    assert(peers_of(query, replies, services).dom() =~= services.to_set());
    if let Step::DescribeTasks(lookup) = steps[i] {
        lemma_tasks_domain(services, replies);
        assert(services.to_set().finite());
        lemma_in_order_of(services.to_set());
        let names = in_order(services.to_set());
        assert(names.to_set().contains(lookup.service()));
        assert(services.contains(lookup.service()));
    }
}

/// No more peers of a service are collected than are asked for in all.
pub proof fn law_collects_at_most_max_peers<W>(
    query: PeerQuery<W>,
    replies: Replies,
    service: Seq<char>,
)
    ensures
        service_peers(query, replies, service).finite(),
        service_peers(query, replies, service).len() <= query.max_peers,
{
    let found = first(
        task_peers(
            (replies.described)((replies.tasks)(service)),
            query.subnet,
            query.return_dns_name,
        ),
        query.max_peers as nat,
    );
    found.lemma_cardinality_of_set();
}

/// The peers of the services asked about are finitely many.
proof fn lemma_finite_peers<W: Weight>(query: PeerQuery<W>, replies: Replies)
    ensures
        finite_peers(peers_of(query, replies, asked_services(query, replies))),
{
    let services = asked_services(query, replies);
    let found = peers_of(query, replies, services);
    assert(found.dom() =~= services.to_set());
    assert forall|service: Seq<char>| #[trigger] found.contains_key(
        service,
    ) implies found[service].finite() by {
        law_collects_at_most_max_peers(query, replies, service);
    }
}

/// No more peers are returned than are asked for, unless one peer per service is
/// asked for and more services than that are asked about.
pub proof fn law_answer_at_most_max_peers<W: Weight>(
    query: PeerQuery<W>,
    replies: Replies,
    selection: Selection<W>,
)
    requires
        !query.one_peer_per_service || asked_services(query, replies).len() <= query.max_peers,
        answers(query, peers_of(query, replies, asked_services(query, replies)), selection),
    ensures
        selection.peers@.len() <= query.max_peers,
{
    let services = asked_services(query, replies);
    let found = peers_of(query, replies, services);
    assert(texts(selection.peers@).len() == selection.peers@.len());
    lemma_finite_peers(query, replies);
    assert(found.dom() =~= services.to_set());
    services.lemma_cardinality_of_set();
    if found.dom() != Set::<Seq<char>>::empty() {
        let (all, quotas) = choose|all: Map<Seq<char>, W>, quotas: Map<Seq<char>, usize>| #[trigger]
            is_chosen(
                found,
                query.service_weights,
                query.max_peers,
                query.one_peer_per_service,
                all,
                quotas,
                texts(selection.peers@),
                views(selection.unserved@),
            );
        law_at_most_max_peers(found, quotas, query.max_peers as nat, query.one_peer_per_service);
    }
}

/// Every address returned lies in the subnet.
pub proof fn law_answer_within_subnet<W: Weight>(
    query: PeerQuery<W>,
    replies: Replies,
    selection: Selection<W>,
    i: int,
)
    requires
        !query.return_dns_name,
        answers(query, peers_of(query, replies, asked_services(query, replies)), selection),
        0 <= i < selection.peers@.len(),
    ensures
        is_address_within(selection.peers@[i]@, query.subnet),
{
    let peers = texts(selection.peers@);
    let services = asked_services(query, replies);
    let found = peers_of(query, replies, services);
    lemma_finite_peers(query, replies);
    lemma_full_selection(
        found,
        query.service_weights,
        query.max_peers,
        query.one_peer_per_service,
        peers,
        views(selection.unserved@),
    );
    law_only_found_peers(
        found,
        query.service_weights,
        query.max_peers,
        query.one_peer_per_service,
        peers,
        i,
    );
    let service = choose|service: Seq<char>| #[trigger]
        found.contains_key(service) && found[service].contains(peers[i]);
    let tasks = (replies.described)((replies.tasks)(service));
    let all = task_peers(tasks, query.subnet, false);
    let some = first(all, query.max_peers as nat);
    assert(some.contains(peers[i]));
    let j = choose|j: int| 0 <= j < some.len() && some[j] == peers[i];
    assert(all[j] == peers[i]);
    law_peers_within_subnet(tasks, query.subnet, j);
}

/// Where one peer per service is asked for, every service asked about that has a
/// peer gives one, whatever the weights.
pub proof fn law_answer_has_each_service<W: Weight>(
    query: PeerQuery<W>,
    replies: Replies,
    selection: Selection<W>,
    service: Seq<char>,
)
    requires
        query.one_peer_per_service,
        answers(query, peers_of(query, replies, asked_services(query, replies)), selection),
        asked_services(query, replies).contains(service),
        service_peers(query, replies, service).len() > 0,
    ensures
        exists|i: int|
            0 <= i < selection.peers@.len() && service_peers(query, replies, service).contains(
                #[trigger] selection.peers@[i]@,
            ),
{
    let peers = texts(selection.peers@);
    let services = asked_services(query, replies);
    let found = peers_of(query, replies, services);
    assert(found.dom() =~= services.to_set());
    lemma_finite_peers(query, replies);
    lemma_full_selection(
        found,
        query.service_weights,
        query.max_peers,
        query.one_peer_per_service,
        peers,
        views(selection.unserved@),
    );
    law_at_least_one_peer_per_service(
        found,
        query.service_weights,
        query.max_peers,
        peers,
        service,
    );
    let i = choose|i: int| 0 <= i < peers.len() && found[service].contains(#[trigger] peers[i]);
    assert(selection.peers@[i]@ == peers[i]);
}

/// Up to a hundred services of the cluster are asked for.
pub proof fn law_services_asked_for()
    ensures
        MAX_SERVICES == 100,
{
}

} // verus!
