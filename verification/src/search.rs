//! What is promised of a search, request by request and from its start to its end.

use vstd::prelude::*;
use crate::arn::{after_last_slash, lemma_named, service_names};
use crate::builder::{answers, GetPeersBuilder, PeerQuery};
use crate::discovery::{
    asked_services, collected, follows, is_run, law_run_answers, law_run_keeps_track, lists,
    on_track, peers_of, tasks_of, texts_or_none, PeerLookup, Replies, ServiceListing, Step,
    TaskListing,
};
use crate::metadata::ContainerMetadata;
use crate::ordered::{in_order, lemma_in_order_of};
use crate::quotas::{are_all_services, finite_peers, first};
use crate::selection::{is_fair_selection, law_full_selection, Choice};
use crate::subnet::outside_text;
use crate::tasks::{all_described, task_peers, TaskDescription};
use crate::text::{are_places, lowercase, texts};
use crate::weights::Weight;

verus! {

/// `step` lists the tasks of the service at a place.
pub open spec fn lists_tasks<W: Weight>(
    step: Step<W>,
    query: PeerQuery<W>,
    cluster: Seq<char>,
    services: Seq<Seq<char>>,
    at: nat,
    tasks: Map<Seq<char>, Seq<Seq<char>>>,
) -> bool {
    step matches Step::ListTasks(listing) && {
        &&& listing.wf()
        &&& listing.query() == query
        &&& listing.cluster_name() == cluster
        &&& listing.services() == services
        &&& listing.position() == at
        &&& listing.tasks() == tasks
    }
}

/// `step` looks at the tasks of the service at a place in the order of the names.
pub open spec fn describes_tasks<W: Weight>(
    step: Step<W>,
    query: PeerQuery<W>,
    cluster: Seq<char>,
    tasks: Map<Seq<char>, Seq<Seq<char>>>,
    at: nat,
    peers: Map<Seq<char>, Set<Seq<char>>>,
) -> bool {
    step matches Step::DescribeTasks(lookup) && {
        &&& lookup.wf()
        &&& lookup.query() == query
        &&& lookup.cluster_name() == cluster
        &&& lookup.all_tasks() == tasks
        &&& lookup.position() == at
        &&& lookup.peers() == peers
    }
}

/// A search begins by listing the tasks of the first service named, or the services of
/// the cluster where none is named. On a host outside the subnet it ends at once.
pub proof fn law_search_begins<W: Weight>(
    request: GetPeersBuilder<W>,
    metadata: ContainerMetadata,
    step: Step<W>,
)
    requires
        request.wf(),
        call_ensures(Step::<W>::begin, (request, &metadata), step),
    ensures
        !request@.subnet.covers(metadata.host_private_ipv4_address) ==> (
        step matches Step::Done(Err(error)) && error.0@ == outside_text(
            request@.subnet,
            metadata.host_private_ipv4_address,
        )),
        request@.subnet.covers(metadata.host_private_ipv4_address) && request@.services.len() == 0
            ==> (step matches Step::ListServices(listing) && listing.wf() && listing.query()
            == request@ && listing.cluster_name() == metadata.cluster@),
        request@.subnet.covers(metadata.host_private_ipv4_address) && request@.services.len() > 0
            ==> lists_tasks(
            step,
            request@,
            metadata.cluster@,
            request@.services,
            0,
            Map::empty(),
        ),
{
}

/// The services listed are asked about next: exactly those whose resource name has a
/// slash, in their order. Without any the search ends without peers, and where listing
/// them failed it ends with what went wrong.
pub proof fn law_services_are_asked_about<W: Weight>(
    listing: ServiceListing<W>,
    reply: Result<Option<Vec<String>>, String>,
    step: Step<W>,
) -> (places: Seq<int>)
    requires
        listing.wf(),
        call_ensures(ServiceListing::<W>::listed, (listing, reply), step),
    ensures
        reply matches Err(text) ==> (step matches Step::Done(Err(error)) && error.0@ == text@),
        reply matches Ok(None) ==> (step matches Step::Done(Ok(selection))
            && selection.peers@.len() == 0 && selection.unserved@.len() == 0),
        reply matches Ok(Some(arns)) ==> {
            &&& are_places(places, arns@.len())
            &&& forall|t: int|
                0 <= t < arns@.len() && #[trigger] arns@[t]@.contains('/') ==> places.contains(t)
            &&& places.len() == 0 ==> (step matches Step::Done(Ok(selection))
                && selection.peers@.len() == 0 && selection.unserved@.len() == 0)
            &&& places.len() > 0 ==> (step matches Step::ListTasks(asked) && {
                &&& asked.services().len() == places.len()
                &&& forall|i: int|
                    0 <= i < places.len() ==> after_last_slash(
                        arns@[#[trigger] places[i]]@,
                    ) is Some && asked.services()[i] == lowercase(
                        after_last_slash(arns@[places[i]]@)->0,
                    )
                &&& lists_tasks(
                    step,
                    listing.query(),
                    listing.cluster_name(),
                    asked.services(),
                    0,
                    Map::empty(),
                )
            })
        },
{
    match reply {
        Ok(Some(arns)) => {
            let all = texts(arns@);
            let names = service_names(all);
            let places = lemma_named(all);
            assert forall|i: int| 0 <= i < places.len() implies after_last_slash(
                arns@[#[trigger] places[i]]@,
            ) is Some && names[i] == lowercase(
                after_last_slash(arns@[places[i]]@)->0,
            ) by {
                assert(all[places[i]] == arns@[places[i]]@);
            }
            assert forall|t: int| 0 <= t < arns@.len() && #[trigger] arns@[t]@.contains(
                '/',
            ) implies places.contains(t) by {
                assert(all[t] == arns@[t]@);
                arns@[t]@.index_of_last_ensures('/');
            }
            if places.len() == 0 {
                lemma_nothing_found(step, listing.query(), listing.cluster_name(), names);
            }
            places
        },
        Ok(None) => {
            lemma_nothing_found(
                step,
                listing.query(),
                listing.cluster_name(),
                service_names(Seq::empty()),
            );
            Seq::empty()
        },
        Err(_) => Seq::empty(),
    }
}

/// Without services a search ends without peers.
proof fn lemma_nothing_found<W: Weight>(
    step: Step<W>,
    query: PeerQuery<W>,
    cluster: Seq<char>,
    services: Seq<Seq<char>>,
)
    requires
        services.len() == 0,
        lists(step, query, cluster, services, 0, Map::empty()),
    ensures
        step matches Step::Done(Ok(selection)) && selection.peers@.len() == 0
            && selection.unserved@.len() == 0,
{
    let none = Map::<Seq<char>, Set<Seq<char>>>::empty();
    let tasks = Map::<Seq<char>, Seq<Seq<char>>>::empty();
    lemma_in_order_of(tasks.dom());
    assert(none.dom() =~= Set::<Seq<char>>::empty());
    assert(finite_peers(none));
    if let Step::Done(Ok(selection)) = step {
        assert(answers(query, none, selection));
        let choice = law_full_selection(
            none,
            query.service_weights,
            query.max_peers,
            query.one_peer_per_service,
            selection,
        );
    }
}

/// The tasks found for a service are kept, and the next service is asked about. After
/// the last one the tasks of the services are looked at, in the order of the names.
pub proof fn law_tasks_are_kept<W: Weight>(
    listing: TaskListing<W>,
    reply: Result<Option<Vec<String>>, String>,
    step: Step<W>,
)
    requires
        listing.wf(),
        call_ensures(TaskListing::<W>::found, (listing, reply), step),
        listing.position() < listing.services().len(),
    ensures
        reply matches Err(text) ==> (step matches Step::Done(Err(error)) && error.0@ == text@),
        reply matches Ok(found) ==> {
            let service = listing.services()[listing.position() as int];
            let tasks = listing.tasks().insert(
                service,
                match found {
                    Some(tasks) => tasks@.map_values(|task: String| task@),
                    None => Seq::empty(),
                },
            );
            &&& listing.position() + 1 < listing.services().len() ==> lists_tasks(
                step,
                listing.query(),
                listing.cluster_name(),
                listing.services(),
                listing.position() + 1,
                tasks,
            )
            &&& listing.position() + 1 >= listing.services().len() && tasks.dom().finite()
                ==> describes_tasks(
                step,
                listing.query(),
                listing.cluster_name(),
                tasks,
                0,
                Map::empty(),
            )
        },
{
    if let Ok(found) = reply {
        let service = listing.services()[listing.position() as int];
        let tasks = listing.tasks().insert(service, texts_or_none(found));
        if let Some(list) = found {
            assert(texts(list@) =~= list@.map_values(|task: String| task@));
        }
        if tasks.dom().finite() {
            lemma_in_order_of(tasks.dom());
            assert(tasks.dom().contains(service));
            assert(in_order(tasks.dom()).to_set().contains(service));
        }
    }
}

/// The tasks of the service at the current place, in the order of the names, are asked
/// for.
pub proof fn law_tasks_asked_for<W: Weight>(lookup: PeerLookup<W>, tasks: Vec<String>) -> (services:
    Seq<Seq<char>>)
    requires
        lookup.wf(),
        lookup.all_tasks().dom().finite(),
        lookup.position() < lookup.all_tasks().dom().len(),
        call_ensures(PeerLookup::<W>::tasks, (&lookup,), &tasks),
    ensures
        are_all_services(services, lookup.all_tasks()),
        lookup.position() < services.len(),
        lookup.service() == services[lookup.position() as int],
        tasks@.map_values(|task: String| task@)
            == lookup.all_tasks()[services[lookup.position() as int]],
{
    let services = in_order(lookup.all_tasks().dom());
    lemma_in_order_of(lookup.all_tasks().dom());
    assert(texts(tasks@) =~= tasks@.map_values(|task: String| task@));
    assert forall|service: Seq<char>| #[trigger] services.contains(service)
        <==> lookup.all_tasks().contains_key(service) by {
        assert(services.to_set().contains(service) == lookup.all_tasks().dom().contains(service));
    }
    services
}

/// The service whose tasks are asked for, and the cluster, are those of the step.
pub proof fn law_service_asked_about<W: Weight>(
    listing: TaskListing<W>,
    service: String,
    cluster: String,
)
    requires
        listing.wf(),
        call_ensures(TaskListing::<W>::service, (&listing,), &service),
        call_ensures(TaskListing::<W>::cluster, (&listing,), &cluster),
    ensures
        service@ == listing.services()[listing.position() as int],
        cluster@ == listing.cluster_name(),
{
}

/// `after` are the peers of `before`, with the first `max_peers` of those found for a
/// service.
pub open spec fn are_added(
    before: Map<Seq<char>, Set<Seq<char>>>,
    service: Seq<char>,
    found: Seq<Seq<char>>,
    max_peers: nat,
    after: Map<Seq<char>, Set<Seq<char>>>,
) -> bool {
    &&& after.dom() == before.dom().insert(service)
    &&& forall|other: Seq<char>| #[trigger]
        before.contains_key(other) && other != service ==> after[other] == before[other]
    &&& forall|i: int|
        0 <= i < found.len() && i < max_peers ==> after[service].contains(#[trigger] found[i])
    &&& before.contains_key(service) ==> forall|peer: Seq<char>| #[trigger]
        before[service].contains(peer) ==> after[service].contains(peer)
    &&& forall|peer: Seq<char>| #[trigger]
        after[service].contains(peer) ==> (before.contains_key(service)
            && before[service].contains(peer)) || (exists|i: int|
            0 <= i < found.len() && i < max_peers && #[trigger] found[i] == peer)
}

/// The first `max_peers` of the peers found for a service are kept, with all that were
/// found before.
pub proof fn law_collected(
    peers: Map<Seq<char>, Set<Seq<char>>>,
    service: Seq<char>,
    found: Seq<Seq<char>>,
    max_peers: nat,
)
    ensures
        are_added(peers, service, found, max_peers, collected(peers, service, found, max_peers)),
{
    let after = collected(peers, service, found, max_peers);
    let some = first(found, max_peers);
    assert(after.dom() =~= peers.dom().insert(service));
    assert forall|i: int| 0 <= i < found.len() && i < max_peers implies after[service].contains(
        #[trigger] found[i],
    ) by {
        assert(some[i] == found[i]);
        assert(some.contains(found[i]));
    }
    assert forall|peer: Seq<char>| #[trigger] after[service].contains(peer) implies (
    peers.contains_key(service) && peers[service].contains(peer)) || (exists|i: int|
        0 <= i < found.len() && i < max_peers && #[trigger] found[i] == peer) by {
        if some.to_set().contains(peer) {
            assert(some.contains(peer));
            let i = choose|i: int| 0 <= i < some.len() && some[i] == peer;
            assert(found[i] == peer);
        }
    }
}

/// The peers among the tasks described are added to those of their service, and the next
/// service is looked at. After the last one the peers found are selected from.
pub proof fn law_peers_are_added<W: Weight>(
    lookup: PeerLookup<W>,
    reply: Result<Vec<TaskDescription>, String>,
    step: Step<W>,
) -> (added: (Map<Seq<char>, Set<Seq<char>>>, Choice<W>))
    requires
        lookup.wf(),
        reply matches Ok(tasks) ==> all_described(tasks@),
        call_ensures(PeerLookup::<W>::found, (lookup, reply), step),
        lookup.all_tasks().dom().finite(),
        finite_peers(lookup.peers()),
    ensures
        reply matches Err(text) ==> (step matches Step::Done(Err(error)) && error.0@ == text@),
        reply matches Ok(tasks) ==> {
            &&& are_added(
                lookup.peers(),
                lookup.service(),
                task_peers(tasks@, lookup.query().subnet, lookup.query().return_dns_name),
                lookup.query().max_peers as nat,
                added.0,
            )
            &&& lookup.position() + 1 < lookup.all_tasks().dom().len() ==> describes_tasks(
                step,
                lookup.query(),
                lookup.cluster_name(),
                lookup.all_tasks(),
                lookup.position() + 1,
                added.0,
            )
            &&& lookup.position() + 1 >= lookup.all_tasks().dom().len() ==> (
            step matches Step::Done(Ok(selection)) && is_fair_selection(
                added.0,
                lookup.query().service_weights,
                lookup.query().max_peers,
                lookup.query().one_peer_per_service,
                selection,
                added.1,
            ))
        },
{
    let none = Choice {
        all: Map::empty(),
        quotas: Map::empty(),
        services: Seq::empty(),
        parts: Seq::empty(),
        places: Seq::empty(),
    };
    match reply {
        Ok(tasks) => {
            let found = task_peers(
                tasks@,
                lookup.query().subnet,
                lookup.query().return_dns_name,
            );
            let max_peers = lookup.query().max_peers as nat;
            let after = collected(lookup.peers(), lookup.service(), found, max_peers);
            law_collected(lookup.peers(), lookup.service(), found, max_peers);
            lemma_in_order_of(lookup.all_tasks().dom());
            if lookup.position() + 1 < lookup.all_tasks().dom().len() {
                (after, none)
            } else {
                assert(after.dom().contains(lookup.service()));
                assert(finite_peers(after)) by {
                    assert forall|service: Seq<char>| #[trigger] after.contains_key(
                        service,
                    ) implies after[service].finite() by {
                        if service != lookup.service() {
                            assert(lookup.peers().contains_key(service));
                        }
                        first(found, max_peers).lemma_cardinality_of_set();
                    }
                }
                vstd::set_lib::lemma_len_subset(set![lookup.service()], after.dom());
                assert(set![lookup.service()].len() == 1);
                let choice = law_full_selection(
                    after,
                    lookup.query().service_weights,
                    lookup.query().max_peers,
                    lookup.query().one_peer_per_service,
                    step->Done_0->Ok_0,
                );
                (after, choice)
            }
        },
        Err(_) => (Map::empty(), none),
    }
}

/// The replies that a search gets lead from step to step of its run.
pub proof fn law_listed_services_lead_on<W: Weight>(
    listing: ServiceListing<W>,
    arns: Option<Vec<String>>,
    step: Step<W>,
    replies: Replies,
)
    requires
        listing.wf(),
        call_ensures(ServiceListing::<W>::listed, (listing, Ok(arns)), step),
        replies.services == texts_or_none(arns),
    ensures
        follows(Step::ListServices(listing), replies, step),
{
}

/// The replies that a search gets lead from step to step of its run.
pub proof fn law_found_tasks_lead_on<W: Weight>(
    listing: TaskListing<W>,
    tasks: Option<Vec<String>>,
    step: Step<W>,
    replies: Replies,
)
    requires
        listing.wf(),
        call_ensures(TaskListing::<W>::found, (listing, Ok(tasks)), step),
        (replies.tasks)(listing.services()[listing.position() as int]) == texts_or_none(tasks),
    ensures
        follows(Step::ListTasks(listing), replies, step),
{
}

/// The replies that a search gets lead from step to step of its run.
pub proof fn law_described_tasks_lead_on<W: Weight>(
    lookup: PeerLookup<W>,
    tasks: Vec<TaskDescription>,
    step: Step<W>,
    replies: Replies,
)
    requires
        lookup.wf(),
        all_described(tasks@),
        call_ensures(PeerLookup::<W>::found, (lookup, Ok(tasks)), step),
        (replies.described)(lookup.all_tasks()[lookup.service()]) == tasks@,
    ensures
        follows(Step::DescribeTasks(lookup), replies, step),
{
}

/// What a step of a run does, by its place: the services are listed first, where none is
/// named. Then the tasks of each service asked about are listed, one service after the
/// other, and then those of each service are looked at, in the order of the names. Then
/// the run ends, and no sooner.
pub proof fn law_run_step_by_step<W: Weight>(
    steps: Seq<Step<W>>,
    query: PeerQuery<W>,
    cluster: Seq<char>,
    replies: Replies,
    i: int,
)
    requires
        is_run(steps, query, cluster, replies),
        0 <= i < steps.len(),
    ensures
        ({
            let services = if query.services.len() == 0 {
                service_names(replies.services)
            } else {
                query.services
            };
            let first = if query.services.len() == 0 {
                1int
            } else {
                0int
            };
            let second = first + services.len();
            let last = second + services.to_set().len();
            &&& i < first ==> steps[i] is ListServices
            &&& first <= i < second ==> (steps[i] matches Step::ListTasks(listing)
                && listing.services() == services && listing.position() == i - first
                && listing.query() == query && listing.cluster_name() == cluster)
            &&& second <= i < last ==> (steps[i] matches Step::DescribeTasks(lookup)
                && lookup.all_tasks().dom() == services.to_set() && lookup.position() == i - second
                && (forall|service: Seq<char>| #[trigger]
                services.contains(service) ==> lookup.all_tasks()[service] == (replies.tasks)(
                    service,
                )) && lookup.query() == query && lookup.cluster_name() == cluster)
            &&& i >= last ==> i == last && steps[i] is Done
        }),
    decreases i,
{
    let services = asked_services(query, replies);
    services.lemma_cardinality_of_set();
    lemma_in_order_of(services.to_set());
    assert(tasks_of(services, replies).dom() =~= services.to_set());
    law_run_keeps_track(steps, query, cluster, replies, i);
    let empty = Map::<Seq<char>, Seq<Seq<char>>>::empty();
    lemma_in_order_of(empty.dom());
    if services.len() == 0 {
        assert(services.to_set() =~= Set::<Seq<char>>::empty());
    } else {
        assert(services.to_set().contains(services[0]));
        vstd::set_lib::lemma_len_subset(set![services[0]], services.to_set());
        assert(set![services[0]].len() == 1);
    }
    if i > 0 {
        law_run_step_by_step(steps, query, cluster, replies, i - 1);
        law_run_keeps_track(steps, query, cluster, replies, i - 1);
        assert(follows(steps[i - 1], replies, steps[i - 1 + 1]));
        lemma_one_step(steps[i - 1], query, cluster, replies, steps[i]);
    } else {
        assert(services.take(0) =~= Seq::<Seq<char>>::empty());
    }
}

/// The step after one of a run.
proof fn lemma_one_step<W: Weight>(
    step: Step<W>,
    query: PeerQuery<W>,
    cluster: Seq<char>,
    replies: Replies,
    after: Step<W>,
)
    requires
        on_track(step, query, cluster, replies),
        follows(step, replies, after),
    ensures
        ({
            let services = asked_services(query, replies);
            let count = services.to_set().len();
            match step {
                Step::ListServices(_) => if services.len() > 0 {
                    after matches Step::ListTasks(listing) && listing.position() == 0
                } else {
                    after is Done
                },
                Step::ListTasks(listing) => if listing.position() + 1 < services.len() {
                    after matches Step::ListTasks(other) && other.position() == listing.position()
                        + 1
                } else {
                    after matches Step::DescribeTasks(lookup) && lookup.position() == 0
                },
                Step::DescribeTasks(lookup) => if lookup.position() + 1 < count {
                    after matches Step::DescribeTasks(other) && other.position()
                        == lookup.position() + 1
                } else {
                    after is Done
                },
                Step::Done(_) => false,
            }
        }),
{
    let services = asked_services(query, replies);
    services.lemma_cardinality_of_set();
    lemma_in_order_of(services.to_set());
    assert(tasks_of(services, replies).dom() =~= services.to_set());
    let empty = Map::<Seq<char>, Seq<Seq<char>>>::empty();
    lemma_in_order_of(empty.dom());
    if let Step::ListTasks(listing) = step {
        let at = listing.position() as int;
        let service = services[at];
        let tasks = listing.tasks().insert(service, (replies.tasks)(service));
        services.take(at).lemma_cardinality_of_set();
        assert(listing.tasks().dom() =~= services.take(at).to_set());
        assert(tasks.dom().finite());
        lemma_in_order_of(tasks.dom());
        assert(tasks.dom().contains(service));
        assert(in_order(tasks.dom()).to_set().contains(service));
    }
}

/// The peers of a service are those of its tasks that come first, as many as are asked
/// for.
pub proof fn law_peers_of_a_service<W>(
    query: PeerQuery<W>,
    replies: Replies,
    services: Seq<Seq<char>>,
    service: Seq<char>,
)
    requires
        services.contains(service),
    ensures
        peers_of(query, replies, services).dom() == services.to_set(),
        ({
            let found = task_peers(
                (replies.described)((replies.tasks)(service)),
                query.subnet,
                query.return_dns_name,
            );
            let peers = peers_of(query, replies, services)[service];
            &&& forall|i: int|
                0 <= i < found.len() && i < query.max_peers ==> peers.contains(#[trigger] found[i])
            &&& forall|peer: Seq<char>| #[trigger]
                peers.contains(peer) ==> exists|i: int|
                    0 <= i < found.len() && i < query.max_peers && #[trigger] found[i] == peer
        }),
{
    assert(peers_of(query, replies, services).dom() =~= services.to_set());
    let found = task_peers(
        (replies.described)((replies.tasks)(service)),
        query.subnet,
        query.return_dns_name,
    );
    let some = first(found, query.max_peers as nat);
    let peers = peers_of(query, replies, services)[service];
    assert forall|i: int| 0 <= i < found.len() && i < query.max_peers implies peers.contains(
        #[trigger] found[i],
    ) by {
        assert(some[i] == found[i]);
        assert(some.contains(found[i]));
    }
    assert forall|peer: Seq<char>| #[trigger] peers.contains(peer) implies exists|i: int|
        0 <= i < found.len() && i < query.max_peers && #[trigger] found[i] == peer by {
        assert(some.contains(peer));
        let i = choose|i: int| 0 <= i < some.len() && some[i] == peer;
        assert(found[i] == peer);
    }
}

/// A run that ends returns a fair choice of the peers of exactly the services asked
/// about, by the weights, the maximum and the wish for one peer of each service that
/// were asked for. Without services it returns none.
pub proof fn law_run_returns_a_fair_choice<W: Weight>(
    steps: Seq<Step<W>>,
    query: PeerQuery<W>,
    cluster: Seq<char>,
    replies: Replies,
) -> (choice: Choice<W>)
    requires
        is_run(steps, query, cluster, replies),
        steps.last() is Done,
    ensures
        ({
            let services = if query.services.len() == 0 {
                service_names(replies.services)
            } else {
                query.services
            };
            steps.last() matches Step::Done(Ok(selection)) && {
                &&& services.len() == 0 ==> selection.peers@.len() == 0
                &&& services.len() > 0 ==> is_fair_selection(
                    peers_of(query, replies, services),
                    query.service_weights,
                    query.max_peers,
                    query.one_peer_per_service,
                    selection,
                    choice,
                )
            }
        }),
{
    let services = asked_services(query, replies);
    let found = peers_of(query, replies, services);
    law_run_answers(steps, query, cluster, replies);
    services.lemma_cardinality_of_set();
    assert(found.dom() =~= services.to_set());
    assert forall|service: Seq<char>| #[trigger] found.contains_key(
        service,
    ) implies found[service].finite() by {
        first(
            task_peers(
                (replies.described)((replies.tasks)(service)),
                query.subnet,
                query.return_dns_name,
            ),
            query.max_peers as nat,
        ).lemma_cardinality_of_set();
    }
    if services.len() == 0 {
        assert(services.to_set() =~= Set::<Seq<char>>::empty());
    } else {
        assert(services.to_set().contains(services[0]));
        vstd::set_lib::lemma_len_subset(set![services[0]], services.to_set());
        assert(set![services[0]].len() == 1);
    }
    law_full_selection(
        found,
        query.service_weights,
        query.max_peers,
        query.one_peer_per_service,
        steps.last()->Done_0->Ok_0,
    )
}

/// Each request goes to the cluster of the search.
pub proof fn law_cluster_asked<W: Weight>(
    listing: ServiceListing<W>,
    lookup: PeerLookup<W>,
    a: String,
    b: String,
)
    requires
        call_ensures(ServiceListing::<W>::cluster, (&listing,), &a),
        call_ensures(PeerLookup::<W>::cluster, (&lookup,), &b),
    ensures
        a@ == listing.cluster_name(),
        b@ == lookup.cluster_name(),
{
}

} // verus!
