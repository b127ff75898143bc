//! What peers are asked for.

use vstd::prelude::*;
use crate::ordered::{PeerSet, ServiceMap};
use crate::quotas::{all_ordered, lemma_finite_peer_sets, most_peers, peer_sets};
use crate::selection::{
    is_fair_selection, is_full_selection, law_full_selection, select_peers, views, Choice, Selection,
};
use crate::subnet::Subnet;
use crate::text::{is_lowercase_of, lowercase, texts, to_lowercase};
use crate::weights::{finite, PeersByService, ServiceWeights, Weight};

verus! {

/// What is asked for, in mathematical terms.
pub struct PeerQuery<W> {
    pub subnet: Subnet,
    pub services: Seq<Seq<char>>,
    pub max_peers: usize,
    pub return_dns_name: bool,
    pub one_peer_per_service: bool,
    pub service_weights: Map<Seq<char>, W>,
}

/// `selection` is what was asked for of the peers found.
pub open spec fn answers<W: Weight>(
    query: PeerQuery<W>,
    found: Map<Seq<char>, Set<Seq<char>>>,
    selection: Selection<W>,
) -> bool {
    is_full_selection(
        found,
        query.service_weights,
        query.max_peers,
        query.one_peer_per_service,
        texts(selection.peers@),
        views(selection.unserved@),
    )
}

/// A request for the peers in the instance's ECS cluster.
///
/// Peers can be a part of the FARGATE managed compute system, or of an EC2
/// container instance. The request can be narrowed to some services, and the
/// number of peers returned can be limited, with a bias towards some services.
pub struct GetPeersBuilder<W> {
    subnet: Subnet,
    services: Vec<String>,
    max_peers: usize,
    return_dns_name: bool,
    one_peer_per_service: bool,
    service_weights: ServiceWeights<W>,
}

impl<W> View for GetPeersBuilder<W> {
    type V = PeerQuery<W>;

    closed spec fn view(&self) -> PeerQuery<W> {
        PeerQuery {
            subnet: self.subnet,
            services: texts(self.services@),
            max_peers: self.max_peers,
            return_dns_name: self.return_dns_name,
            one_peer_per_service: self.one_peer_per_service,
            service_weights: self.service_weights@,
        }
    }
}

impl<W: Weight> GetPeersBuilder<W> {
    /// The subnet is one, between 1 and 100 peers are asked for, and every weight
    /// is finite.
    pub closed spec fn wf(&self) -> bool {
        &&& self.subnet.wf()
        &&& 0 < self.max_peers <= 100
        &&& self.service_weights.wf()
        &&& forall|service: Seq<char>| #[trigger]
            self.service_weights@.contains_key(service)
                ==> finite(self.service_weights@[service])
    }

    /// Whatever the request, its subnet is one, between 1 and 100 peers are asked
    /// for, and every weight is finite.
    pub proof fn law_limits(&self)
        requires
            self.wf(),
        ensures
            self@.subnet.wf(),
            0 < self@.max_peers <= 100,
            forall|service: Seq<char>| #[trigger]
                self@.service_weights.contains_key(service)
                    ==> finite(self@.service_weights[service]),
    {
    }

    /// Asks for up to 10 peers from all services, by address, in the subnet that
    /// the cluster's VPC has.
    pub fn new(subnet: Subnet) -> (request: Self)
        requires
            subnet.wf(),
        ensures
            request.wf(),
            request@ == (PeerQuery::<W> {
                subnet,
                services: Seq::empty(),
                max_peers: 10,
                return_dns_name: false,
                one_peer_per_service: false,
                service_weights: Map::empty(),
            }),
    {
        let request = GetPeersBuilder {
            subnet,
            services: Vec::new(),
            max_peers: 10,
            return_dns_name: false,
            one_peer_per_service: false,
            service_weights: ServiceMap::new(),
        };
        assert(texts(request.services@) =~= Seq::<Seq<char>>::empty());
        request
    }

    /// Adds a service to those that peers are taken from. Without any, they are
    /// taken from all services.
    ///
    /// The name is put in lower case, and is always matched exactly.
    pub fn with_service_filter(self, service: &str) -> (request: Self)
        requires
            self.wf(),
        ensures
            request.wf(),
            request@ == (PeerQuery {
                services: self@.services.push(lowercase(service@)),
                ..self@
            }),
            is_lowercase_of(request@.services.last(), service@),
    {
        let mut request = self;
        let ghost before = request.services@;
        let name = to_lowercase(service);
        let ghost text = name@;
        request.services.push(name);
        assert(texts(request.services@) =~= texts(before).push(text));
        request
    }

    /// Sets the maximum number of peers to return.
    ///
    /// They are taken evenly from the services, unless weights are set.
    pub fn with_max_peers(self, max_peers: usize) -> (request: Self)
        requires
            self.wf(),
            0 < max_peers <= 100,
        ensures
            request.wf(),
            request@ == (PeerQuery { max_peers, ..self@ }),
    {
        let mut request = self;
        request.max_peers = max_peers;
        request
    }

    /// Sets the weight of a service, whose name is put in lower case. A service
    /// with a larger weight gives a larger part of the peers returned.
    pub fn with_service_weight(self, service: &str, weight: W) -> (request: Self)
        requires
            self.wf(),
            finite(weight),
        ensures
            request.wf(),
            request@ == (PeerQuery {
                service_weights: self@.service_weights.insert(lowercase(service@), weight),
                ..self@
            }),
            is_lowercase_of(lowercase(service@), service@),
    {
        let mut request = self;
        let name = to_lowercase(service);
        request.service_weights.insert(name, weight);
        request
    }

    /// Asks for the DNS names of the peers, such as `some-instance.ec2.local`,
    /// rather than their IPv4 addresses.
    pub fn with_return_dns_name(self) -> (request: Self)
        requires
            self.wf(),
        ensures
            request.wf(),
            request@ == (PeerQuery { return_dns_name: true, ..self@ }),
    {
        let mut request = self;
        request.return_dns_name = true;
        request
    }

    /// Asks for at least one peer of each service, regardless of the weights.
    pub fn with_at_least_one_peer_per_service(self) -> (request: Self)
        requires
            self.wf(),
        ensures
            request.wf(),
            request@ == (PeerQuery { one_peer_per_service: true, ..self@ }),
    {
        let mut request = self;
        request.one_peer_per_service = true;
        request
    }

    /// The subnet that peers lie in.
    pub fn subnet(&self) -> (subnet: &Subnet)
        requires
            self.wf(),
        ensures
            *subnet == self@.subnet,
            subnet.wf(),
    {
        &self.subnet
    }

    /// The services that peers are taken from; all where there are none.
    pub fn services(&self) -> (services: &Vec<String>)
        ensures
            texts(services@) == self@.services,
    {
        &self.services
    }

    /// The maximum number of peers.
    pub fn max_peers(&self) -> (max_peers: usize)
        ensures
            max_peers == self@.max_peers,
    {
        self.max_peers
    }

    /// Whether DNS names are asked for.
    pub fn return_dns_name(&self) -> (asked: bool)
        ensures
            asked == self@.return_dns_name,
    {
        self.return_dns_name
    }

    /// Whether at least one peer of each service is asked for.
    pub fn one_peer_per_service(&self) -> (asked: bool)
        ensures
            asked == self@.one_peer_per_service,
    {
        self.one_peer_per_service
    }

    /// The weight of a service, by its name in lower case.
    pub fn service_weight(&self, service: &str) -> (weight: Option<&W>)
        requires
            self.wf(),
        ensures
            match weight {
                Some(weight) => self@.service_weights.contains_key(service@) && *weight
                    == self@.service_weights[service@],
                None => !self@.service_weights.contains_key(service@),
            },
    {
        self.service_weights.get(service)
    }

    /// Selects the peers to return from those found: no more than were asked for, or
    /// one of each service that has peers, where one peer per service is asked for
    /// and there are more such services.
    pub fn select(self, peers_by_service: PeersByService) -> (selection: Selection<W>)
        requires
            self.wf(),
            peers_by_service.wf(),
            all_ordered(peers_by_service@),
        ensures
            answers(self@, peer_sets(peers_by_service@), selection),
            selection.peers@.len() <= most_peers(
                peer_sets(peers_by_service@),
                self@.max_peers as nat,
                self@.one_peer_per_service,
            ),
    {
        select_peers(
            peers_by_service,
            self.service_weights,
            self.max_peers,
            self.one_peer_per_service,
        )
    }
}

/// A new request asks for up to 10 peers from all services of the subnet, by address,
/// without weights.
pub proof fn law_new<W: Weight>(subnet: Subnet, request: GetPeersBuilder<W>)
    requires
        subnet.wf(),
        call_ensures(GetPeersBuilder::<W>::new, (subnet,), request),
    ensures
        request@.subnet == subnet,
        request@.services.len() == 0,
        request@.max_peers == 10,
        !request@.return_dns_name,
        !request@.one_peer_per_service,
        request@.service_weights.dom() == Set::<Seq<char>>::empty(),
{
}

/// What is set is what is asked for, and nothing else of the request changes.
pub proof fn law_with_service_filter<W: Weight>(
    before: GetPeersBuilder<W>,
    service: &str,
    after: GetPeersBuilder<W>,
    i: int,
)
    requires
        before.wf(),
        call_ensures(GetPeersBuilder::<W>::with_service_filter, (before, service), after),
    ensures
        after@.services.len() == before@.services.len() + 1,
        0 <= i < before@.services.len() ==> after@.services[i] == before@.services[i],
        is_lowercase_of(after@.services[before@.services.len() as int], service@),
        after@.subnet == before@.subnet,
        after@.max_peers == before@.max_peers,
        after@.return_dns_name == before@.return_dns_name,
        after@.one_peer_per_service == before@.one_peer_per_service,
        after@.service_weights == before@.service_weights,
{
}

/// What is set is what is asked for, and nothing else of the request changes.
pub proof fn law_with_max_peers<W: Weight>(
    before: GetPeersBuilder<W>,
    max_peers: usize,
    after: GetPeersBuilder<W>,
    got: usize,
)
    requires
        before.wf(),
        0 < max_peers <= 100,
        call_ensures(GetPeersBuilder::<W>::with_max_peers, (before, max_peers), after),
        call_ensures(GetPeersBuilder::<W>::max_peers, (&after,), got),
    ensures
        got == max_peers,
        after@.max_peers == max_peers,
        after@.subnet == before@.subnet,
        after@.services == before@.services,
        after@.return_dns_name == before@.return_dns_name,
        after@.one_peer_per_service == before@.one_peer_per_service,
        after@.service_weights == before@.service_weights,
{
}

/// What is set is what is asked for, and nothing else of the request changes: a weight
/// replaces an earlier one of the same service, and leaves those of others.
pub proof fn law_with_service_weight<W: Weight>(
    before: GetPeersBuilder<W>,
    service: &str,
    weight: W,
    after: GetPeersBuilder<W>,
    name: Seq<char>,
)
    requires
        before.wf(),
        finite(weight),
        call_ensures(
            GetPeersBuilder::<W>::with_service_weight,
            (before, service, weight),
            after,
        ),
    ensures
        is_lowercase_of(name, service@) ==> after@.service_weights.contains_key(name)
            && after@.service_weights[name] == weight,
        name != lowercase(service@) ==> {
            &&& after@.service_weights.contains_key(name) == before@.service_weights.contains_key(
                name,
            )
            &&& after@.service_weights[name] == before@.service_weights[name]
        },
        after@.subnet == before@.subnet,
        after@.services == before@.services,
        after@.max_peers == before@.max_peers,
        after@.return_dns_name == before@.return_dns_name,
        after@.one_peer_per_service == before@.one_peer_per_service,
{
}

/// What is set is what is asked for, and nothing else of the request changes.
pub proof fn law_with_return_dns_name<W: Weight>(
    before: GetPeersBuilder<W>,
    after: GetPeersBuilder<W>,
    got: bool,
)
    requires
        before.wf(),
        call_ensures(GetPeersBuilder::<W>::with_return_dns_name, (before,), after),
        call_ensures(GetPeersBuilder::<W>::return_dns_name, (&after,), got),
    ensures
        got,
        after@.return_dns_name,
        after@.subnet == before@.subnet,
        after@.services == before@.services,
        after@.max_peers == before@.max_peers,
        after@.one_peer_per_service == before@.one_peer_per_service,
        after@.service_weights == before@.service_weights,
{
}

/// What is set is what is asked for, and nothing else of the request changes.
pub proof fn law_with_at_least_one_peer_per_service<W: Weight>(
    before: GetPeersBuilder<W>,
    after: GetPeersBuilder<W>,
    got: bool,
)
    requires
        before.wf(),
        call_ensures(
            GetPeersBuilder::<W>::with_at_least_one_peer_per_service,
            (before,),
            after,
        ),
        call_ensures(GetPeersBuilder::<W>::one_peer_per_service, (&after,), got),
    ensures
        got,
        after@.one_peer_per_service,
        after@.subnet == before@.subnet,
        after@.services == before@.services,
        after@.max_peers == before@.max_peers,
        after@.return_dns_name == before@.return_dns_name,
        after@.service_weights == before@.service_weights,
{
}

/// What is selected is a fair choice of the peers found, by the weights, the maximum and
/// the wish for one peer of each service that the request holds.
pub proof fn law_selects_what_is_asked_for<W: Weight>(
    request: GetPeersBuilder<W>,
    peers_by_service: PeersByService,
    selection: Selection<W>,
) -> (choice: Choice<W>)
    requires
        request.wf(),
        peers_by_service.wf(),
        all_ordered(peers_by_service@),
        call_ensures(GetPeersBuilder::<W>::select, (request, peers_by_service), selection),
    ensures
        peers_by_service@.dom().len() == 0 ==> selection.peers@.len() == 0
            && selection.unserved@.len() == 0,
        peers_by_service@.dom().len() > 0 ==> is_fair_selection(
            peers_by_service@.map_values(|set: PeerSet| set@),
            request@.service_weights,
            request@.max_peers,
            request@.one_peer_per_service,
            selection,
            choice,
        ),
{
    let sets = peer_sets(peers_by_service@);
    lemma_finite_peer_sets(peers_by_service);
    assert(sets =~= peers_by_service@.map_values(|set: PeerSet| set@));
    assert(sets.dom() =~= peers_by_service@.dom());
    law_full_selection(
        sets,
        request@.service_weights,
        request@.max_peers,
        request@.one_peer_per_service,
        selection,
    )
}

/// What a request holds can be asked of it.
pub proof fn law_what_a_request_holds<W: Weight>(
    request: GetPeersBuilder<W>,
    subnet: Subnet,
    services: Vec<String>,
    max_peers: usize,
    return_dns_name: bool,
    one_peer_per_service: bool,
)
    requires
        request.wf(),
        call_ensures(GetPeersBuilder::<W>::subnet, (&request,), &subnet),
        call_ensures(GetPeersBuilder::<W>::services, (&request,), &services),
        call_ensures(GetPeersBuilder::<W>::max_peers, (&request,), max_peers),
        call_ensures(GetPeersBuilder::<W>::return_dns_name, (&request,), return_dns_name),
        call_ensures(
            GetPeersBuilder::<W>::one_peer_per_service,
            (&request,),
            one_peer_per_service,
        ),
    ensures
        subnet == request@.subnet,
        services@.map_values(|service: String| service@) == request@.services,
        max_peers == request@.max_peers,
        return_dns_name == request@.return_dns_name,
        one_peer_per_service == request@.one_peer_per_service,
{
    assert(texts(services@) =~= services@.map_values(|service: String| service@));
}

/// The weight that was set for a service is the one that it has.
pub proof fn law_weight_that_was_set<W: Weight>(
    before: GetPeersBuilder<W>,
    service: &str,
    weight: W,
    after: GetPeersBuilder<W>,
    name: &str,
    got: Option<&W>,
)
    requires
        before.wf(),
        finite(weight),
        call_ensures(
            GetPeersBuilder::<W>::with_service_weight,
            (before, service, weight),
            after,
        ),
        after.wf(),
        call_ensures(GetPeersBuilder::<W>::service_weight, (&after, name), got),
    ensures
        is_lowercase_of(name@, service@) ==> got == Some(&weight),
        name@ != lowercase(service@) ==> (got is Some
            == before@.service_weights.contains_key(name@)),
        name@ != lowercase(service@) && got is Some ==> *got->0
            == before@.service_weights[name@],
{
}

} // verus!
