//! Which of the peers found are returned.
//!
//! The weights give each service found a quota, and the services give their peers
//! by these quotas.

use vstd::prelude::*;
use crate::ordered::{in_order, lemma_in_order, lemma_in_order_of, PeerSet, ServiceMap};
use crate::quotas::{
    all_ordered, are_all_services, choose_peers, chosen, finite_peers, given_peers,
    is_fair_choice, is_subsequence, law_fair_choice, lemma_finite_peer_sets, lemma_gives_one,
    lemma_larger_quotas_lose_none,
    lemma_selected_from_has, lemma_selected_from_origin, lemma_services, limited, most_peers,
    peer_sets, quota_of, selected, services_with_peers, stands_at,
};
use crate::text::{are_places, texts};
use crate::weights::{
    add_default_service_weights, are_quotas, count_without, divided, even_share_steps, filled_up,
    is_even_share, is_quota, is_sum, lemma_quota_share, lemma_quota_unique, lemma_sum_unique,
    normalize_weights, one_result_each, quota_steps, quotas_by_weight, weights_in_order, PeersByService,
    ServiceWeights, Weight,
};

verus! {

/// `all` are the weights of exactly the given services: the given weights divided
/// by `total`, which makes `parts`, and `share` for each service without one.
pub open spec fn weighed<W: Weight>(
    services: Set<Seq<char>>,
    weights: Map<Seq<char>, W>,
    total: W,
    parts: Map<Seq<char>, W>,
    share: W,
    all: Map<Seq<char>, W>,
) -> bool {
    &&& divided(weights, total, parts)
    &&& is_even_share(count_without(services, parts) as usize, services.len() as usize, share)
    &&& filled_up(services, parts, share, all)
}

/// `all` are the weights that the services found have: as its part of their sum
/// where one is given, and an even share otherwise.
pub open spec fn are_service_weights<W: Weight>(
    services: Set<Seq<char>>,
    weights: Map<Seq<char>, W>,
    all: Map<Seq<char>, W>,
) -> bool {
    exists|total: W, parts: Map<Seq<char>, W>, share: W|
        is_sum(weights_in_order(weights), total) && #[trigger] weighed(
            services,
            weights,
            total,
            parts,
            share,
            all,
        )
}

/// Weighs the services found.
pub fn weigh_services<W: Weight>(
    peers_by_service: &PeersByService,
    weights: ServiceWeights<W>,
) -> (all: ServiceWeights<W>)
    requires
        peers_by_service.wf(),
        weights.wf(),
    ensures
        all.wf(),
        are_service_weights(peers_by_service@.dom(), weights@, all@),
{
    let ghost services = peers_by_service@.dom();
    let ghost given = weights@;
    let mut all = normalize_weights(weights);
    let ghost parts = all@;
    add_default_service_weights(peers_by_service, &mut all);
    proof {
        let total = choose|total: W|
            is_sum(weights_in_order(given), total) && #[trigger] divided(given, total, parts);
        let share = choose|share: W|
            is_even_share(
                count_without(services, parts) as usize,
                services.len() as usize,
                share,
            ) && #[trigger] filled_up(services, parts, share, all@);
        assert(weighed(services, given, total, parts, share, all@));
    }
    all
}

/// `quotas` are the quotas that the weights lead to.
pub open spec fn are_biased_quotas<W: Weight>(
    services: Set<Seq<char>>,
    weights: Map<Seq<char>, W>,
    max_peers: usize,
    at_least_one: bool,
    quotas: Map<Seq<char>, usize>,
) -> bool {
    exists|all: Map<Seq<char>, W>| #[trigger]
        are_service_weights(services, weights, all) && are_quotas(
            all,
            max_peers,
            at_least_one,
            quotas,
        )
}

/// A service that gives no peer because of its weight.
#[derive(Debug)]
pub struct Unserved<W> {
    /// The name of the service.
    pub service: String,
    /// Its weight, as a part of the whole.
    pub weight: W,
}

impl<W> View for Unserved<W> {
    type V = (Seq<char>, W);

    open spec fn view(&self) -> (Seq<char>, W) {
        (self.service@, self.weight)
    }
}

/// The names and weights of services left out.
pub open spec fn views<W>(unserved: Seq<Unserved<W>>) -> Seq<(Seq<char>, W)> {
    unserved.map_values(|one: Unserved<W>| one@)
}

/// The peers to return, and the services left out.
#[derive(Debug)]
pub struct Selection<W> {
    /// The peers to return.
    pub peers: Vec<String>,
    /// The services that give no peer because of their weight.
    pub unserved: Vec<Unserved<W>>,
}

/// The services with a zero quota among some services, with their weights.
pub open spec fn unserved_among<W>(
    services: Seq<Seq<char>>,
    weights: Map<Seq<char>, W>,
    quotas: Map<Seq<char>, usize>,
) -> Seq<(Seq<char>, W)>
    decreases services.len(),
{
    if services.len() == 0 {
        Seq::empty()
    } else {
        let front = unserved_among(services.drop_last(), weights, quotas);
        let last = services.last();
        if quota_of(quotas, last) == 0 {
            front.push((last, weights[last]))
        } else {
            front
        }
    }
}

/// The services with a zero quota, in the order of their names, with their weights.
pub fn unserved_services<W: Weight>(
    weights: &ServiceWeights<W>,
    quotas: &ServiceMap<usize>,
) -> (unserved: Vec<Unserved<W>>)
    requires
        weights.wf(),
        quotas.wf(),
    ensures
        views(unserved@) == unserved_among(in_order(weights@.dom()), weights@, quotas@),
{
    let ghost services = weights.keys();
    let mut unserved: Vec<Unserved<W>> = Vec::new();
    let mut i: usize = 0;
    assert(views(unserved@) =~= Seq::<(Seq<char>, W)>::empty());
    while i < weights.len()
        invariant
            weights.wf(),
            quotas.wf(),
            services == weights.keys(),
            i <= services.len(),
            views(unserved@) == unserved_among(services.take(i as int), weights@, quotas@),
        decreases services.len() - i,
    {
        let ghost before = unserved@;
        let service = weights.key(i);
        proof {
            weights.lemma_entry(i as int);
            assert(services.take(i + 1).drop_last() =~= services.take(i as int));
            assert(services.take(i + 1).last() == service@);
        }
        let quota: usize = match quotas.get(service.as_str()) {
            Some(n) => *n,
            None => 0,
        };
        if quota == 0 {
            let one = Unserved { service: service.clone(), weight: *weights.value(i) };
            let ghost view = one@;
            unserved.push(one);
            assert(views(unserved@) =~= views(before).push(view));
        }
        i = i + 1;
    }
    proof {
        weights.lemma_domain();
        assert(services.take(i as int) =~= services);
    }
    unserved
}

/// `selection` is what is returned by the weights and quotas of the services found,
/// and `unserved` are the services left out by them.
pub open spec fn is_chosen<W: Weight>(
    peers: Map<Seq<char>, Set<Seq<char>>>,
    weights: Map<Seq<char>, W>,
    max_peers: usize,
    at_least_one: bool,
    all: Map<Seq<char>, W>,
    quotas: Map<Seq<char>, usize>,
    selection: Seq<Seq<char>>,
    unserved: Seq<(Seq<char>, W)>,
) -> bool {
    &&& are_service_weights(peers.dom(), weights, all)
    &&& are_quotas(all, max_peers, at_least_one, quotas)
    &&& selection == chosen(peers, quotas, max_peers as nat, at_least_one)
    &&& unserved == unserved_among(in_order(peers.dom()), all, quotas)
}

/// `selection` is what is returned, and `unserved` are the services that give no
/// peer because of their weight: none where there are no services, else those that
/// the weights lead to.
pub open spec fn is_full_selection<W: Weight>(
    peers: Map<Seq<char>, Set<Seq<char>>>,
    weights: Map<Seq<char>, W>,
    max_peers: usize,
    at_least_one: bool,
    selection: Seq<Seq<char>>,
    unserved: Seq<(Seq<char>, W)>,
) -> bool {
    if peers.dom() == Set::<Seq<char>>::empty() {
        &&& selection == Seq::<Seq<char>>::empty()
        &&& unserved == Seq::<(Seq<char>, W)>::empty()
    } else {
        exists|all: Map<Seq<char>, W>, quotas: Map<Seq<char>, usize>| #[trigger]
            is_chosen(
                peers,
                weights,
                max_peers,
                at_least_one,
                all,
                quotas,
                selection,
                unserved,
            )
    }
}

/// `selection` are peers to return: none where there are no services, else those
/// chosen by quotas that the weights lead to. Where the quotas give no more than
/// `max_peers` peers, that is exactly what they give.
pub open spec fn is_selection<W: Weight>(
    peers: Map<Seq<char>, Set<Seq<char>>>,
    weights: Map<Seq<char>, W>,
    max_peers: usize,
    at_least_one: bool,
    selection: Seq<Seq<char>>,
) -> bool {
    if peers.dom() == Set::<Seq<char>>::empty() {
        selection == Seq::<Seq<char>>::empty()
    } else {
        exists|quotas: Map<Seq<char>, usize>| #[trigger]
            are_biased_quotas(peers.dom(), weights, max_peers, at_least_one, quotas) && selection
                == chosen(peers, quotas, max_peers as nat, at_least_one)
    }
}

/// What is returned beside the services left out is a selection.
pub proof fn lemma_full_selection<W: Weight>(
    peers: Map<Seq<char>, Set<Seq<char>>>,
    weights: Map<Seq<char>, W>,
    max_peers: usize,
    at_least_one: bool,
    selection: Seq<Seq<char>>,
    unserved: Seq<(Seq<char>, W)>,
)
    requires
        is_full_selection(peers, weights, max_peers, at_least_one, selection, unserved),
    ensures
        is_selection(peers, weights, max_peers, at_least_one, selection),
{
    if peers.dom() != Set::<Seq<char>>::empty() {
        let (all, quotas) = choose|all: Map<Seq<char>, W>, quotas: Map<Seq<char>, usize>| #[trigger]
            is_chosen(
                peers,
                weights,
                max_peers,
                at_least_one,
                all,
                quotas,
                selection,
                unserved,
            );
        assert(are_biased_quotas(peers.dom(), weights, max_peers, at_least_one, quotas));
    }
}

/// Selects the peers to return, and tells which services are left out because of
/// their weight.
pub fn select_peers<W: Weight>(
    peers_by_service: PeersByService,
    weights: ServiceWeights<W>,
    max_peers: usize,
    at_least_one: bool,
) -> (selection: Selection<W>)
    requires
        peers_by_service.wf(),
        all_ordered(peers_by_service@),
        weights.wf(),
    ensures
        is_full_selection(
            peer_sets(peers_by_service@),
            weights@,
            max_peers,
            at_least_one,
            texts(selection.peers@),
            views(selection.unserved@),
        ),
        is_selection(
            peer_sets(peers_by_service@),
            weights@,
            max_peers,
            at_least_one,
            texts(selection.peers@),
        ),
        selection.peers@.len() <= most_peers(
            peer_sets(peers_by_service@),
            max_peers as nat,
            at_least_one,
        ),
        at_least_one ==> selection.unserved@.len() == 0,
{
    let ghost sets = peer_sets(peers_by_service@);
    proof {
        peers_by_service.lemma_domain();
        assert(sets.dom() =~= peers_by_service@.dom());
    }
    if peers_by_service.len() == 0 {
        let peers: Vec<String> = Vec::new();
        let unserved: Vec<Unserved<W>> = Vec::new();
        assert(texts(peers@) =~= Seq::<Seq<char>>::empty());
        assert(views(unserved@) =~= Seq::<(Seq<char>, W)>::empty());
        assert(peers_by_service@.dom() =~= Set::<Seq<char>>::empty());
        return Selection { peers, unserved };
    }
    let all = weigh_services(&peers_by_service, weights);
    let quotas = quotas_by_weight(&all, max_peers, at_least_one);
    let unserved = unserved_services(&all, &quotas);
    let ghost found = quotas@;
    let peers = choose_peers(&peers_by_service, quotas, max_peers, at_least_one);
    proof {
        assert(is_chosen(
            sets,
            weights@,
            max_peers,
            at_least_one,
            all@,
            found,
            texts(peers@),
            views(unserved@),
        ));
        peers_by_service.lemma_entry(0);
        assert(sets.dom().contains(peers_by_service.keys()[0]));
        lemma_full_selection(
            sets,
            weights@,
            max_peers,
            at_least_one,
            texts(peers@),
            views(unserved@),
        );
        if at_least_one {
            let services = in_order(sets.dom());
            lemma_finite_peer_sets(peers_by_service);
            lemma_services(sets);
            assert forall|i: int| 0 <= i < services.len() implies quota_of(
                found,
                #[trigger] services[i],
            ) > 0 by {
                assert(services.contains(services[i]));
                assert(found.contains_key(services[i]));
            }
            lemma_none_unserved(services, all@, found);
            assert(views(unserved@).len() == unserved@.len());
        }
    }
    Selection { peers, unserved }
}

/// Selects the peers to return: from each service, in the order of their names,
/// as many as its weight allows. Where these are more than `max_peers`, those
/// services that give the most give fewer. Where at least one peer of each service
/// is asked for, each service that has peers gives one, even where there are more
/// such services than `max_peers`.
pub fn filter_peers_with_bias<W: Weight>(
    peers_by_service: PeersByService,
    weights: ServiceWeights<W>,
    max_peers: usize,
    at_least_one: bool,
) -> (peers: Vec<String>)
    requires
        peers_by_service.wf(),
        all_ordered(peers_by_service@),
        weights.wf(),
    ensures
        is_selection(
            peer_sets(peers_by_service@),
            weights@,
            max_peers,
            at_least_one,
            texts(peers@),
        ),
        !at_least_one ==> peers@.len() <= max_peers,
        peers@.len() <= max_peers || peers@.len() <= services_with_peers(
            peer_sets(peers_by_service@),
        ),
{
    select_peers(peers_by_service, weights, max_peers, at_least_one).peers
}

/// Exactly the services found have a quota, and where at least one peer of each is
/// asked for, none has a zero quota.
pub proof fn law_quota_for_each_service<W: Weight>(
    services: Set<Seq<char>>,
    weights: Map<Seq<char>, W>,
    max_peers: usize,
    at_least_one: bool,
    quotas: Map<Seq<char>, usize>,
)
    requires
        are_biased_quotas(services, weights, max_peers, at_least_one, quotas),
    ensures
        quotas.dom() == services,
        at_least_one ==> forall|service: Seq<char>| #[trigger]
            quotas.contains_key(service) ==> quotas[service] >= 1,
{
}

/// Where the weights' own quotas give no more than `max_peers` peers, these are
/// returned.
pub proof fn law_fitting_quotas_are_kept<W: Weight>(
    peers: Map<Seq<char>, Set<Seq<char>>>,
    weights: Map<Seq<char>, W>,
    max_peers: usize,
    at_least_one: bool,
    quotas: Map<Seq<char>, usize>,
    selection: Seq<Seq<char>>,
)
    requires
        finite_peers(peers),
        one_result_each::<W>(),
        are_biased_quotas(peers.dom(), weights, max_peers, at_least_one, quotas),
        selected(peers, quotas).len() <= max_peers,
        is_selection(peers, weights, max_peers, at_least_one, selection),
    ensures
        selection == selected(peers, quotas),
{
    if peers.dom() == Set::<Seq<char>>::empty() {
        lemma_in_order_of(peers.dom());
        assert(in_order(peers.dom()).to_set() =~= Set::<Seq<char>>::empty());
        if in_order(peers.dom()).len() > 0 {
            assert(in_order(peers.dom()).to_set().contains(in_order(peers.dom())[0]));
        }
    } else {
        let other = choose|quotas: Map<Seq<char>, usize>| #[trigger]
            are_biased_quotas(peers.dom(), weights, max_peers, at_least_one, quotas) && selection
                == chosen(peers, quotas, max_peers as nat, at_least_one);
        lemma_quotas_unique(peers.dom(), weights, max_peers, at_least_one, quotas, other);
    }
}

/// Services with a quota are not left out.
proof fn lemma_none_unserved<W>(
    services: Seq<Seq<char>>,
    weights: Map<Seq<char>, W>,
    quotas: Map<Seq<char>, usize>,
)
    requires
        forall|i: int| 0 <= i < services.len() ==> quota_of(quotas, #[trigger] services[i]) > 0,
    ensures
        unserved_among(services, weights, quotas).len() == 0,
    decreases services.len(),
{
    if services.len() > 0 {
        let front = services.drop_last();
        assert forall|i: int| 0 <= i < front.len() implies quota_of(
            quotas,
            #[trigger] front[i],
        ) > 0 by {
            assert(front[i] == services[i]);
        }
        assert(services[services.len() - 1] == services.last());
        lemma_none_unserved(front, weights, quotas);
    }
}

/// Where one peer per service is asked for, every service that has peers gives
/// one, whatever the weights.
pub proof fn law_at_least_one_peer_per_service<W: Weight>(
    peers: Map<Seq<char>, Set<Seq<char>>>,
    weights: Map<Seq<char>, W>,
    max_peers: usize,
    selection: Seq<Seq<char>>,
    service: Seq<char>,
)
    requires
        finite_peers(peers),
        is_selection(peers, weights, max_peers, true, selection),
        peers.contains_key(service),
        peers[service].len() > 0,
    ensures
        exists|i: int| 0 <= i < selection.len() && peers[service].contains(#[trigger] selection[i]),
{
    assert(peers.dom().contains(service));
    let quotas = choose|quotas: Map<Seq<char>, usize>| #[trigger]
        are_biased_quotas(peers.dom(), weights, max_peers, true, quotas) && selection == chosen(
            peers,
            quotas,
            max_peers as nat,
            true,
        );
    law_quota_for_each_service(peers.dom(), weights, max_peers, true, quotas);
    assert(quotas.contains_key(service));
    let most = most_peers(peers, max_peers as nat, true);
    let kept = limited(peers, quotas, most);
    let services = in_order(peers.dom());
    lemma_services(peers);
    lemma_in_order_of(peers[service]);
    assert(services.contains(service));
    let i = choose|i: int| 0 <= i < services.len() && services[i] == service;
    lemma_gives_one(peers, quotas, max_peers as nat, service);
    let given = given_peers(service, peers, kept);
    assert(given.len() > 0);
    assert(given[0] == in_order(peers[service])[0]);
    let at = lemma_selected_from_has(services, peers, kept, i, 0);
    assert(in_order(peers[service]).to_set().contains(given[0]));
    assert(peers[service].contains(selection[at]));
}

/// Only peers that were found for some service are returned.
pub proof fn law_only_found_peers<W: Weight>(
    peers: Map<Seq<char>, Set<Seq<char>>>,
    weights: Map<Seq<char>, W>,
    max_peers: usize,
    at_least_one: bool,
    selection: Seq<Seq<char>>,
    at: int,
)
    requires
        finite_peers(peers),
        is_selection(peers, weights, max_peers, at_least_one, selection),
        0 <= at < selection.len(),
    ensures
        exists|service: Seq<char>| #[trigger]
            peers.contains_key(service) && peers[service].contains(selection[at]),
{
    let quotas = choose|quotas: Map<Seq<char>, usize>| #[trigger]
        are_biased_quotas(peers.dom(), weights, max_peers, at_least_one, quotas) && selection
            == chosen(peers, quotas, max_peers as nat, at_least_one);
    let kept = limited(peers, quotas, most_peers(peers, max_peers as nat, at_least_one));
    let services = in_order(peers.dom());
    lemma_services(peers);
    let i = lemma_selected_from_origin(services, peers, kept, at);
    let service = services[i];
    assert(services.contains(service));
    lemma_in_order_of(peers[service]);
    let given = given_peers(service, peers, kept);
    let j = choose|j: int| 0 <= j < given.len() && given[j] == selection[at];
    assert(in_order(peers[service])[j] == selection[at]);
    assert(in_order(peers[service]).to_set().contains(selection[at]));
}

/// Without a weight for any service found all services weigh the same.
pub proof fn law_even_without_weights<W: Weight>(
    services: Set<Seq<char>>,
    weights: Map<Seq<char>, W>,
    max_peers: usize,
    at_least_one: bool,
    all: Map<Seq<char>, W>,
    quotas: Map<Seq<char>, usize>,
    a: Seq<char>,
    b: Seq<char>,
)
    requires
        are_service_weights(services, weights, all),
        are_quotas(all, max_peers, at_least_one, quotas),
        services.disjoint(weights.dom()),
        services.contains(a),
        services.contains(b),
    ensures
        all[a] == all[b],
        is_quota(all[a], max_peers, at_least_one, quotas[a]),
        is_quota(all[a], max_peers, at_least_one, quotas[b]),
{
    let (total, parts, share) = choose|total: W, parts: Map<Seq<char>, W>, share: W|
        is_sum(weights_in_order(weights), total) && #[trigger] weighed(
            services,
            weights,
            total,
            parts,
            share,
            all,
        );
    assert(!weights.dom().contains(a));
    assert(!weights.dom().contains(b));
    assert(!parts.dom().contains(a));
    assert(!parts.dom().contains(b));
    assert(all.contains_key(a));
    assert(all.contains_key(b));
    assert(quotas.contains_key(a));
    assert(quotas.contains_key(b));
}

/// Division by `total` keeps the order of numbers.
pub open spec fn division_keeps_order<W: Weight>(at_most: spec_fn(W, W) -> bool, total: W) -> bool {
    forall|x: W, y: W, p: W, q: W|
        at_most(x, y) && #[trigger] call_ensures(W::divided_by, (x, total), p)
            && #[trigger] call_ensures(W::divided_by, (y, total), q) ==> at_most(p, q)
}

/// Multiplying `max_peers` by numbers keeps their order.
pub open spec fn product_keeps_order<W: Weight>(
    at_most: spec_fn(W, W) -> bool,
    max_peers: usize,
) -> bool {
    forall|x: W, y: W, l: W, k: W, p: W, q: W|
        at_most(x, y) && call_ensures(W::from_count, (max_peers,), l) && call_ensures(
            W::from_count,
            (max_peers,),
            k,
        ) && #[trigger] call_ensures(W::times, (l, x), p) && #[trigger] call_ensures(
            W::times,
            (k, y),
            q,
        ) ==> at_most(p, q)
}

/// Taking the whole part of numbers keeps their order.
pub open spec fn whole_keeps_order<W: Weight>(at_most: spec_fn(W, W) -> bool) -> bool {
    forall|p: W, q: W, m: usize, n: usize|
        at_most(p, q) && #[trigger] call_ensures(W::whole, (p,), m) && #[trigger] call_ensures(
            W::whole,
            (q,),
            n,
        ) ==> m <= n
}

/// Taking a weight's part of `max_peers` keeps the order of weights.
pub open spec fn share_keeps_order<W: Weight>(
    at_most: spec_fn(W, W) -> bool,
    max_peers: usize,
) -> bool {
    &&& product_keeps_order(at_most, max_peers)
    &&& whole_keeps_order(at_most)
}

/// Of two weighted services the one with the larger weight has no smaller quota,
/// as far as the arithmetic keeps the order of the weights.
pub proof fn law_larger_weight_no_smaller_quota<W: Weight>(
    services: Set<Seq<char>>,
    weights: Map<Seq<char>, W>,
    max_peers: usize,
    at_least_one: bool,
    total: W,
    parts: Map<Seq<char>, W>,
    share: W,
    all: Map<Seq<char>, W>,
    quotas: Map<Seq<char>, usize>,
    at_most: spec_fn(W, W) -> bool,
    a: Seq<char>,
    b: Seq<char>,
)
    requires
        weighed(services, weights, total, parts, share, all),
        are_quotas(all, max_peers, at_least_one, quotas),
        division_keeps_order(at_most, total),
        share_keeps_order(at_most, max_peers),
        services.contains(a),
        services.contains(b),
        weights.contains_key(a),
        weights.contains_key(b),
        at_most(weights[a], weights[b]),
    ensures
        quotas[a] <= quotas[b],
{
    assert(weights.dom().contains(a));
    assert(weights.dom().contains(b));
    assert(parts.contains_key(a));
    assert(parts.contains_key(b));
    assert(all.contains_key(a));
    assert(all.contains_key(b));
    assert(quotas.contains_key(a));
    assert(quotas.contains_key(b));
    assert(at_most(all[a], all[b]));
    let (l, p, m) = choose|limit: W, product: W, share: usize| #[trigger]
        quota_steps(all[a], max_peers, at_least_one, limit, product, share, quotas[a]);
    let (k, q, n) = choose|limit: W, product: W, share: usize| #[trigger]
        quota_steps(all[b], max_peers, at_least_one, limit, product, share, quotas[b]);
    assert(at_most(p, q));
    assert(m <= n);
}

/// Where each operation has one result, services are weighed in one way.
proof fn lemma_weights_unique<W: Weight>(
    services: Set<Seq<char>>,
    weights: Map<Seq<char>, W>,
    a: Map<Seq<char>, W>,
    b: Map<Seq<char>, W>,
)
    requires
        one_result_each::<W>(),
        are_service_weights(services, weights, a),
        are_service_weights(services, weights, b),
    ensures
        a == b,
{
    let (t1, p1, s1) = choose|total: W, parts: Map<Seq<char>, W>, share: W|
        is_sum(weights_in_order(weights), total) && #[trigger] weighed(
            services,
            weights,
            total,
            parts,
            share,
            a,
        );
    let (t2, p2, s2) = choose|total: W, parts: Map<Seq<char>, W>, share: W|
        is_sum(weights_in_order(weights), total) && #[trigger] weighed(
            services,
            weights,
            total,
            parts,
            share,
            b,
        );
    lemma_sum_unique(weights_in_order(weights), t1, t2);
    assert forall|service: Seq<char>| p1.contains_key(service) implies p1[service]
        == p2[service] by {
        assert(p2.contains_key(service));
    }
    assert(p1 =~= p2);
    let without = count_without(services, p1) as usize;
    let of = services.len() as usize;
    let (c1, w1, r1, d1) = choose|part: W, whole: W, ratio: W, divisor: W| #[trigger]
        even_share_steps(without, of, part, whole, ratio, divisor, s1);
    let (c2, w2, r2, d2) = choose|part: W, whole: W, ratio: W, divisor: W| #[trigger]
        even_share_steps(without, of, part, whole, ratio, divisor, s2);
    assert(c1 == c2 && w1 == w2 && d1 == d2);
    assert(r1 == r2);
    assert(s1 == s2);
    assert forall|service: Seq<char>| a.contains_key(service) implies a[service]
        == b[service] by {
        assert(b.contains_key(service));
    }
    assert(a =~= b);
}

/// Where each operation has one result, the weights lead to one set of quotas.
proof fn lemma_quotas_unique<W: Weight>(
    services: Set<Seq<char>>,
    weights: Map<Seq<char>, W>,
    max_peers: usize,
    at_least_one: bool,
    a: Map<Seq<char>, usize>,
    b: Map<Seq<char>, usize>,
)
    requires
        one_result_each::<W>(),
        are_biased_quotas(services, weights, max_peers, at_least_one, a),
        are_biased_quotas(services, weights, max_peers, at_least_one, b),
    ensures
        a == b,
{
    let v = choose|all: Map<Seq<char>, W>| #[trigger]
        are_service_weights(services, weights, all) && are_quotas(all, max_peers, at_least_one, a);
    let w = choose|all: Map<Seq<char>, W>| #[trigger]
        are_service_weights(services, weights, all) && are_quotas(all, max_peers, at_least_one, b);
    lemma_weights_unique(services, weights, v, w);
    assert forall|service: Seq<char>| a.contains_key(service) implies a[service] == b[service] by {
        assert(b.contains_key(service));
        lemma_quota_unique(v[service], max_peers, at_least_one, a[service], b[service]);
    }
    assert(a =~= b);
}

/// The whole part of a weight's part of a larger number is no smaller.
pub open spec fn limit_keeps_order<W: Weight>(smaller_max: usize, larger_max: usize) -> bool {
    forall|weight: W, l: W, k: W, p: W, q: W, m: usize, n: usize|
        call_ensures(W::from_count, (smaller_max,), l) && call_ensures(
            W::from_count,
            (larger_max,),
            k,
        ) && #[trigger] call_ensures(W::times, (l, weight), p) && #[trigger] call_ensures(
            W::times,
            (k, weight),
            q,
        ) && #[trigger] call_ensures(W::whole, (p,), m) && #[trigger] call_ensures(
            W::whole,
            (q,),
            n,
        ) ==> m <= n
}

/// A larger limit makes no quota smaller.
pub proof fn law_larger_limit_no_smaller_quota<W: Weight>(
    weight: W,
    smaller_max: usize,
    larger_max: usize,
    a: usize,
    b: usize,
)
    requires
        limit_keeps_order::<W>(smaller_max, larger_max),
        is_quota(weight, smaller_max, false, a),
        is_quota(weight, larger_max, false, b),
    ensures
        a <= b,
{
    let (l, p, m) = choose|limit: W, product: W, share: usize| #[trigger]
        quota_steps(weight, smaller_max, false, limit, product, share, a);
    let (k, q, n) = choose|limit: W, product: W, share: usize| #[trigger]
        quota_steps(weight, larger_max, false, limit, product, share, b);
    assert(m <= n);
}

/// Asking for at least one peer of each service loses no peer, where the quotas
/// then need no limit and each operation on weights has one result.
pub proof fn law_at_least_one_loses_no_peer<W: Weight>(
    peers: Map<Seq<char>, Set<Seq<char>>>,
    weights: Map<Seq<char>, W>,
    max_peers: usize,
    without: Seq<Seq<char>>,
    with: Seq<Seq<char>>,
)
    requires
        finite_peers(peers),
        one_result_each::<W>(),
        forall|quotas: Map<Seq<char>, usize>| #[trigger]
            are_biased_quotas(peers.dom(), weights, max_peers, true, quotas) ==> selected(
                peers,
                quotas,
            ).len() <= most_peers(peers, max_peers as nat, true),
        is_selection(peers, weights, max_peers, false, without),
        is_selection(peers, weights, max_peers, true, with),
    ensures
        is_subsequence(without, with),
{
    if peers.dom() == Set::<Seq<char>>::empty() {
        assert(stands_at(without, with, Seq::<int>::empty()));
    } else {
        let a = choose|quotas: Map<Seq<char>, usize>| #[trigger]
            are_biased_quotas(peers.dom(), weights, max_peers, false, quotas) && without == chosen(
                peers,
                quotas,
                max_peers as nat,
                false,
            );
        let b = choose|quotas: Map<Seq<char>, usize>| #[trigger]
            are_biased_quotas(peers.dom(), weights, max_peers, true, quotas) && with == chosen(
                peers,
                quotas,
                max_peers as nat,
                true,
            );
        let v = choose|all: Map<Seq<char>, W>| #[trigger]
            are_service_weights(peers.dom(), weights, all) && are_quotas(all, max_peers, false, a);
        let w = choose|all: Map<Seq<char>, W>| #[trigger]
            are_service_weights(peers.dom(), weights, all) && are_quotas(all, max_peers, true, b);
        lemma_weights_unique(peers.dom(), weights, v, w);
        assert forall|service: Seq<char>| #[trigger] peers.contains_key(service) implies quota_of(
            a,
            service,
        ) <= quota_of(b, service) by {
            assert(peers.dom().contains(service));
            assert(a.contains_key(service));
            assert(b.contains_key(service));
            let share = lemma_quota_share(v[service], max_peers, true, b[service]);
            lemma_quota_unique(v[service], max_peers, false, share, a[service]);
        }
        lemma_larger_quotas_lose_none(peers, a, b, most_peers(peers, max_peers as nat, false));
    }
}

/// Asking for more peers loses none, where the quotas then need no limit, each
/// operation on weights has one result, and a larger limit makes no quota smaller.
pub proof fn law_larger_limit_loses_no_peer<W: Weight>(
    peers: Map<Seq<char>, Set<Seq<char>>>,
    weights: Map<Seq<char>, W>,
    smaller_max: usize,
    larger_max: usize,
    fewer: Seq<Seq<char>>,
    more: Seq<Seq<char>>,
)
    requires
        finite_peers(peers),
        smaller_max <= larger_max,
        one_result_each::<W>(),
        limit_keeps_order::<W>(smaller_max, larger_max),
        forall|quotas: Map<Seq<char>, usize>| #[trigger]
            are_biased_quotas(peers.dom(), weights, larger_max, false, quotas) ==> selected(
                peers,
                quotas,
            ).len() <= larger_max,
        is_selection(peers, weights, smaller_max, false, fewer),
        is_selection(peers, weights, larger_max, false, more),
    ensures
        is_subsequence(fewer, more),
{
    if peers.dom() == Set::<Seq<char>>::empty() {
        assert(stands_at(fewer, more, Seq::<int>::empty()));
    } else {
        let a = choose|quotas: Map<Seq<char>, usize>| #[trigger]
            are_biased_quotas(peers.dom(), weights, smaller_max, false, quotas) && fewer == chosen(
                peers,
                quotas,
                smaller_max as nat,
                false,
            );
        let b = choose|quotas: Map<Seq<char>, usize>| #[trigger]
            are_biased_quotas(peers.dom(), weights, larger_max, false, quotas) && more == chosen(
                peers,
                quotas,
                larger_max as nat,
                false,
            );
        let v = choose|all: Map<Seq<char>, W>| #[trigger]
            are_service_weights(peers.dom(), weights, all) && are_quotas(all, smaller_max, false, a);
        let w = choose|all: Map<Seq<char>, W>| #[trigger]
            are_service_weights(peers.dom(), weights, all) && are_quotas(all, larger_max, false, b);
        lemma_weights_unique(peers.dom(), weights, v, w);
        assert forall|service: Seq<char>| #[trigger] peers.contains_key(service) implies quota_of(
            a,
            service,
        ) <= quota_of(b, service) by {
            assert(peers.dom().contains(service));
            assert(a.contains_key(service));
            assert(b.contains_key(service));
            law_larger_limit_no_smaller_quota(
                v[service],
                smaller_max,
                larger_max,
                a[service],
                b[service],
            );
        }
        lemma_larger_quotas_lose_none(peers, a, b, smaller_max as nat);
    }
}

/// The peers returned are a fair choice by quotas that the weights lead to.
pub proof fn law_filter<W: Weight>(
    peers_by_service: PeersByService,
    weights: ServiceWeights<W>,
    max_peers: usize,
    at_least_one: bool,
    peers: Vec<String>,
) -> (choice: (Map<Seq<char>, usize>, Seq<Seq<char>>, Seq<Seq<Seq<char>>>))
    requires
        peers_by_service.wf(),
        all_ordered(peers_by_service@),
        weights.wf(),
        call_ensures(
            filter_peers_with_bias::<W>,
            (peers_by_service, weights, max_peers, at_least_one),
            peers,
        ),
    ensures
        peers_by_service@.dom().len() == 0 ==> peers@.len() == 0,
        peers_by_service@.dom().len() > 0 ==> are_biased_quotas(
            peers_by_service@.dom(),
            weights@,
            max_peers,
            at_least_one,
            choice.0,
        ) && is_fair_choice(
            peers_by_service@.map_values(|set: PeerSet| set@),
            choice.0,
            max_peers as nat,
            at_least_one,
            choice.1,
            choice.2,
            peers@.map_values(|peer: String| peer@),
        ),
{
    let sets = peer_sets(peers_by_service@);
    peers_by_service.lemma_domain();
    lemma_finite_peer_sets(peers_by_service);
    assert(sets =~= peers_by_service@.map_values(|set: PeerSet| set@));
    assert(sets.dom() =~= peers_by_service@.dom());
    assert(texts(peers@) =~= peers@.map_values(|peer: String| peer@));
    assert(texts(peers@).len() == peers@.len());
    if sets.dom().len() == 0 {
        assert(sets.dom() =~= Set::<Seq<char>>::empty());
        (Map::empty(), Seq::empty(), Seq::empty())
    } else {
        assert(sets.dom() != Set::<Seq<char>>::empty());
        let quotas = choose|quotas: Map<Seq<char>, usize>| #[trigger]
            are_biased_quotas(sets.dom(), weights@, max_peers, at_least_one, quotas)
                && texts(peers@) == chosen(sets, quotas, max_peers as nat, at_least_one);
        let parts = law_fair_choice(sets, quotas, max_peers as nat, at_least_one);
        (quotas, parts.0, parts.1)
    }
}

/// `selection` is a fair choice of the peers found by quotas that the weights lead to,
/// and the services left out are exactly those with a zero quota, in the order of their
/// names, each with its weight.
pub open spec fn is_fair_selection<W: Weight>(
    peers: Map<Seq<char>, Set<Seq<char>>>,
    weights: Map<Seq<char>, W>,
    max_peers: usize,
    at_least_one: bool,
    selection: Selection<W>,
    choice: Choice<W>,
) -> bool {
    &&& are_service_weights(peers.dom(), weights, choice.all)
    &&& are_quotas(choice.all, max_peers, at_least_one, choice.quotas)
    &&& is_fair_choice(
        peers,
        choice.quotas,
        max_peers as nat,
        at_least_one,
        choice.services,
        choice.parts,
        selection.peers@.map_values(|peer: String| peer@),
    )
    &&& are_left_out(
        choice.services,
        choice.all,
        choice.quotas,
        choice.places,
        selection.unserved@,
    )
}

/// How peers were chosen.
pub struct Choice<W> {
    /// The weight of each service.
    pub all: Map<Seq<char>, W>,
    /// The quota of each service.
    pub quotas: Map<Seq<char>, usize>,
    /// The services in the order of their names.
    pub services: Seq<Seq<char>>,
    /// What each of the services gives.
    pub parts: Seq<Seq<Seq<char>>>,
    /// Where those left out stand among the services.
    pub places: Seq<int>,
}

/// A selection is a fair choice, and empty where there are no services.
pub proof fn law_full_selection<W: Weight>(
    peers: Map<Seq<char>, Set<Seq<char>>>,
    weights: Map<Seq<char>, W>,
    max_peers: usize,
    at_least_one: bool,
    selection: Selection<W>,
) -> (choice: Choice<W>)
    requires
        finite_peers(peers),
        is_full_selection(
            peers,
            weights,
            max_peers,
            at_least_one,
            texts(selection.peers@),
            views(selection.unserved@),
        ),
    ensures
        peers.dom().len() == 0 ==> selection.peers@.len() == 0 && selection.unserved@.len() == 0,
        peers.dom().len() > 0 ==> is_fair_selection(
            peers,
            weights,
            max_peers,
            at_least_one,
            selection,
            choice,
        ),
{
    lemma_services(peers);
    let found = texts(selection.peers@);
    let unserved = views(selection.unserved@);
    assert(found =~= selection.peers@.map_values(|peer: String| peer@));
    assert(found.len() == selection.peers@.len());
    assert(unserved.len() == selection.unserved@.len());
    if peers.dom().len() == 0 {
        assert(peers.dom() =~= Set::<Seq<char>>::empty());
        Choice {
            all: Map::empty(),
            quotas: Map::empty(),
            services: Seq::empty(),
            parts: Seq::empty(),
            places: Seq::empty(),
        }
    } else {
        assert(peers.dom() != Set::<Seq<char>>::empty());
        let (all, quotas) = choose|all: Map<Seq<char>, W>, quotas: Map<Seq<char>, usize>| #[trigger]
            is_chosen(peers, weights, max_peers, at_least_one, all, quotas, found, unserved);
        let parts = law_fair_choice(peers, quotas, max_peers as nat, at_least_one);
        let services = in_order(peers.dom());
        lemma_all_services(peers, parts.0);
        let places = lemma_left_out(services, all, quotas);
        assert forall|i: int| 0 <= i < places.len() implies selection.unserved@[i].service@
            == services[#[trigger] places[i]] && selection.unserved@[i].weight
            == all[services[places[i]]] && !has_quota(quotas, services[places[i]]) by {
            assert(unserved[i] == selection.unserved@[i]@);
        }
        Choice { all, quotas, services: parts.0, parts: parts.1, places }
    }
}

/// What is selected from the peers found is a fair choice.
pub proof fn law_select<W: Weight>(
    peers_by_service: PeersByService,
    weights: ServiceWeights<W>,
    max_peers: usize,
    at_least_one: bool,
    selection: Selection<W>,
) -> (choice: Choice<W>)
    requires
        peers_by_service.wf(),
        all_ordered(peers_by_service@),
        weights.wf(),
        call_ensures(
            select_peers::<W>,
            (peers_by_service, weights, max_peers, at_least_one),
            selection,
        ),
    ensures
        peers_by_service@.dom().len() == 0 ==> selection.peers@.len() == 0
            && selection.unserved@.len() == 0,
        peers_by_service@.dom().len() > 0 ==> is_fair_selection(
            peers_by_service@.map_values(|set: PeerSet| set@),
            weights@,
            max_peers,
            at_least_one,
            selection,
            choice,
        ),
{
    let sets = peer_sets(peers_by_service@);
    lemma_finite_peer_sets(peers_by_service);
    assert(sets =~= peers_by_service@.map_values(|set: PeerSet| set@));
    assert(sets.dom() =~= peers_by_service@.dom());
    law_full_selection(sets, weights@, max_peers, at_least_one, selection)
}

/// Whether a service may give a peer.
pub open spec fn has_quota(quotas: Map<Seq<char>, usize>, service: Seq<char>) -> bool {
    quotas.contains_key(service) && quotas[service] > 0
}

/// `unserved` are the services at `places`, each with its weight: exactly those that
/// may give no peer.
pub open spec fn are_left_out<W>(
    services: Seq<Seq<char>>,
    weights: Map<Seq<char>, W>,
    quotas: Map<Seq<char>, usize>,
    places: Seq<int>,
    unserved: Seq<Unserved<W>>,
) -> bool {
    &&& are_places(places, services.len())
    &&& unserved.len() == places.len()
    &&& forall|i: int|
        0 <= i < places.len() ==> unserved[i].service@ == services[#[trigger] places[i]]
            && unserved[i].weight == weights[services[places[i]]] && !has_quota(
            quotas,
            services[places[i]],
        )
    &&& forall|t: int|
        0 <= t < services.len() && !has_quota(quotas, #[trigger] services[t]) ==> places.contains(t)
}

proof fn lemma_left_out<W>(
    services: Seq<Seq<char>>,
    weights: Map<Seq<char>, W>,
    quotas: Map<Seq<char>, usize>,
) -> (places: Seq<int>)
    ensures
        are_places(places, services.len()),
        unserved_among(services, weights, quotas).len() == places.len(),
        forall|i: int|
            0 <= i < places.len() ==> unserved_among(services, weights, quotas)[i] == (
                services[#[trigger] places[i]],
                weights[services[places[i]]],
            ) && !has_quota(quotas, services[places[i]]),
        forall|t: int|
            0 <= t < services.len() && !has_quota(quotas, #[trigger] services[t])
                ==> places.contains(t),
    decreases services.len(),
{
    if services.len() == 0 {
        Seq::empty()
    } else {
        let front = services.drop_last();
        let n = services.len() - 1;
        let before = lemma_left_out(front, weights, quotas);
        let places = if has_quota(quotas, services.last()) {
            before
        } else {
            before.push(n)
        };
        assert forall|i: int| 0 <= i < places.len() implies unserved_among(
            services,
            weights,
            quotas,
        )[i] == (services[#[trigger] places[i]], weights[services[places[i]]]) && !has_quota(
            quotas,
            services[places[i]],
        ) by {
            if i < before.len() {
                assert(places[i] == before[i]);
                assert(front[before[i]] == services[before[i]]);
            }
        }
        assert forall|t: int| 0 <= t < services.len() && !has_quota(
            quotas,
            #[trigger] services[t],
        ) implies places.contains(t) by {
            if t < n {
                assert(front[t] == services[t]);
                let k = choose|k: int| 0 <= k < before.len() && before[k] == t;
                assert(places[k] == t);
            } else {
                assert(places[before.len() as int] == n);
            }
        }
        places
    }
}

/// All services in ascending order are the services in order.
proof fn lemma_all_services<T>(entries: Map<Seq<char>, T>, services: Seq<Seq<char>>)
    requires
        are_all_services(services, entries),
    ensures
        services == in_order(entries.dom()),
{
    assert(services.to_set() =~= entries.dom());
    lemma_in_order(services);
}

/// The services with a zero quota are listed, no other and none twice, in the order of
/// their names, each with its weight.
pub proof fn law_unserved_services<W: Weight>(
    weights: ServiceWeights<W>,
    quotas: ServiceMap<usize>,
    unserved: Vec<Unserved<W>>,
) -> (listed: (Seq<Seq<char>>, Seq<int>))
    requires
        weights.wf(),
        quotas.wf(),
        call_ensures(unserved_services::<W>, (&weights, &quotas), unserved),
    ensures
        are_all_services(listed.0, weights@),
        are_left_out(listed.0, weights@, quotas@, listed.1, unserved@),
{
    let services = in_order(weights@.dom());
    weights.lemma_domain();
    lemma_in_order_of(weights@.dom());
    assert forall|service: Seq<char>| #[trigger] services.contains(service)
        <==> weights@.contains_key(service) by {
        assert(services.to_set().contains(service) == weights@.dom().contains(service));
    }
    let places = lemma_left_out(services, weights@, quotas@);
    assert(views(unserved@).len() == unserved@.len());
    assert forall|i: int| 0 <= i < places.len() implies unserved@[i].service@
        == services[#[trigger] places[i]] && unserved@[i].weight
        == weights@[services[places[i]]] && !has_quota(quotas@, services[places[i]]) by {
        assert(views(unserved@)[i] == unserved@[i]@);
    }
    (services, places)
}

} // verus!
