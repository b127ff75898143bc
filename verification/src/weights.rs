//! The weights of services, and how many peers they stand for.

use vstd::prelude::*;
use crate::ordered::{in_order, lemma_in_order_of, lemma_take_one_more, PeerSet, ServiceMap};

verus! {

/// The weight of each service that has one.
pub type ServiceWeights<W> = ServiceMap<W>;

/// The peers found for each service.
pub type PeersByService = ServiceMap<PeerSet>;

/// The numbers that weights are made of. The rules below fix which operations
/// are applied to which numbers; what the operations give is the number type's
/// own affair, so a rounding arithmetic is as good as an exact one.
pub trait Weight: Copy {
    /// Whether the number is neither infinite nor undefined.
    fn is_finite(self) -> bool;

    /// The number nearest to a count.
    fn from_count(count: usize) -> Self;

    /// The sum of two numbers.
    fn plus(self, other: Self) -> Self;

    /// The product of two numbers.
    fn times(self, other: Self) -> Self;

    /// The quotient of two numbers.
    fn divided_by(self, other: Self) -> Self;

    /// The number without its fraction, as a count.
    fn whole(self) -> usize;
}

/// The number may be found to be finite.
pub open spec fn finite<W: Weight>(number: W) -> bool {
    call_ensures(W::is_finite, (number,), true)
}

/// `partial` are the sums of ever more of `values`, taken from the front.
pub open spec fn partial_sums<W: Weight>(values: Seq<W>, partial: Seq<W>) -> bool {
    &&& partial.len() == values.len() + 1
    &&& call_ensures(W::from_count, (0usize,), partial[0])
    &&& forall|i: int|
        0 <= i < values.len() ==> call_ensures(
            W::plus,
            (#[trigger] partial[i], values[i]),
            partial[i + 1],
        )
}

/// `total` is the sum of `values`, added up from the front.
pub open spec fn is_sum<W: Weight>(values: Seq<W>, total: W) -> bool {
    exists|partial: Seq<W>| #[trigger] partial_sums(values, partial) && partial.last() == total
}

/// The weights in the order of the service names.
pub open spec fn weights_in_order<W>(weights: Map<Seq<char>, W>) -> Seq<W> {
    in_order(weights.dom()).map_values(|service: Seq<char>| weights[service])
}

/// `shares` are the weights of the same services, each divided by `total`.
pub open spec fn divided<W: Weight>(
    weights: Map<Seq<char>, W>,
    total: W,
    shares: Map<Seq<char>, W>,
) -> bool {
    &&& shares.dom() == weights.dom()
    &&& forall|service: Seq<char>| #[trigger]
        shares.contains_key(service) ==> call_ensures(
            W::divided_by,
            (weights[service], total),
            shares[service],
        )
}

/// The sum of all weights, added up in the order of the service names.
fn sum_weights<W: Weight>(weights: &ServiceWeights<W>) -> (total: W)
    requires
        weights.wf(),
    ensures
        is_sum(weights_in_order(weights@), total),
{
    let mut total = W::from_count(0);
    let ghost mut partial: Seq<W> = seq![total];
    let mut i: usize = 0;
    while i < weights.len()
        invariant
            weights.wf(),
            i <= weights.values().len(),
            partial.len() == i + 1,
            partial.last() == total,
            partial_sums(weights.values().take(i as int), partial),
        decreases weights.values().len() - i,
    {
        let ghost before = partial;
        let ghost summed = weights.values().take(i as int);
        let ghost so_far = total;
        total = total.plus(*weights.value(i));
        proof {
            partial = partial.push(total);
            let more = weights.values().take(i + 1);
            assert forall|j: int| 0 <= j < more.len() implies call_ensures(
                W::plus,
                (#[trigger] partial[j], more[j]),
                partial[j + 1],
            ) by {
                if j < i {
                    assert(partial[j] == before[j]);
                    assert(more[j] == summed[j]);
                    assert(partial[j + 1] == before[j + 1]);
                } else {
                    assert(partial[j] == so_far);
                }
            }
            assert(partial[0] == before[0]);
        }
        i = i + 1;
    }
    proof {
        assert(weights.values().take(i as int) =~= weights.values());
        weights.lemma_domain();
        assert forall|at: int| 0 <= at < weights.keys().len() implies weights_in_order(weights@)[at]
            == weights.values()[at] by {
            weights.lemma_entry(at);
        }
        assert(weights_in_order(weights@) =~= weights.values());
        assert(is_sum(weights.values(), total));
    }
    total
}

/// Divides each weight by a number.
fn divide_weights<W: Weight>(weights: &ServiceWeights<W>, total: W) -> (shares: ServiceWeights<W>)
    requires
        weights.wf(),
    ensures
        shares.wf(),
        divided(weights@, total, shares@),
{
    let mut shares: ServiceWeights<W> = ServiceMap::new();
    let mut i: usize = 0;
    while i < weights.len()
        invariant
            weights.wf(),
            shares.wf(),
            i <= weights.keys().len(),
            forall|service: Seq<char>| #[trigger]
                shares@.contains_key(service) <==> weights.keys().take(i as int).contains(service),
            forall|service: Seq<char>| #[trigger]
                shares@.contains_key(service) ==> call_ensures(
                    W::divided_by,
                    (weights@[service], total),
                    shares@[service],
                ),
        decreases weights.keys().len() - i,
    {
        proof {
            weights.lemma_entry(i as int);
            lemma_take_one_more(weights.keys(), i as int);
        }
        let share = weights.value(i).divided_by(total);
        shares.insert(weights.key(i).clone(), share);
        i = i + 1;
    }
    proof {
        weights.lemma_domain();
        assert(weights.keys().take(i as int) =~= weights.keys());
        assert(shares@.dom() =~= weights@.dom());
    }
    shares
}

/// Divides each weight by the sum of all weights, which is added up in the
/// order of the service names.
pub fn normalize_weights<W: Weight>(weights: ServiceWeights<W>) -> (shares: ServiceWeights<W>)
    requires
        weights.wf(),
    ensures
        shares.wf(),
        exists|total: W|
            is_sum(weights_in_order(weights@), total) && #[trigger] divided(weights@, total, shares@),
{
    let total = sum_weights(&weights);
    divide_weights(&weights, total)
}

/// The steps to the share that each of `without` services without a weight gets,
/// of `of` services in all.
pub open spec fn even_share_steps<W: Weight>(
    without: usize,
    of: usize,
    part: W,
    whole: W,
    ratio: W,
    divisor: W,
    share: W,
) -> bool {
    &&& call_ensures(W::from_count, (without,), part)
    &&& call_ensures(W::from_count, (of,), whole)
    &&& call_ensures(W::divided_by, (part, whole), ratio)
    &&& call_ensures(W::from_count, (without,), divisor)
    &&& call_ensures(W::divided_by, (ratio, divisor), share)
}

/// `share` is what each of `without` services without a weight gets: their part
/// of all `of` services, divided evenly among them.
pub open spec fn is_even_share<W: Weight>(without: usize, of: usize, share: W) -> bool {
    exists|part: W, whole: W, ratio: W, divisor: W| #[trigger]
        even_share_steps(without, of, part, whole, ratio, divisor, share)
}

/// `all` are the weights of exactly the given services: the given weight where
/// there is one, else `share`.
pub open spec fn filled_up<W>(
    services: Set<Seq<char>>,
    given: Map<Seq<char>, W>,
    share: W,
    all: Map<Seq<char>, W>,
) -> bool {
    &&& all.dom() == services
    &&& forall|service: Seq<char>| #[trigger]
        all.contains_key(service) ==> all[service] == if given.contains_key(service) {
            given[service]
        } else {
            share
        }
}

/// The number of services that have no weight.
pub open spec fn count_without<W>(services: Set<Seq<char>>, given: Map<Seq<char>, W>) -> nat {
    services.difference(given.dom()).len()
}

/// The weights of the services that have an entry in `peers_by_service`.
fn weights_of_services<W: Weight>(
    peers_by_service: &PeersByService,
    weights: &ServiceWeights<W>,
) -> (kept: ServiceWeights<W>)
    requires
        peers_by_service.wf(),
        weights.wf(),
    ensures
        kept.wf(),
        kept@ == weights@.restrict(peers_by_service@.dom()),
        count_without(peers_by_service@.dom(), weights@) == peers_by_service@.dom().len()
            - kept@.dom().len(),
{
    let mut kept: ServiceWeights<W> = ServiceMap::new();
    let mut i: usize = 0;
    while i < weights.len()
        invariant
            peers_by_service.wf(),
            weights.wf(),
            kept.wf(),
            i <= weights.keys().len(),
            forall|service: Seq<char>| #[trigger]
                kept@.contains_key(service) <==> weights.keys().take(i as int).contains(service)
                    && peers_by_service@.contains_key(service),
            forall|service: Seq<char>| #[trigger]
                kept@.contains_key(service) ==> kept@[service] == weights@[service],
        decreases weights.keys().len() - i,
    {
        proof {
            weights.lemma_entry(i as int);
            lemma_take_one_more(weights.keys(), i as int);
        }
        let service = weights.key(i);
        if peers_by_service.get(service.as_str()).is_some() {
            kept.insert(service.clone(), *weights.value(i));
        }
        i = i + 1;
    }
    proof {
        weights.lemma_domain();
        peers_by_service.lemma_domain();
        assert(weights.keys().take(i as int) =~= weights.keys());
        let services = peers_by_service@.dom();
        let given = weights@.dom();
        assert forall|service: Seq<char>| #[trigger] kept@.contains_key(service)
            == weights@.restrict(services).contains_key(service) by {
            assert(weights.keys().to_set().contains(service) == weights.keys().contains(service));
        }
        assert(kept@ =~= weights@.restrict(services));
        assert(kept@.dom() =~= services.intersect(given));
        vstd::set_lib::lemma_set_difference_len(services, given);
    }
    kept
}

/// Drops the weights of services without an entry in `peers_by_service`, and
/// gives an even share to those with an entry and no weight.
pub fn add_default_service_weights<W: Weight>(
    peers_by_service: &PeersByService,
    weights: &mut ServiceWeights<W>,
)
    requires
        peers_by_service.wf(),
        old(weights).wf(),
    ensures
        final(weights).wf(),
        exists|share: W|
            is_even_share(
                count_without(peers_by_service@.dom(), old(weights)@) as usize,
                peers_by_service@.dom().len() as usize,
                share,
            ) && #[trigger] filled_up(
                peers_by_service@.dom(),
                old(weights)@,
                share,
                final(weights)@,
            ),
        final(weights)@.dom() == peers_by_service@.dom(),
        forall|service: Seq<char>| #[trigger]
            final(weights)@.contains_key(service) && old(weights)@.contains_key(service)
                ==> final(weights)@[service] == old(weights)@[service],
        forall|service: Seq<char>| #[trigger]
            final(weights)@.contains_key(service) && !old(weights)@.contains_key(service)
                ==> is_even_share(
                peers_by_service@.dom().difference(old(weights)@.dom()).len() as usize,
                peers_by_service@.dom().len() as usize,
                final(weights)@[service],
            ),
{
    let total_services = peers_by_service.len();

    let mut kept = weights_of_services(peers_by_service, weights);
    proof {
        kept.lemma_domain();
        peers_by_service.lemma_domain();
        vstd::set_lib::lemma_len_subset(kept@.dom(), peers_by_service@.dom());
    }
    let total_pre_weighted_services = kept.len();

    let total_non_weighted_services = total_services - total_pre_weighted_services;
    let part = W::from_count(total_non_weighted_services);
    let whole = W::from_count(total_services);
    let total_non_weighted_ratio = part.divided_by(whole);
    let divisor = W::from_count(total_non_weighted_services);
    let per_service_default_weight = total_non_weighted_ratio.divided_by(divisor);
    assert(even_share_steps(
        total_non_weighted_services,
        total_services,
        part,
        whole,
        total_non_weighted_ratio,
        divisor,
        per_service_default_weight,
    ));

    let ghost given = kept@;
    let mut i: usize = 0;
    while i < total_services
        invariant
            peers_by_service.wf(),
            kept.wf(),
            total_services == peers_by_service.keys().len(),
            i <= total_services,
            forall|service: Seq<char>| #[trigger]
                kept@.contains_key(service) <==> given.contains_key(service)
                    || peers_by_service.keys().take(i as int).contains(service),
            forall|service: Seq<char>| #[trigger]
                kept@.contains_key(service) ==> kept@[service] == if given.contains_key(service) {
                    given[service]
                } else {
                    per_service_default_weight
                },
        decreases total_services - i,
    {
        proof {
            lemma_take_one_more(peers_by_service.keys(), i as int);
        }
        let service = peers_by_service.key(i);
        if kept.get(service.as_str()).is_none() {
            kept.insert(service.clone(), per_service_default_weight);
        }
        i = i + 1;
    }
    proof {
        let keys = peers_by_service.keys();
        assert(keys.take(i as int) =~= keys);
        assert forall|service: Seq<char>| #[trigger] kept@.contains_key(service)
            == peers_by_service@.dom().contains(service) by {
            assert(keys.to_set().contains(service) == keys.contains(service));
        }
        assert(kept@.dom() =~= peers_by_service@.dom());
        assert(filled_up(
            peers_by_service@.dom(),
            old(weights)@,
            per_service_default_weight,
            kept@,
        ));
    }
    *weights = kept;
}

/// The steps to the number of peers that a service of some weight may give.
pub open spec fn quota_steps<W: Weight>(
    weight: W,
    max_peers: usize,
    at_least_one: bool,
    limit: W,
    product: W,
    share: usize,
    quota: usize,
) -> bool {
    &&& call_ensures(W::from_count, (max_peers,), limit)
    &&& call_ensures(W::times, (limit, weight), product)
    &&& call_ensures(W::whole, (product,), share)
    &&& quota == if share == 0 && at_least_one {
        1
    } else {
        share
    }
}

/// `quota` is the whole part of the weight's share of `max_peers`, but at least
/// one where that is asked for.
pub open spec fn is_quota<W: Weight>(
    weight: W,
    max_peers: usize,
    at_least_one: bool,
    quota: usize,
) -> bool {
    exists|limit: W, product: W, share: usize| #[trigger]
        quota_steps(weight, max_peers, at_least_one, limit, product, share, quota)
}

/// `quotas` are the quotas of the same services.
pub open spec fn are_quotas<W: Weight>(
    weights: Map<Seq<char>, W>,
    max_peers: usize,
    at_least_one: bool,
    quotas: Map<Seq<char>, usize>,
) -> bool {
    &&& quotas.dom() == weights.dom()
    &&& forall|service: Seq<char>| #[trigger]
        quotas.contains_key(service) ==> is_quota(
            weights[service],
            max_peers,
            at_least_one,
            quotas[service],
        )
}

/// How many peers each service may give, by its weight.
pub fn get_max_peers_per_service<W: Weight>(
    weights: ServiceWeights<W>,
    max_peers: usize,
    at_least_one: bool,
) -> (quotas: ServiceMap<usize>)
    requires
        weights.wf(),
    ensures
        quotas.wf(),
        are_quotas(weights@, max_peers, at_least_one, quotas@),
{
    quotas_by_weight(&weights, max_peers, at_least_one)
}

/// How many peers each service may give, by a weight that is still needed.
pub fn quotas_by_weight<W: Weight>(
    weights: &ServiceWeights<W>,
    max_peers: usize,
    at_least_one: bool,
) -> (quotas: ServiceMap<usize>)
    requires
        weights.wf(),
    ensures
        quotas.wf(),
        are_quotas(weights@, max_peers, at_least_one, quotas@),
{
    let mut quotas: ServiceMap<usize> = ServiceMap::new();
    let mut i: usize = 0;
    while i < weights.len()
        invariant
            weights.wf(),
            quotas.wf(),
            i <= weights.keys().len(),
            forall|service: Seq<char>| #[trigger]
                quotas@.contains_key(service) <==> weights.keys().take(i as int).contains(service),
            forall|service: Seq<char>| #[trigger]
                quotas@.contains_key(service) ==> is_quota(
                    weights@[service],
                    max_peers,
                    at_least_one,
                    quotas@[service],
                ),
        decreases weights.keys().len() - i,
    {
        proof {
            weights.lemma_entry(i as int);
            lemma_take_one_more(weights.keys(), i as int);
        }
        let weight = *weights.value(i);
        let limit = W::from_count(max_peers);
        let product = limit.times(weight);
        let share = product.whole();
        let mut n = share;
        if n == 0 && at_least_one {
            n = 1;
        }
        assert(quota_steps(weight, max_peers, at_least_one, limit, product, share, n));
        quotas.insert(weights.key(i).clone(), n);
        i = i + 1;
    }
    proof {
        weights.lemma_domain();
        assert(weights.keys().take(i as int) =~= weights.keys());
        assert(quotas@.dom() =~= weights@.dom());
    }
    quotas
}

/// A quota is a share, raised to one where that is asked for.
pub proof fn lemma_quota_share<W: Weight>(
    weight: W,
    max_peers: usize,
    at_least_one: bool,
    quota: usize,
) -> (share: usize)
    requires
        is_quota(weight, max_peers, at_least_one, quota),
    ensures
        is_quota(weight, max_peers, false, share),
        quota == if share == 0 && at_least_one {
            1
        } else {
            share
        },
{
    let (limit, product, share) = choose|limit: W, product: W, share: usize| #[trigger]
        quota_steps(weight, max_peers, at_least_one, limit, product, share, quota);
    assert(quota_steps(weight, max_peers, false, limit, product, share, share));
    share
}

/// Each operation on weights has one result for the same operands.
pub open spec fn one_result_each<W: Weight>() -> bool {
    &&& forall|n: usize, a: W, b: W| #[trigger]
        call_ensures(W::from_count, (n,), a) && #[trigger] call_ensures(W::from_count, (n,), b)
            ==> a == b
    &&& forall|x: W, y: W, a: W, b: W| #[trigger]
        call_ensures(W::plus, (x, y), a) && #[trigger] call_ensures(W::plus, (x, y), b) ==> a == b
    &&& forall|x: W, y: W, a: W, b: W| #[trigger]
        call_ensures(W::times, (x, y), a) && #[trigger] call_ensures(W::times, (x, y), b) ==> a == b
    &&& forall|x: W, y: W, a: W, b: W| #[trigger]
        call_ensures(W::divided_by, (x, y), a) && #[trigger] call_ensures(
            W::divided_by,
            (x, y),
            b,
        ) ==> a == b
    &&& forall|x: W, a: usize, b: usize| #[trigger]
        call_ensures(W::whole, (x,), a) && #[trigger] call_ensures(W::whole, (x,), b) ==> a == b
}

/// Where each operation has one result, so has a sum.
pub proof fn lemma_sum_unique<W: Weight>(values: Seq<W>, a: W, b: W)
    requires
        one_result_each::<W>(),
        is_sum(values, a),
        is_sum(values, b),
    ensures
        a == b,
{
    let p = choose|partial: Seq<W>| #[trigger] partial_sums(values, partial) && partial.last() == a;
    let q = choose|partial: Seq<W>| #[trigger] partial_sums(values, partial) && partial.last() == b;
    lemma_partial_sums_unique(values, p, q, values.len() as int);
}

/// Where each operation has one result, so have the sums on the way.
proof fn lemma_partial_sums_unique<W: Weight>(values: Seq<W>, p: Seq<W>, q: Seq<W>, i: int)
    requires
        one_result_each::<W>(),
        partial_sums(values, p),
        partial_sums(values, q),
        0 <= i <= values.len(),
    ensures
        p[i] == q[i],
    decreases i,
{
    if i > 0 {
        lemma_partial_sums_unique(values, p, q, i - 1);
        assert(call_ensures(W::plus, (p[i - 1], values[i - 1]), p[i - 1 + 1]));
        assert(call_ensures(W::plus, (q[i - 1], values[i - 1]), q[i - 1 + 1]));
    }
}

/// Where each operation has one result, so has a quota.
pub proof fn lemma_quota_unique<W: Weight>(
    weight: W,
    max_peers: usize,
    at_least_one: bool,
    a: usize,
    b: usize,
)
    requires
        one_result_each::<W>(),
        is_quota(weight, max_peers, at_least_one, a),
        is_quota(weight, max_peers, at_least_one, b),
    ensures
        a == b,
{
    let (l, p, m) = choose|limit: W, product: W, share: usize| #[trigger]
        quota_steps(weight, max_peers, at_least_one, limit, product, share, a);
    let (k, q, n) = choose|limit: W, product: W, share: usize| #[trigger]
        quota_steps(weight, max_peers, at_least_one, limit, product, share, b);
    assert(l == k);
    assert(p == q);
    assert(m == n);
}

/// Asking for at least one peer of each service turns each zero quota into one
/// and touches no other quota, where each operation on weights has one result.
pub proof fn law_at_least_one_raises_zero_quotas<W: Weight>(
    weights: Map<Seq<char>, W>,
    max_peers: usize,
    without: Map<Seq<char>, usize>,
    with: Map<Seq<char>, usize>,
    service: Seq<char>,
)
    requires
        one_result_each::<W>(),
        are_quotas(weights, max_peers, false, without),
        are_quotas(weights, max_peers, true, with),
        weights.contains_key(service),
    ensures
        without.dom() == weights.dom(),
        with.dom() == weights.dom(),
        with[service] == if without[service] == 0 {
            1
        } else {
            without[service]
        },
{
    assert(weights.dom().contains(service));
    assert(without.contains_key(service));
    assert(with.contains_key(service));
    let share = lemma_quota_share(weights[service], max_peers, true, with[service]);
    lemma_quota_unique(weights[service], max_peers, false, share, without[service]);
}

/// The operations on numbers of some kind commute with a scaling: zero stays zero,
/// a sum of scaled numbers is the scaled sum, and a quotient of scaled
/// numbers is the quotient.
pub open spec fn commutes_with<W: Weight>(
    scaled: spec_fn(W) -> W,
    fit: spec_fn(W) -> bool,
) -> bool {
    &&& forall|zero: W| #[trigger]
        call_ensures(W::from_count, (0usize,), zero) ==> scaled(zero) == zero
    &&& forall|x: W, y: W, sum: W|
        #![trigger call_ensures(W::plus, (x, y), sum), fit(sum)]
        fit(x) && fit(y) && fit(sum) && call_ensures(W::plus, (x, y), sum) ==> call_ensures(
            W::plus,
            (scaled(x), scaled(y)),
            scaled(sum),
        )
    &&& forall|x: W, y: W, quotient: W|
        #![trigger call_ensures(W::divided_by, (x, y), quotient), fit(y)]
        fit(x) && fit(y) && call_ensures(W::divided_by, (x, y), quotient) ==> call_ensures(
            W::divided_by,
            (scaled(x), scaled(y)),
            quotient,
        )
}

/// Only the proportions of the weights matter: weights that are all scaled alike
/// have the same shares, where each operation has one result and commutes with
/// the scaling on the weights and on their sums.
pub proof fn law_only_proportions_matter<W: Weight>(
    weights: Map<Seq<char>, W>,
    other: Map<Seq<char>, W>,
    scaled: spec_fn(W) -> W,
    fit: spec_fn(W) -> bool,
    total: W,
    other_total: W,
    shares: Map<Seq<char>, W>,
    other_shares: Map<Seq<char>, W>,
)
    requires
        one_result_each::<W>(),
        commutes_with(scaled, fit),
        weights.dom().finite(),
        other.dom() == weights.dom(),
        forall|service: Seq<char>| #[trigger]
            weights.contains_key(service) ==> fit(weights[service]) && other[service] == scaled(
                weights[service],
            ),
        forall|partial: Seq<W>, i: int|
            partial_sums(weights_in_order(weights), partial) && 0 <= i < partial.len() ==> fit(
                #[trigger] partial[i],
            ),
        is_sum(weights_in_order(weights), total),
        divided(weights, total, shares),
        is_sum(weights_in_order(other), other_total),
        divided(other, other_total, other_shares),
    ensures
        shares == other_shares,
{
    let services = in_order(weights.dom());
    lemma_in_order_of(weights.dom());
    let values = weights_in_order(weights);
    let others = weights_in_order(other);
    assert forall|i: int| 0 <= i < values.len() implies fit(#[trigger] values[i]) && others[i]
        == scaled(values[i]) by {
        assert(services.to_set().contains(services[i]));
        assert(weights.contains_key(services[i]));
    }
    let partial = choose|partial: Seq<W>| #[trigger]
        partial_sums(values, partial) && partial.last() == total;
    let scaled_sums = partial.map_values(|x: W| scaled(x));
    assert forall|i: int| 0 <= i < others.len() implies call_ensures(
        W::plus,
        (#[trigger] scaled_sums[i], others[i]),
        scaled_sums[i + 1],
    ) by {
        assert(call_ensures(W::plus, (partial[i], values[i]), partial[i + 1]));
        assert(fit(partial[i]) && fit(partial[i + 1]) && fit(values[i]));
    }
    assert(partial_sums(others, scaled_sums));
    assert(fit(partial[partial.len() - 1]));
    assert(scaled_sums.last() == scaled(total));
    assert(is_sum(others, scaled(total)));
    lemma_sum_unique(others, other_total, scaled(total));
    assert forall|service: Seq<char>| shares.contains_key(service) implies shares[service]
        == other_shares[service] by {
        assert(weights.dom().contains(service));
        assert(weights.contains_key(service));
        assert(other_shares.contains_key(service));
        assert(call_ensures(W::divided_by, (weights[service], total), shares[service]));
        assert(call_ensures(
            W::divided_by,
            (scaled(weights[service]), scaled(total)),
            shares[service],
        ));
    }
    assert(shares =~= other_shares);
}

} // verus!
