//! What weights come to where the arithmetic is exact.
//!
//! Weights are generic over their number type. Where the numbers at hand stand for real
//! numbers, and the operations on them give exactly the real sums, products and
//! quotients, the weights and quotas are what people expect of them.

use vstd::prelude::*;
use crate::ordered::{
    in_order, lemma_ascending_distinct, lemma_in_order_of, PeerSet, ServiceMap,
};
use crate::quotas::{all_ordered, allowed, are_all_services, are_first_of, sum_of};
use crate::selection::{
    are_biased_quotas, are_service_weights, filter_peers_with_bias, law_filter, weigh_services,
    weighed,
};
use crate::weights::{
    are_quotas, count_without, divided, even_share_steps, get_max_peers_per_service, is_even_share,
    is_quota, is_sum, normalize_weights, partial_sums, quota_steps, quotas_by_weight,
    weights_in_order, PeersByService, ServiceWeights, Weight,
};

verus! {

/// A count is exact.
pub open spec fn exact_count<W: Weight>(value: spec_fn(W) -> real, count: usize) -> bool {
    forall|x: W| #[trigger] call_ensures(W::from_count, (count,), x) ==> value(x) == count as real
}

/// A sum is exact.
pub open spec fn exact_sum<W: Weight>(value: spec_fn(W) -> real, x: W, y: W) -> bool {
    forall|z: W| #[trigger] call_ensures(W::plus, (x, y), z) ==> value(z) == value(x) + value(y)
}

/// A product is exact.
pub open spec fn exact_product<W: Weight>(value: spec_fn(W) -> real, x: W, y: W) -> bool {
    forall|z: W| #[trigger] call_ensures(W::times, (x, y), z) ==> value(z) == value(x) * value(y)
}

/// A quotient is exact.
pub open spec fn exact_quotient<W: Weight>(value: spec_fn(W) -> real, x: W, y: W) -> bool {
    forall|z: W| #[trigger]
        call_ensures(W::divided_by, (x, y), z) ==> value(z) * value(y) == value(x)
}

/// The whole part of a number is exact, and that of a negative number is zero.
pub open spec fn exact_whole<W: Weight>(value: spec_fn(W) -> real, x: W) -> bool {
    forall|n: usize| #[trigger]
        call_ensures(W::whole, (x,), n) ==> if value(x) < 0real {
            n == 0
        } else {
            n as real <= value(x) && value(x) < n as real + 1real
        }
}

/// A weight's part of `max_peers` is exact.
pub open spec fn exact_share<W: Weight>(
    value: spec_fn(W) -> real,
    weight: W,
    max_peers: usize,
) -> bool {
    &&& exact_count(value, max_peers)
    &&& forall|limit: W| #[trigger]
        call_ensures(W::from_count, (max_peers,), limit) ==> exact_product(value, limit, weight)
    &&& forall|limit: W, product: W|
        call_ensures(W::from_count, (max_peers,), limit) && #[trigger] call_ensures(
            W::times,
            (limit, weight),
            product,
        ) ==> exact_whole(value, product)
}

/// A quota is the whole part of the weight's part of `max_peers`, however large, and at
/// least one where that is asked for.
pub proof fn law_exact_quota<W: Weight>(
    value: spec_fn(W) -> real,
    weight: W,
    max_peers: usize,
    at_least_one: bool,
    quota: usize,
)
    requires
        is_quota(weight, max_peers, at_least_one, quota),
        exact_share(value, weight, max_peers),
    ensures
        ({
            let part = max_peers as real * value(weight);
            if part < 1real {
                quota == if at_least_one {
                    1usize
                } else {
                    0usize
                }
            } else {
                quota as real <= part && part < quota as real + 1real
            }
        }),
{
    let (limit, product, share) = choose|limit: W, product: W, share: usize| #[trigger]
        quota_steps(weight, max_peers, at_least_one, limit, product, share, quota);
    assert(value(limit) == max_peers as real);
    assert(value(product) == max_peers as real * value(weight));
    assert(exact_whole(value, product));
}

/// Each service gets the whole part of its weight's part of `max_peers` as its quota.
pub proof fn law_quotas_are_whole_parts<W: Weight>(
    weights: ServiceWeights<W>,
    max_peers: usize,
    at_least_one: bool,
    quotas: ServiceMap<usize>,
    value: spec_fn(W) -> real,
    service: Seq<char>,
)
    requires
        weights.wf(),
        call_ensures(get_max_peers_per_service::<W>, (weights, max_peers, at_least_one), quotas),
        weights@.contains_key(service),
        exact_share(value, weights@[service], max_peers),
    ensures
        quotas@.dom() == weights@.dom(),
        ({
            let part = max_peers as real * value(weights@[service]);
            if part < 1real {
                quotas@[service] == if at_least_one {
                    1usize
                } else {
                    0usize
                }
            } else {
                quotas@[service] as real <= part && part < quotas@[service] as real + 1real
            }
        }),
{
    assert(quotas@.contains_key(service));
    law_exact_quota(value, weights@[service], max_peers, at_least_one, quotas@[service]);
}

/// The same where the weights are still needed.
pub proof fn law_quotas_by_weight_are_whole_parts<W: Weight>(
    weights: ServiceWeights<W>,
    max_peers: usize,
    at_least_one: bool,
    quotas: ServiceMap<usize>,
    value: spec_fn(W) -> real,
    service: Seq<char>,
)
    requires
        weights.wf(),
        call_ensures(quotas_by_weight::<W>, (&weights, max_peers, at_least_one), quotas),
        weights@.contains_key(service),
        exact_share(value, weights@[service], max_peers),
    ensures
        quotas@.dom() == weights@.dom(),
        ({
            let part = max_peers as real * value(weights@[service]);
            if part < 1real {
                quotas@[service] == if at_least_one {
                    1usize
                } else {
                    0usize
                }
            } else {
                quotas@[service] as real <= part && part < quotas@[service] as real + 1real
            }
        }),
{
    assert(quotas@.contains_key(service));
    law_exact_quota(value, weights@[service], max_peers, at_least_one, quotas@[service]);
}

/// The quota of a weight `p / q` is the quotient of `max_peers * p` by `q`.
pub proof fn law_quota_of_a_fraction<W: Weight>(
    value: spec_fn(W) -> real,
    weight: W,
    max_peers: usize,
    quota: usize,
    p: nat,
    q: nat,
)
    requires
        is_quota(weight, max_peers, false, quota),
        exact_share(value, weight, max_peers),
        q > 0,
        value(weight) * (q as real) == p as real,
    ensures
        quota == max_peers * p / (q as int),
{
    law_exact_quota(value, weight, max_peers, false, quota);
    let v = value(weight);
    lemma_whole_quotient(max_peers as int, v, quota as int, p as int, q as int);
}

/// The whole part of `m * v`, where `v` is `p / q`.
proof fn lemma_whole_quotient(m: int, v: real, n: int, p: int, q: int)
    requires
        q > 0,
        m >= 0,
        p >= 0,
        n >= 0,
        v * (q as real) == p as real,
        ({
            let part = m as real * v;
            if part < 1real {
                n == 0
            } else {
                n as real <= part && part < n as real + 1real
            }
        }),
    ensures
        n == m * p / q,
{
    let part = m as real * v;
    assert(part * (q as real) == (m * p) as real) by (nonlinear_arith)
        requires
            v * (q as real) == p as real,
            part == m as real * v,
    ;
    assert(part >= 0real) by (nonlinear_arith)
        requires
            part * (q as real) == (m * p) as real,
            q > 0,
            m >= 0,
            p >= 0,
    ;
    assert(n as real <= part && part < n as real + 1real);
    assert(n * q <= m * p) by (nonlinear_arith)
        requires
            n as real <= part,
            part * (q as real) == (m * p) as real,
            q > 0,
    ;
    assert(m * p < (n + 1) * q) by (nonlinear_arith)
        requires
            part < n as real + 1real,
            part * (q as real) == (m * p) as real,
            q > 0,
    ;
    assert(n == (m * p) / q) by (nonlinear_arith)
        requires
            n * q <= m * p,
            m * p < (n + 1) * q,
            q > 0,
    ;
}

/// The sum of some real numbers.
pub open spec fn real_sum(numbers: Seq<real>) -> real {
    numbers.fold_left(0real, |sum: real, number: real| sum + number)
}

/// The sum of all weights.
pub open spec fn whole_of<W>(value: spec_fn(W) -> real, weights: Map<Seq<char>, W>) -> real {
    real_sum(in_order(weights.dom()).map_values(|service: Seq<char>| value(weights[service])))
}

/// The sums on the way to the sum of all weights are exact.
pub open spec fn exact_total<W: Weight>(
    value: spec_fn(W) -> real,
    weights: Map<Seq<char>, W>,
) -> bool {
    &&& exact_count(value, 0)
    &&& forall|partial: Seq<W>, i: int|
        partial_sums(weights_in_order(weights), partial) && 0 <= i < partial.len() - 1
            ==> exact_sum(value, #[trigger] partial[i], weights_in_order(weights)[i])
}

proof fn lemma_exact_partial<W: Weight>(
    value: spec_fn(W) -> real,
    values: Seq<W>,
    partial: Seq<W>,
    i: int,
)
    requires
        partial_sums(values, partial),
        exact_count(value, 0),
        forall|j: int| 0 <= j < values.len() ==> exact_sum(value, #[trigger] partial[j], values[j]),
        0 <= i <= values.len(),
    ensures
        value(partial[i]) == real_sum(values.take(i).map_values(value)),
    decreases i,
{
    reveal(Seq::fold_left);
    let numbers = values.take(i).map_values(value);
    if i > 0 {
        lemma_exact_partial(value, values, partial, i - 1);
        assert(numbers.drop_last() =~= values.take(i - 1).map_values(value));
        assert(exact_sum(value, partial[i - 1], values[i - 1]));
        assert(call_ensures(W::plus, (partial[i - 1], values[i - 1]), partial[i - 1 + 1]));
    }
}

/// The sum of the weights is the sum of what they stand for, all of them.
proof fn lemma_exact_sum<W: Weight>(
    value: spec_fn(W) -> real,
    weights: Map<Seq<char>, W>,
    total: W,
)
    requires
        weights.dom().finite(),
        is_sum(weights_in_order(weights), total),
        exact_total(value, weights),
    ensures
        value(total) == whole_of(value, weights),
{
    let values = weights_in_order(weights);
    let partial = choose|partial: Seq<W>| #[trigger]
        partial_sums(values, partial) && partial.last() == total;
    lemma_exact_partial(value, values, partial, values.len() as int);
    assert(values.take(values.len() as int) =~= values);
    assert(values.map_values(value) =~= in_order(weights.dom()).map_values(
        |service: Seq<char>| value(weights[service]),
    ));
}

/// Each weight becomes its part of the sum of all weights.
pub proof fn law_normalized_weights_are_parts<W: Weight>(
    weights: ServiceWeights<W>,
    shares: ServiceWeights<W>,
    value: spec_fn(W) -> real,
    service: Seq<char>,
)
    requires
        weights.wf(),
        call_ensures(normalize_weights::<W>, (weights,), shares),
        weights@.contains_key(service),
        exact_total(value, weights@),
        forall|total: W| #[trigger]
            value(total) == whole_of(value, weights@) ==> exact_quotient(
                value,
                weights@[service],
                total,
            ),
    ensures
        shares@.dom() == weights@.dom(),
        value(shares@[service]) * whole_of(value, weights@) == value(weights@[service]),
{
    let total = choose|total: W|
        is_sum(weights_in_order(weights@), total) && #[trigger] divided(
            weights@,
            total,
            shares@,
        );
    weights.lemma_domain();
    lemma_exact_sum(value, weights@, total);
    assert(weights@.dom().contains(service));
    assert(shares@.contains_key(service));
    assert(exact_quotient(value, weights@[service], total));
}

/// Normalized weights make a whole.
pub proof fn law_normalized_weights_make_a_whole<W: Weight>(
    weights: ServiceWeights<W>,
    shares: ServiceWeights<W>,
    value: spec_fn(W) -> real,
)
    requires
        weights.wf(),
        call_ensures(normalize_weights::<W>, (weights,), shares),
        exact_total(value, weights@),
        whole_of(value, weights@) != 0real,
        forall|service: Seq<char>, total: W|
            weights@.contains_key(service) && value(total) == whole_of(value, weights@)
                ==> #[trigger] exact_quotient(value, weights@[service], total),
    ensures
        whole_of(value, shares@) == 1real,
{
    let services = in_order(weights@.dom());
    let whole = whole_of(value, weights@);
    let a = services.map_values(|service: Seq<char>| value(shares@[service]));
    let b = services.map_values(|service: Seq<char>| value(weights@[service]));
    weights.lemma_domain();
    lemma_in_order_of(weights@.dom());
    assert forall|i: int| 0 <= i < services.len() implies #[trigger] a[i] * whole == b[i] by {
        assert(services.to_set().contains(services[i]));
        assert(weights@.contains_key(services[i]));
        law_normalized_weights_are_parts(weights, shares, value, services[i]);
    }
    lemma_scaled_sum(a, b, whole);
    if services.len() > 0 {
        assert(services.to_set().contains(services[0]));
        law_normalized_weights_are_parts(weights, shares, value, services[0]);
    } else {
        reveal(Seq::fold_left);
    }
    assert(real_sum(a) == 1real) by (nonlinear_arith)
        requires
            real_sum(a) * whole == whole,
            whole != 0real,
    ;
    assert(shares@.dom() == weights@.dom());
}

proof fn lemma_scaled_sum(a: Seq<real>, b: Seq<real>, scale: real)
    requires
        a.len() == b.len(),
        forall|i: int| 0 <= i < a.len() ==> #[trigger] a[i] * scale == b[i],
    ensures
        real_sum(a) * scale == real_sum(b),
    decreases a.len(),
{
    reveal(Seq::fold_left);
    if a.len() > 0 {
        let n = a.len() - 1;
        let c = a.drop_last();
        let d = b.drop_last();
        assert forall|i: int| 0 <= i < c.len() implies #[trigger] c[i] * scale == d[i] by {
            assert(c[i] == a[i]);
        }
        lemma_scaled_sum(c, d, scale);
        let x = real_sum(c);
        let y = a[n];
        assert(a[n] * scale == b[n]);
        assert(real_sum(a) == x + y);
        assert(real_sum(b) == real_sum(d) + b[n]);
        assert((x + y) * scale == x * scale + y * scale) by (nonlinear_arith);
    } else {
        assert(0real * scale == 0real) by (nonlinear_arith);
    }
}

/// The even share of `of` services, `without` of them without a weight, is exact.
pub open spec fn exact_even_share<W: Weight>(
    value: spec_fn(W) -> real,
    without: usize,
    of: usize,
) -> bool {
    &&& exact_count(value, without)
    &&& exact_count(value, of)
    &&& forall|part: W, whole: W|
        #![trigger call_ensures(W::from_count, (without,), part), call_ensures(W::from_count, (of,), whole)]
        call_ensures(W::from_count, (without,), part) && call_ensures(W::from_count, (of,), whole)
            ==> exact_quotient(value, part, whole)
    &&& forall|part: W, whole: W, ratio: W, divisor: W|
        call_ensures(W::from_count, (without,), part) && call_ensures(W::from_count, (of,), whole)
            && #[trigger] call_ensures(W::divided_by, (part, whole), ratio)
            && #[trigger] call_ensures(W::from_count, (without,), divisor) ==> exact_quotient(
            value,
            ratio,
            divisor,
        )
}

/// The even share is one part in as many as there are services, however many of them
/// have no weight.
pub proof fn law_exact_even_share<W: Weight>(
    value: spec_fn(W) -> real,
    without: usize,
    of: usize,
    share: W,
)
    requires
        is_even_share(without, of, share),
        exact_even_share(value, without, of),
        without > 0,
        of > 0,
    ensures
        value(share) * (of as real) == 1real,
{
    let (part, whole, ratio, divisor) = choose|part: W, whole: W, ratio: W, divisor: W| #[trigger]
        even_share_steps(without, of, part, whole, ratio, divisor, share);
    let k = without as real;
    let n = of as real;
    assert(value(part) == k);
    assert(value(whole) == n);
    assert(value(divisor) == k);
    assert(exact_quotient(value, part, whole));
    assert(value(ratio) * n == k);
    assert(exact_quotient(value, ratio, divisor));
    assert(value(share) * k == value(ratio));
    let x = value(share);
    let y = value(ratio);
    assert(x * n == 1real) by (nonlinear_arith)
        requires
            x * k == y,
            y * n == k,
            k > 0real,
    ;
}

/// Exactly the services found are weighed: one without a given weight by one part in as
/// many as there are services, one with a given weight by its part of the sum of all
/// given weights.
pub proof fn law_weighed_services<W: Weight>(
    peers_by_service: PeersByService,
    weights: ServiceWeights<W>,
    all: ServiceWeights<W>,
    value: spec_fn(W) -> real,
    service: Seq<char>,
)
    requires
        peers_by_service.wf(),
        weights.wf(),
        call_ensures(weigh_services::<W>, (&peers_by_service, weights), all),
        peers_by_service@.contains_key(service),
        peers_by_service@.dom().len() <= usize::MAX,
    ensures
        all@.dom() == peers_by_service@.dom(),
        !weights@.contains_key(service) && exact_even_share(
            value,
            peers_by_service@.dom().difference(weights@.dom()).len() as usize,
            peers_by_service@.dom().len() as usize,
        ) ==> value(all@[service]) * (peers_by_service@.dom().len() as real) == 1real,
        weights@.contains_key(service) && exact_total(value, weights@) && (forall|total: W|
         #[trigger]
            value(total) == whole_of(value, weights@) ==> exact_quotient(
                value,
                weights@[service],
                total,
            )) ==> value(all@[service]) * whole_of(value, weights@) == value(weights@[service]),
{
    peers_by_service.lemma_domain();
    weights.lemma_domain();
    lemma_exact_weights(peers_by_service@.dom(), weights@, all@, value, service);
}

proof fn lemma_exact_weights<W: Weight>(
    services: Set<Seq<char>>,
    weights: Map<Seq<char>, W>,
    all: Map<Seq<char>, W>,
    value: spec_fn(W) -> real,
    service: Seq<char>,
)
    requires
        services.finite(),
        services.len() <= usize::MAX,
        weights.dom().finite(),
        are_service_weights(services, weights, all),
        services.contains(service),
    ensures
        all.dom() == services,
        !weights.contains_key(service) && exact_even_share(
            value,
            services.difference(weights.dom()).len() as usize,
            services.len() as usize,
        ) ==> value(all[service]) * (services.len() as real) == 1real,
        weights.contains_key(service) && exact_total(value, weights) && (forall|total: W|
         #[trigger]
            value(total) == whole_of(value, weights) ==> exact_quotient(
                value,
                weights[service],
                total,
            )) ==> value(all[service]) * whole_of(value, weights) == value(weights[service]),
{
    let (total, parts, share) = choose|total: W, parts: Map<Seq<char>, W>, share: W|
        is_sum(weights_in_order(weights), total) && #[trigger] weighed(
            services,
            weights,
            total,
            parts,
            share,
            all,
        );
    assert(all.contains_key(service));
    assert(parts.dom() == weights.dom());
    let without = services.difference(weights.dom());
    if !weights.contains_key(service) {
        assert(!parts.dom().contains(service));
        assert(without.contains(service));
        vstd::set_lib::lemma_len_subset(without, services);
        vstd::set_lib::lemma_len_subset(set![service], without);
        vstd::set_lib::lemma_len_subset(set![service], services);
        assert(set![service].len() == 1);
        assert(count_without(services, parts) == without.len());
        if exact_even_share(value, without.len() as usize, services.len() as usize) {
            law_exact_even_share(
                value,
                without.len() as usize,
                services.len() as usize,
                share,
            );
        }
    } else {
        assert(parts.dom().contains(service));
        assert(parts.contains_key(service));
        if exact_total(value, weights) && (forall|total: W| #[trigger]
            value(total) == whole_of(value, weights) ==> exact_quotient(
                value,
                weights[service],
                total,
            )) {
            lemma_exact_sum(value, weights, total);
            assert(exact_quotient(value, weights[service], total));
        }
    }
}

/// Without a weight for any service found, each gets the same quota: the quotient of
/// `max_peers` by the number of services.
pub proof fn law_even_quotas<W: Weight>(
    services: Set<Seq<char>>,
    weights: Map<Seq<char>, W>,
    max_peers: usize,
    quotas: Map<Seq<char>, usize>,
    value: spec_fn(W) -> real,
    service: Seq<char>,
)
    requires
        services.finite(),
        services.len() <= usize::MAX,
        weights.dom().finite(),
        services.disjoint(weights.dom()),
        are_biased_quotas(services, weights, max_peers, false, quotas),
        services.contains(service),
        exact_even_share(value, services.len() as usize, services.len() as usize),
        forall|x: W| #[trigger]
            value(x) * (services.len() as real) == 1real ==> exact_share(value, x, max_peers),
    ensures
        quotas.dom() == services,
        quotas[service] == max_peers as int / services.len() as int,
{
    let all = choose|all: Map<Seq<char>, W>| #[trigger]
        are_service_weights(services, weights, all) && are_quotas(all, max_peers, false, quotas);
    assert(!weights.dom().contains(service));
    assert(services.difference(weights.dom()) =~= services);
    lemma_exact_weights(services, weights, all, value, service);
    assert(all.contains_key(service));
    assert(quotas.contains_key(service));
    assert(exact_share(value, all[service], max_peers));
    vstd::set_lib::lemma_len_subset(set![service], services);
    assert(set![service].len() == 1);
    law_quota_of_a_fraction(
        value,
        all[service],
        max_peers,
        quotas[service],
        1,
        services.len(),
    );
    assert(max_peers * 1 == max_peers);
}

/// The quota of a service with a given weight is the whole part of `max_peers` times
/// its weight, by the sum of all given weights.
pub proof fn law_weighted_quotas<W: Weight>(
    services: Set<Seq<char>>,
    weights: Map<Seq<char>, W>,
    max_peers: usize,
    quotas: Map<Seq<char>, usize>,
    value: spec_fn(W) -> real,
    service: Seq<char>,
    p: nat,
    q: nat,
)
    requires
        services.finite(),
        services.len() <= usize::MAX,
        weights.dom().finite(),
        are_biased_quotas(services, weights, max_peers, false, quotas),
        services.contains(service),
        weights.contains_key(service),
        q > 0,
        whole_of(value, weights) != 0real,
        value(weights[service]) * (q as real) == whole_of(value, weights) * (p as real),
        exact_total(value, weights),
        forall|total: W| #[trigger]
            value(total) == whole_of(value, weights) ==> exact_quotient(
                value,
                weights[service],
                total,
            ),
        forall|x: W| #[trigger]
            value(x) * (q as real) == p as real ==> exact_share(value, x, max_peers),
    ensures
        quotas[service] == max_peers * p / (q as int),
{
    let all = choose|all: Map<Seq<char>, W>| #[trigger]
        are_service_weights(services, weights, all) && are_quotas(all, max_peers, false, quotas);
    lemma_exact_weights(services, weights, all, value, service);
    assert(all.contains_key(service));
    assert(quotas.contains_key(service));
    let x = value(all[service]);
    let w = value(weights[service]);
    let whole = whole_of(value, weights);
    assert(x * (q as real) == p as real) by (nonlinear_arith)
        requires
            x * whole == w,
            w * (q as real) == whole * (p as real),
            whole != 0real,
    ;
    assert(exact_share(value, all[service], max_peers));
    law_quota_of_a_fraction(value, all[service], max_peers, quotas[service], p, q);
}

/// Without a weight for any service found, the weights of all services make a whole.
pub proof fn law_even_weights_make_a_whole<W: Weight>(
    services: Set<Seq<char>>,
    weights: Map<Seq<char>, W>,
    all: Map<Seq<char>, W>,
    value: spec_fn(W) -> real,
)
    requires
        services.finite(),
        0 < services.len() <= usize::MAX,
        weights.dom().finite(),
        services.disjoint(weights.dom()),
        are_service_weights(services, weights, all),
        exact_even_share(value, services.len() as usize, services.len() as usize),
    ensures
        whole_of(value, all) == 1real,
{
    let names = in_order(services);
    let n = services.len() as real;
    let a = names.map_values(|service: Seq<char>| value(all[service]));
    let b = names.map_values(|service: Seq<char>| 1real);
    lemma_in_order_of(services);
    assert(services.difference(weights.dom()) =~= services);
    assert forall|i: int| 0 <= i < names.len() implies #[trigger] a[i] * n == b[i] by {
        assert(names.to_set().contains(names[i]));
        assert(!weights.dom().contains(names[i]));
        lemma_exact_weights(services, weights, all, value, names[i]);
    }
    lemma_scaled_sum(a, b, n);
    lemma_sum_of_ones(b);
    assert(names.to_set().contains(names[0]));
    lemma_exact_weights(services, weights, all, value, names[0]);
    assert(real_sum(a) == 1real) by (nonlinear_arith)
        requires
            real_sum(a) * n == n,
            n > 0real,
    ;
}

proof fn lemma_sum_of_ones(ones: Seq<real>)
    requires
        forall|i: int| 0 <= i < ones.len() ==> #[trigger] ones[i] == 1real,
    ensures
        real_sum(ones) == ones.len() as real,
    decreases ones.len(),
{
    reveal(Seq::fold_left);
    if ones.len() > 0 {
        let front = ones.drop_last();
        assert forall|i: int| 0 <= i < front.len() implies #[trigger] front[i] == 1real by {
            assert(front[i] == ones[i]);
        }
        lemma_sum_of_ones(front);
        assert(ones.last() == ones[ones.len() - 1]);
    }
}

proof fn lemma_sum_of_same(numbers: Seq<int>, number: int)
    requires
        forall|i: int| 0 <= i < numbers.len() ==> #[trigger] numbers[i] == number,
    ensures
        sum_of(numbers) == numbers.len() * number,
    decreases numbers.len(),
{
    reveal(Seq::fold_left);
    if numbers.len() > 0 {
        let front = numbers.drop_last();
        assert forall|i: int| 0 <= i < front.len() implies #[trigger] front[i] == number by {
            assert(front[i] == numbers[i]);
        }
        lemma_sum_of_same(front, number);
        assert(numbers.last() == numbers[numbers.len() - 1]);
        let n = numbers.len() as int;
        assert((n - 1) * number + number == n * number) by (nonlinear_arith);
    } else {
        assert(0 * number == 0);
    }
}

/// Without a weight for any service found, and with enough peers of each, every service
/// gives the same number of peers: the quotient of `max_peers` by the number of services.
pub proof fn law_even_split<W: Weight>(
    peers_by_service: PeersByService,
    weights: ServiceWeights<W>,
    max_peers: usize,
    peers: Vec<String>,
    value: spec_fn(W) -> real,
) -> (parts: (Seq<Seq<char>>, Seq<Seq<Seq<char>>>))
    requires
        peers_by_service.wf(),
        all_ordered(peers_by_service@),
        weights.wf(),
        call_ensures(
            filter_peers_with_bias::<W>,
            (peers_by_service, weights, max_peers, false),
            peers,
        ),
        0 < peers_by_service@.dom().len() <= usize::MAX,
        peers_by_service@.dom().disjoint(weights@.dom()),
        exact_even_share(
            value,
            peers_by_service@.dom().len() as usize,
            peers_by_service@.dom().len() as usize,
        ),
        forall|x: W| #[trigger]
            value(x) * (peers_by_service@.dom().len() as real) == 1real ==> exact_share(
                value,
                x,
                max_peers,
            ),
        forall|service: Seq<char>| #[trigger]
            peers_by_service@.contains_key(service) ==> peers_by_service@[service]@.len()
                >= max_peers as int / peers_by_service@.dom().len() as int,
    ensures
        are_all_services(parts.0, peers_by_service@),
        parts.1.len() == parts.0.len(),
        peers@.map_values(|peer: String| peer@) == parts.1.flatten(),
        forall|i: int|
            0 <= i < parts.1.len() ==> are_first_of(
                #[trigger] parts.1[i],
                peers_by_service@[parts.0[i]]@,
                max_peers as int / peers_by_service@.dom().len() as int,
            ),
        peers@.len() == peers_by_service@.dom().len() * (max_peers as int
            / peers_by_service@.dom().len() as int),
{
    let sets = peers_by_service@.map_values(|set: PeerSet| set@);
    let n = peers_by_service@.dom().len() as int;
    let each = max_peers as int / n;
    let (quotas, services, parts) = law_filter(
        peers_by_service,
        weights,
        max_peers,
        false,
        peers,
    );
    peers_by_service.lemma_domain();
    weights.lemma_domain();
    assert(sets.dom() =~= peers_by_service@.dom());
    let numbers = services.map_values(|service: Seq<char>| allowed(quotas, sets, service));
    assert forall|i: int| 0 <= i < numbers.len() implies #[trigger] numbers[i] == each by {
        assert(services.contains(services[i]));
        assert(sets.contains_key(services[i]));
        assert(peers_by_service@.contains_key(services[i]));
        law_even_quotas(
            peers_by_service@.dom(),
            weights@,
            max_peers,
            quotas,
            value,
            services[i],
        );
    }
    lemma_sum_of_same(numbers, each);
    lemma_ascending_distinct(services);
    services.unique_seq_to_set();
    assert(services.to_set() =~= peers_by_service@.dom());
    assert(n * each <= max_peers) by (nonlinear_arith)
        requires
            each == max_peers as int / n,
            n > 0,
    ;
    assert forall|i: int| 0 <= i < parts.len() implies are_first_of(
        #[trigger] parts[i],
        peers_by_service@[services[i]]@,
        each,
    ) by {
        assert(services.contains(services[i]));
        assert(sets.contains_key(services[i]));
        assert(parts[i].len() == allowed(quotas, sets, services[i]));
        assert(numbers[i] == each);
    }
    assert(peers@.map_values(|peer: String| peer@).len() == peers@.len());
    (services, parts)
}

} // verus!
