//! What services give by their quotas.
//!
//! Each service gives as many of its peers as its quota allows. Where that would be
//! more peers than are to be returned, those that give the most give fewer.

use vstd::prelude::*;
use crate::ordered::{in_order, lemma_ascending_distinct, lemma_in_order_of, PeerSet, ServiceMap};
use crate::text::{precedes, texts};
use crate::weights::PeersByService;

verus! {

/// The quota of a service, none where it has no entry.
pub open spec fn quota_of(quotas: Map<Seq<char>, usize>, service: Seq<char>) -> nat {
    if quotas.contains_key(service) {
        quotas[service] as nat
    } else {
        0
    }
}

/// The first `count` items, or all of them where there are fewer.
pub open spec fn first<T>(items: Seq<T>, count: nat) -> Seq<T> {
    if count < items.len() {
        items.take(count as int)
    } else {
        items
    }
}

/// The peers found for each service, as sets.
pub open spec fn peer_sets(peers: Map<Seq<char>, PeerSet>) -> Map<Seq<char>, Set<Seq<char>>> {
    peers.map_values(|set: PeerSet| set@)
}

/// The peers that a service gives: the first of them in their order, as many as
/// its quota allows.
pub open spec fn given_peers(
    service: Seq<char>,
    peers: Map<Seq<char>, Set<Seq<char>>>,
    quotas: Map<Seq<char>, usize>,
) -> Seq<Seq<char>> {
    first(in_order(peers[service]), quota_of(quotas, service))
}

/// The peers that some services give, service by service.
pub open spec fn selected_from(
    services: Seq<Seq<char>>,
    peers: Map<Seq<char>, Set<Seq<char>>>,
    quotas: Map<Seq<char>, usize>,
) -> Seq<Seq<char>>
    decreases services.len(),
{
    if services.len() == 0 {
        Seq::empty()
    } else {
        selected_from(services.drop_last(), peers, quotas) + given_peers(
            services.last(),
            peers,
            quotas,
        )
    }
}

/// The peers that all services give, in the order of their names.
pub open spec fn selected(
    peers: Map<Seq<char>, Set<Seq<char>>>,
    quotas: Map<Seq<char>, usize>,
) -> Seq<Seq<char>> {
    selected_from(in_order(peers.dom()), peers, quotas)
}

/// Takes from each service, in the order of their names, as many of its peers
/// as its quota allows, in their order.
pub fn take_peers(peers_by_service: &PeersByService, quotas: &ServiceMap<usize>) -> (peers: Vec<String>)
    requires
        peers_by_service.wf(),
        all_ordered(peers_by_service@),
        quotas.wf(),
    ensures
        texts(peers@) == selected(peer_sets(peers_by_service@), quotas@),
{
    let mut peers: Vec<String> = Vec::new();
    let mut i: usize = 0;
    let ghost sets = peer_sets(peers_by_service@);
    assert(texts(peers@) =~= Seq::<Seq<char>>::empty());
    while i < peers_by_service.len()
        invariant
            peers_by_service.wf(),
            all_ordered(peers_by_service@),
            quotas.wf(),
            sets == peer_sets(peers_by_service@),
            i <= peers_by_service.keys().len(),
            texts(peers@) == selected_from(peers_by_service.keys().take(i as int), sets, quotas@),
        decreases peers_by_service.keys().len() - i,
    {
        let ghost before = texts(peers@);
        let service = peers_by_service.key(i);
        let found = peers_by_service.value(i);
        proof {
            peers_by_service.lemma_entry(i as int);
            found.lemma_items();
        }
        let take_n: usize = match quotas.get(service.as_str()) {
            Some(n) => *n,
            None => 0,
        };
        let count = if take_n < found.len() { take_n } else { found.len() };
        let mut j: usize = 0;
        assert(before =~= before + found.items().take(0));
        while j < count
            invariant
                j <= count <= found.items().len(),
                texts(peers@) == before + found.items().take(j as int),
            decreases count - j,
        {
            let ghost so_far = peers@;
            let peer = found.item(j).clone();
            let ghost text = peer@;
            peers.push(peer);
            assert(texts(peers@) =~= texts(so_far).push(text));
            assert(found.items().take(j + 1) =~= found.items().take(j as int).push(text));
            assert(texts(peers@) =~= before + found.items().take(j + 1));
            j = j + 1;
        }
        proof {
            let services = peers_by_service.keys().take(i + 1);
            assert(services.drop_last() =~= peers_by_service.keys().take(i as int));
            assert(services.last() == service@);
            assert(found.items().take(count as int) =~= given_peers(service@, sets, quotas@));
        }
        i = i + 1;
    }
    proof {
        assert(peers_by_service.keys().take(i as int) =~= peers_by_service.keys());
        peers_by_service.lemma_domain();
        assert(sets.dom() =~= peers_by_service@.dom());
    }
    peers
}

/// The peers of every service are in order.
pub open spec fn all_ordered(peers: Map<Seq<char>, PeerSet>) -> bool {
    forall|service: Seq<char>| #[trigger] peers.contains_key(service) ==> peers[service].wf()
}

/// The smaller of two numbers.
pub open spec fn smaller(a: nat, b: nat) -> nat {
    if a < b {
        a
    } else {
        b
    }
}

/// How many peers a service can give: as many as its quota allows, and no more
/// than it has.
pub open spec fn able(
    service: Seq<char>,
    peers: Map<Seq<char>, Set<Seq<char>>>,
    quotas: Map<Seq<char>, usize>,
) -> nat {
    smaller(quota_of(quotas, service), peers[service].len())
}

/// How many peers some services can give together where none gives more than
/// `level`.
pub open spec fn able_up_to(
    services: Seq<Seq<char>>,
    peers: Map<Seq<char>, Set<Seq<char>>>,
    quotas: Map<Seq<char>, usize>,
    level: nat,
) -> nat
    decreases services.len(),
{
    if services.len() == 0 {
        0
    } else {
        able_up_to(services.drop_last(), peers, quotas, level) + smaller(
            able(services.last(), peers, quotas),
            level,
        )
    }
}

/// The largest number up to `from` with which no more than `most` peers are given
/// where no service gives more than that number.
pub open spec fn even_level(
    services: Seq<Seq<char>>,
    peers: Map<Seq<char>, Set<Seq<char>>>,
    quotas: Map<Seq<char>, usize>,
    most: nat,
    from: nat,
) -> nat
    decreases from,
{
    if from == 0 || able_up_to(services, peers, quotas, from) <= most {
        from
    } else {
        even_level(services, peers, quotas, most, (from - 1) as nat)
    }
}

/// One where a service can give more than `level` and some are still wanted.
pub open spec fn one_more(
    service: Seq<char>,
    peers: Map<Seq<char>, Set<Seq<char>>>,
    quotas: Map<Seq<char>, usize>,
    level: nat,
    wanted: nat,
) -> nat {
    if able(service, peers, quotas) > level && wanted > 0 {
        1
    } else {
        0
    }
}

/// How many peers beyond the level are still wanted after some services.
pub open spec fn wanted_after(
    services: Seq<Seq<char>>,
    peers: Map<Seq<char>, Set<Seq<char>>>,
    quotas: Map<Seq<char>, usize>,
    level: nat,
    wanted: nat,
) -> nat
    decreases services.len(),
{
    if services.len() == 0 {
        wanted
    } else {
        let left = wanted_after(services.drop_last(), peers, quotas, level, wanted);
        (left - one_more(services.last(), peers, quotas, level, left)) as nat
    }
}

/// The quotas of some services, where each gives up to `level` peers, and the first
/// that can give one more as far as these are wanted.
pub open spec fn evened_from(
    services: Seq<Seq<char>>,
    peers: Map<Seq<char>, Set<Seq<char>>>,
    quotas: Map<Seq<char>, usize>,
    level: nat,
    wanted: nat,
) -> Map<Seq<char>, usize>
    decreases services.len(),
{
    if services.len() == 0 {
        Map::empty()
    } else {
        let front = services.drop_last();
        let last = services.last();
        let left = wanted_after(front, peers, quotas, level, wanted);
        evened_from(front, peers, quotas, level, wanted).insert(
            last,
            (smaller(able(last, peers, quotas), level) + one_more(
                last,
                peers,
                quotas,
                level,
                left,
            )) as usize,
        )
    }
}

/// The quotas with which `most` peers are given: those that can give the most give
/// fewer, all of them the same number, but for one more from the first of them.
pub open spec fn evened(
    peers: Map<Seq<char>, Set<Seq<char>>>,
    quotas: Map<Seq<char>, usize>,
    most: nat,
) -> Map<Seq<char>, usize> {
    let services = in_order(peers.dom());
    let level = even_level(services, peers, quotas, most, most);
    evened_from(
        services,
        peers,
        quotas,
        level,
        (most - able_up_to(services, peers, quotas, level)) as nat,
    )
}

/// The quotas as they are, where they give no more than `most` peers, else evened
/// out.
pub open spec fn limited(
    peers: Map<Seq<char>, Set<Seq<char>>>,
    quotas: Map<Seq<char>, usize>,
    most: nat,
) -> Map<Seq<char>, usize> {
    if selected(peers, quotas).len() <= most {
        quotas
    } else {
        evened(peers, quotas, most)
    }
}

/// How many peers are left to `most` where no service gives more than `level`, if
/// these are no more than `most`.
fn left_at_level(
    peers_by_service: &PeersByService,
    quotas: &ServiceMap<usize>,
    level: usize,
    most: usize,
) -> (left: Option<usize>)
    requires
        peers_by_service.wf(),
        all_ordered(peers_by_service@),
        quotas.wf(),
    ensures
        ({
            let sets = peer_sets(peers_by_service@);
            let given = able_up_to(in_order(sets.dom()), sets, quotas@, level as nat);
            match left {
                Some(left) => given + left == most,
                None => given > most,
            }
        }),
{
    let ghost sets = peer_sets(peers_by_service@);
    let ghost services = peers_by_service.keys();
    proof {
        peers_by_service.lemma_domain();
        assert(sets.dom() =~= peers_by_service@.dom());
    }
    let mut left: usize = most;
    let mut i: usize = 0;
    while i < peers_by_service.len()
        invariant
            peers_by_service.wf(),
            all_ordered(peers_by_service@),
            quotas.wf(),
            sets == peer_sets(peers_by_service@),
            services == peers_by_service.keys(),
            services == in_order(sets.dom()),
            i <= services.len(),
            able_up_to(services.take(i as int), sets, quotas@, level as nat) + left == most,
        decreases services.len() - i,
    {
        let service = peers_by_service.key(i);
        let found = peers_by_service.value(i);
        proof {
            peers_by_service.lemma_entry(i as int);
            assert(services.take(i + 1).drop_last() =~= services.take(i as int));
            assert(services.take(i + 1).last() == service@);
            lemma_up_to_grows(services, sets, quotas@, level as nat, i + 1);
        }
        let quota: usize = match quotas.get(service.as_str()) {
            Some(n) => *n,
            None => 0,
        };
        let held = found.len();
        let can = if quota < held { quota } else { held };
        let given = if can < level { can } else { level };
        if given > left {
            return None;
        }
        left = left - given;
        i = i + 1;
    }
    assert(services.take(i as int) =~= services);
    Some(left)
}

/// Lets each service give up to `level` peers, and the first that can one more as
/// far as these are wanted.
fn even_out(
    peers_by_service: &PeersByService,
    quotas: &ServiceMap<usize>,
    level: usize,
    wanted: usize,
) -> (evened: ServiceMap<usize>)
    requires
        peers_by_service.wf(),
        all_ordered(peers_by_service@),
        quotas.wf(),
    ensures
        evened.wf(),
        ({
            let sets = peer_sets(peers_by_service@);
            evened@ == evened_from(
                in_order(sets.dom()),
                sets,
                quotas@,
                level as nat,
                wanted as nat,
            )
        }),
{
    let ghost sets = peer_sets(peers_by_service@);
    let ghost services = peers_by_service.keys();
    let mut evened: ServiceMap<usize> = ServiceMap::new();
    let mut left: usize = wanted;
    let mut i: usize = 0;
    while i < peers_by_service.len()
        invariant
            peers_by_service.wf(),
            all_ordered(peers_by_service@),
            quotas.wf(),
            evened.wf(),
            sets == peer_sets(peers_by_service@),
            services == peers_by_service.keys(),
            i <= services.len(),
            left == wanted_after(
                services.take(i as int),
                sets,
                quotas@,
                level as nat,
                wanted as nat,
            ),
            evened@ == evened_from(
                services.take(i as int),
                sets,
                quotas@,
                level as nat,
                wanted as nat,
            ),
        decreases services.len() - i,
    {
        let service = peers_by_service.key(i);
        let found = peers_by_service.value(i);
        proof {
            peers_by_service.lemma_entry(i as int);
            assert(services.take(i + 1).drop_last() =~= services.take(i as int));
            assert(services.take(i + 1).last() == service@);
        }
        let quota: usize = match quotas.get(service.as_str()) {
            Some(n) => *n,
            None => 0,
        };
        let held = found.len();
        let can = if quota < held { quota } else { held };
        let given = if can <= level {
            can
        } else if left > 0 {
            left = left - 1;
            level + 1
        } else {
            level
        };
        evened.insert(service.clone(), given);
        i = i + 1;
    }
    proof {
        assert(services.take(i as int) =~= services);
        peers_by_service.lemma_domain();
        assert(sets.dom() =~= peers_by_service@.dom());
    }
    evened
}

/// Limits the quotas so that no more than `most` peers are given.
pub fn limit_quotas(
    peers_by_service: &PeersByService,
    quotas: ServiceMap<usize>,
    most: usize,
) -> (kept: ServiceMap<usize>)
    requires
        peers_by_service.wf(),
        all_ordered(peers_by_service@),
        quotas.wf(),
    ensures
        kept.wf(),
        kept@ == limited(peer_sets(peers_by_service@), quotas@, most as nat),
{
    let ghost sets = peer_sets(peers_by_service@);
    let ghost services = in_order(sets.dom());
    proof {
        lemma_finite_peer_sets(*peers_by_service);
        lemma_services(sets);
        lemma_selected_len(services, sets, quotas@);
    }
    if left_at_level(peers_by_service, &quotas, usize::MAX, most).is_some() {
        return quotas;
    }
    let mut level: usize = 0;
    let mut wanted: usize = most;
    assert(able_up_to(services, sets, quotas@, 0) == 0) by {
        lemma_up_to_zero(services, sets, quotas@);
    }
    while level < usize::MAX
        invariant
            peers_by_service.wf(),
            all_ordered(peers_by_service@),
            quotas.wf(),
            sets == peer_sets(peers_by_service@),
            services == in_order(sets.dom()),
            able_up_to(services, sets, quotas@, level as nat) + wanted == most,
            able_up_to(services, sets, quotas@, usize::MAX as nat) > most,
        ensures
            level < usize::MAX,
            able_up_to(services, sets, quotas@, level as nat) + wanted == most,
            able_up_to(services, sets, quotas@, level as nat + 1) > most,
        decreases usize::MAX - level,
    {
        match left_at_level(peers_by_service, &quotas, level + 1, most) {
            Some(left) => {
                level = level + 1;
                wanted = left;
            },
            None => {
                break;
            },
        }
    }
    proof {
        lemma_even_level(services, sets, quotas@, most as nat, most as nat);
        lemma_one_level(
            services,
            sets,
            quotas@,
            most as nat,
            level as nat,
            even_level(services, sets, quotas@, most as nat, most as nat),
        );
    }
    even_out(peers_by_service, &quotas, level, wanted)
}

/// How many of some services have peers.
pub open spec fn count_with_peers(
    services: Seq<Seq<char>>,
    peers: Map<Seq<char>, Set<Seq<char>>>,
) -> nat
    decreases services.len(),
{
    if services.len() == 0 {
        0
    } else {
        count_with_peers(services.drop_last(), peers) + if peers[services.last()].len() > 0 {
            1nat
        } else {
            0nat
        }
    }
}

/// How many services have peers.
pub open spec fn services_with_peers(peers: Map<Seq<char>, Set<Seq<char>>>) -> nat {
    count_with_peers(in_order(peers.dom()), peers)
}

/// The most peers that are returned: `max_peers`, or one of each service that has
/// peers, where that is asked for and there are more of these.
pub open spec fn most_peers(
    peers: Map<Seq<char>, Set<Seq<char>>>,
    max_peers: nat,
    at_least_one: bool,
) -> nat {
    if at_least_one && max_peers < services_with_peers(peers) {
        services_with_peers(peers)
    } else {
        max_peers
    }
}

/// The most peers that are returned.
fn peers_to_return(
    peers_by_service: &PeersByService,
    max_peers: usize,
    at_least_one: bool,
) -> (most: usize)
    requires
        peers_by_service.wf(),
        all_ordered(peers_by_service@),
    ensures
        most == most_peers(peer_sets(peers_by_service@), max_peers as nat, at_least_one),
{
    let ghost sets = peer_sets(peers_by_service@);
    let ghost services = peers_by_service.keys();
    let mut count: usize = 0;
    let mut i: usize = 0;
    while i < peers_by_service.len()
        invariant
            peers_by_service.wf(),
            all_ordered(peers_by_service@),
            sets == peer_sets(peers_by_service@),
            services == peers_by_service.keys(),
            count <= i <= services.len(),
            count == count_with_peers(services.take(i as int), sets),
        decreases services.len() - i,
    {
        let found = peers_by_service.value(i);
        proof {
            peers_by_service.lemma_entry(i as int);
            assert(services.take(i + 1).drop_last() =~= services.take(i as int));
            assert(services.take(i + 1).last() == services[i as int]);
        }
        if found.len() > 0 {
            count = count + 1;
        }
        i = i + 1;
    }
    proof {
        assert(services.take(i as int) =~= services);
        peers_by_service.lemma_domain();
        assert(sets.dom() =~= peers_by_service@.dom());
    }
    if at_least_one && max_peers < count {
        count
    } else {
        max_peers
    }
}

/// The peers that are returned by these quotas: what the services give, but no more
/// than `max_peers`, or than one of each service where that is asked for.
pub open spec fn chosen(
    peers: Map<Seq<char>, Set<Seq<char>>>,
    quotas: Map<Seq<char>, usize>,
    max_peers: nat,
    at_least_one: bool,
) -> Seq<Seq<char>> {
    selected(peers, limited(peers, quotas, most_peers(peers, max_peers, at_least_one)))
}

/// Takes the peers of each service, as its quota and `max_peers` allow.
pub fn choose_peers(
    peers_by_service: &PeersByService,
    quotas: ServiceMap<usize>,
    max_peers: usize,
    at_least_one: bool,
) -> (peers: Vec<String>)
    requires
        peers_by_service.wf(),
        all_ordered(peers_by_service@),
        quotas.wf(),
    ensures
        texts(peers@) == chosen(
            peer_sets(peers_by_service@),
            quotas@,
            max_peers as nat,
            at_least_one,
        ),
        selected(peer_sets(peers_by_service@), quotas@).len() <= max_peers ==> texts(peers@)
            == selected(peer_sets(peers_by_service@), quotas@),
        peers@.len() <= most_peers(
            peer_sets(peers_by_service@),
            max_peers as nat,
            at_least_one,
        ),
{
    let most = peers_to_return(peers_by_service, max_peers, at_least_one);
    let ghost given = quotas@;
    let kept = limit_quotas(peers_by_service, quotas, most);
    let peers = take_peers(peers_by_service, &kept);
    proof {
        lemma_finite_peer_sets(*peers_by_service);
        law_as_many_as_allowed(
            peer_sets(peers_by_service@),
            given,
            max_peers as nat,
            at_least_one,
        );
        assert(texts(peers@).len() == peers@.len());
    }
    peers
}

/// Peers of finite sets, of finitely many services.
pub open spec fn finite_peers(peers: Map<Seq<char>, Set<Seq<char>>>) -> bool {
    &&& peers.dom().finite()
    &&& forall|service: Seq<char>| #[trigger]
        peers.contains_key(service) ==> peers[service].finite()
}

/// The names of the services in order are those of all services, each once.
pub proof fn lemma_services(peers: Map<Seq<char>, Set<Seq<char>>>)
    requires
        finite_peers(peers),
    ensures
        in_order(peers.dom()).no_duplicates(),
        forall|service: Seq<char>| #[trigger]
            in_order(peers.dom()).contains(service) <==> peers.contains_key(service),
        forall|service: Seq<char>| #[trigger]
            in_order(peers.dom()).contains(service) ==> peers[service].finite(),
{
    let services = in_order(peers.dom());
    lemma_in_order_of(peers.dom());
    lemma_ascending_distinct(services);
    assert forall|service: Seq<char>| #[trigger] services.contains(service) <==> peers.contains_key(
        service,
    ) by {
        assert(services.to_set().contains(service) == peers.dom().contains(service));
    }
}

/// The sets of peers found are finite.
pub proof fn lemma_finite_peer_sets(peers_by_service: PeersByService)
    requires
        peers_by_service.wf(),
        all_ordered(peers_by_service@),
    ensures
        finite_peers(peer_sets(peers_by_service@)),
{
    let sets = peer_sets(peers_by_service@);
    peers_by_service.lemma_domain();
    assert(sets.dom() =~= peers_by_service@.dom());
    assert forall|service: Seq<char>| #[trigger] sets.contains_key(
        service,
    ) implies sets[service].finite() by {
        assert(peers_by_service@.contains_key(service));
        peers_by_service@[service].lemma_items();
    }
}

/// No more services give no fewer peers.
proof fn lemma_up_to_grows(
    services: Seq<Seq<char>>,
    peers: Map<Seq<char>, Set<Seq<char>>>,
    quotas: Map<Seq<char>, usize>,
    level: nat,
    i: int,
)
    requires
        0 <= i <= services.len(),
    ensures
        able_up_to(services.take(i), peers, quotas, level) <= able_up_to(
            services,
            peers,
            quotas,
            level,
        ),
    decreases services.len() - i,
{
    if i < services.len() {
        lemma_up_to_grows(services, peers, quotas, level, i + 1);
        assert(services.take(i + 1).drop_last() =~= services.take(i));
    } else {
        assert(services.take(i) =~= services);
    }
}

/// Where no service may give a peer, none is given.
proof fn lemma_up_to_zero(
    services: Seq<Seq<char>>,
    peers: Map<Seq<char>, Set<Seq<char>>>,
    quotas: Map<Seq<char>, usize>,
)
    ensures
        able_up_to(services, peers, quotas, 0) == 0,
    decreases services.len(),
{
    if services.len() > 0 {
        lemma_up_to_zero(services.drop_last(), peers, quotas);
    }
}

/// A higher level gives no fewer peers. One below what some service can give lets
/// at least that service give as many, and the next level gives more.
proof fn lemma_next_level(
    services: Seq<Seq<char>>,
    peers: Map<Seq<char>, Set<Seq<char>>>,
    quotas: Map<Seq<char>, usize>,
    level: nat,
)
    ensures
        able_up_to(services, peers, quotas, level) <= able_up_to(
            services,
            peers,
            quotas,
            level + 1,
        ),
        able_up_to(services, peers, quotas, level) <= able_up_to(
            services,
            peers,
            quotas,
            usize::MAX as nat,
        ),
        able_up_to(services, peers, quotas, level) < able_up_to(
            services,
            peers,
            quotas,
            usize::MAX as nat,
        ) ==> {
            &&& level <= able_up_to(services, peers, quotas, level)
            &&& able_up_to(services, peers, quotas, level) < able_up_to(
                services,
                peers,
                quotas,
                level + 1,
            )
        },
    decreases services.len(),
{
    if services.len() > 0 {
        lemma_next_level(services.drop_last(), peers, quotas, level);
        assert(quota_of(quotas, services.last()) <= usize::MAX);
    }
}

/// Higher levels give no fewer peers.
proof fn lemma_higher_level(
    services: Seq<Seq<char>>,
    peers: Map<Seq<char>, Set<Seq<char>>>,
    quotas: Map<Seq<char>, usize>,
    a: nat,
    b: nat,
)
    requires
        a <= b,
    ensures
        able_up_to(services, peers, quotas, a) <= able_up_to(services, peers, quotas, b),
    decreases b,
{
    if a < b {
        lemma_higher_level(services, peers, quotas, a, (b - 1) as nat);
        lemma_next_level(services, peers, quotas, (b - 1) as nat);
    }
}

/// Where the quotas give too many peers, the level found is the last that does not.
proof fn lemma_even_level(
    services: Seq<Seq<char>>,
    peers: Map<Seq<char>, Set<Seq<char>>>,
    quotas: Map<Seq<char>, usize>,
    most: nat,
    from: nat,
)
    requires
        able_up_to(services, peers, quotas, usize::MAX as nat) > most,
        from >= most || able_up_to(services, peers, quotas, from + 1) > most,
    ensures
        ({
            let level = even_level(services, peers, quotas, most, from);
            &&& able_up_to(services, peers, quotas, level) <= most
            &&& able_up_to(services, peers, quotas, level + 1) > most
        }),
    decreases from,
{
    lemma_next_level(services, peers, quotas, from);
    if from == 0 {
        lemma_up_to_zero(services, peers, quotas);
    } else if able_up_to(services, peers, quotas, from) > most {
        lemma_even_level(services, peers, quotas, most, (from - 1) as nat);
    }
}

/// There is one such level.
proof fn lemma_one_level(
    services: Seq<Seq<char>>,
    peers: Map<Seq<char>, Set<Seq<char>>>,
    quotas: Map<Seq<char>, usize>,
    most: nat,
    a: nat,
    b: nat,
)
    requires
        able_up_to(services, peers, quotas, a) <= most,
        able_up_to(services, peers, quotas, a + 1) > most,
        able_up_to(services, peers, quotas, b) <= most,
        able_up_to(services, peers, quotas, b + 1) > most,
    ensures
        a == b,
{
    if a < b {
        lemma_higher_level(services, peers, quotas, a + 1, b);
    } else if b < a {
        lemma_higher_level(services, peers, quotas, b + 1, a);
    }
}

/// How many peers some services give.
proof fn lemma_selected_len(
    services: Seq<Seq<char>>,
    peers: Map<Seq<char>, Set<Seq<char>>>,
    quotas: Map<Seq<char>, usize>,
)
    requires
        forall|service: Seq<char>| #[trigger] services.contains(service) ==> peers[service].finite(),
    ensures
        selected_from(services, peers, quotas).len() == able_up_to(
            services,
            peers,
            quotas,
            usize::MAX as nat,
        ),
    decreases services.len(),
{
    if services.len() > 0 {
        let front = services.drop_last();
        assert forall|service: Seq<char>| #[trigger] front.contains(
            service,
        ) implies peers[service].finite() by {
            let i = choose|i: int| 0 <= i < front.len() && front[i] == service;
            assert(services[i] == service);
            assert(services.contains(service));
        }
        lemma_selected_len(front, peers, quotas);
        assert(services[services.len() - 1] == services.last());
        assert(services.contains(services.last()));
        lemma_in_order_of(peers[services.last()]);
        assert(quota_of(quotas, services.last()) <= usize::MAX);
    }
}

/// The evened quota of the service at a place.
proof fn lemma_evened_at(
    services: Seq<Seq<char>>,
    peers: Map<Seq<char>, Set<Seq<char>>>,
    quotas: Map<Seq<char>, usize>,
    level: nat,
    wanted: nat,
    i: int,
)
    requires
        services.no_duplicates(),
        0 <= i < services.len(),
    ensures
        quota_of(evened_from(services, peers, quotas, level, wanted), services[i]) == smaller(
            able(services[i], peers, quotas),
            level,
        ) + one_more(
            services[i],
            peers,
            quotas,
            level,
            wanted_after(services.take(i), peers, quotas, level, wanted),
        ),
        quota_of(evened_from(services, peers, quotas, level, wanted), services[i]) <= able(
            services[i],
            peers,
            quotas,
        ),
    decreases services.len(),
{
    let front = services.drop_last();
    if i == services.len() - 1 {
        assert(front =~= services.take(i));
        assert(quota_of(quotas, services[i]) <= usize::MAX);
    } else {
        assert(front.no_duplicates());
        lemma_evened_at(front, peers, quotas, level, wanted, i);
        assert(front.take(i) =~= services.take(i));
        assert(services[i] != services.last());
    }
}

/// How many peers are given by evened quotas.
proof fn lemma_evened_len(
    services: Seq<Seq<char>>,
    peers: Map<Seq<char>, Set<Seq<char>>>,
    quotas: Map<Seq<char>, usize>,
    level: nat,
    wanted: nat,
)
    requires
        services.no_duplicates(),
        forall|service: Seq<char>| #[trigger] services.contains(service) ==> peers[service].finite(),
    ensures
        selected_from(
            services,
            peers,
            evened_from(services, peers, quotas, level, wanted),
        ).len() + wanted_after(services, peers, quotas, level, wanted) == able_up_to(
            services,
            peers,
            quotas,
            level,
        ) + wanted,
        ({
            let more = able_up_to(services, peers, quotas, level + 1) - able_up_to(
                services,
                peers,
                quotas,
                level,
            );
            wanted_after(services, peers, quotas, level, wanted) == if wanted > more {
                wanted - more
            } else {
                0
            }
        }),
    decreases services.len(),
{
    if services.len() > 0 {
        let front = services.drop_last();
        let n = services.len() - 1;
        assert forall|service: Seq<char>| #[trigger] front.contains(
            service,
        ) implies peers[service].finite() by {
            let i = choose|i: int| 0 <= i < front.len() && front[i] == service;
            assert(services[i] == service);
            assert(services.contains(service));
        }
        assert(front.no_duplicates());
        lemma_evened_len(front, peers, quotas, level, wanted);
        lemma_next_level(front, peers, quotas, level);
        let less = evened_from(front, peers, quotas, level, wanted);
        let more = evened_from(services, peers, quotas, level, wanted);
        assert forall|i: int| 0 <= i < front.len() implies given_peers(
            #[trigger] front[i],
            peers,
            less,
        ) == given_peers(front[i], peers, more) by {
            assert(front[i] == services[i]);
            assert(services[i] != services[n]);
        }
        lemma_same_given(front, peers, less, more);
        lemma_evened_at(services, peers, quotas, level, wanted, n);
        assert(services.take(n) =~= front);
        assert(services.contains(services[n]));
        lemma_in_order_of(peers[services[n]]);
    }
}

/// Services that give the same one by one give the same together.
proof fn lemma_same_given(
    services: Seq<Seq<char>>,
    peers: Map<Seq<char>, Set<Seq<char>>>,
    a: Map<Seq<char>, usize>,
    b: Map<Seq<char>, usize>,
)
    requires
        forall|i: int|
            0 <= i < services.len() ==> given_peers(#[trigger] services[i], peers, a)
                == given_peers(services[i], peers, b),
    ensures
        selected_from(services, peers, a) == selected_from(services, peers, b),
    decreases services.len(),
{
    if services.len() > 0 {
        let front = services.drop_last();
        assert forall|i: int| 0 <= i < front.len() implies given_peers(#[trigger] front[i], peers, a)
            == given_peers(front[i], peers, b) by {
            assert(front[i] == services[i]);
        }
        assert(services[services.len() - 1] == services.last());
        lemma_same_given(front, peers, a, b);
    }
}

/// As many peers are returned as the services give, but no more than the most that
/// are to be returned.
pub proof fn law_as_many_as_allowed(
    peers: Map<Seq<char>, Set<Seq<char>>>,
    quotas: Map<Seq<char>, usize>,
    max_peers: nat,
    at_least_one: bool,
)
    requires
        finite_peers(peers),
    ensures
        chosen(peers, quotas, max_peers, at_least_one).len() == smaller(
            selected(peers, quotas).len(),
            most_peers(peers, max_peers, at_least_one),
        ),
{
    let most = most_peers(peers, max_peers, at_least_one);
    if selected(peers, quotas).len() > most {
        let services = in_order(peers.dom());
        lemma_services(peers);
        lemma_selected_len(services, peers, quotas);
        lemma_even_level(services, peers, quotas, most, most);
        let level = even_level(services, peers, quotas, most, most);
        lemma_evened_len(
            services,
            peers,
            quotas,
            level,
            (most - able_up_to(services, peers, quotas, level)) as nat,
        );
    }
}

/// Where there are no more services than `max_peers`, no more than `max_peers`
/// peers are returned, whether at least one peer of each is asked for or not.
pub proof fn law_at_most_max_peers(
    peers: Map<Seq<char>, Set<Seq<char>>>,
    quotas: Map<Seq<char>, usize>,
    max_peers: nat,
    at_least_one: bool,
)
    requires
        finite_peers(peers),
        !at_least_one || peers.dom().len() <= max_peers,
    ensures
        chosen(peers, quotas, max_peers, at_least_one).len() <= max_peers,
{
    let services = in_order(peers.dom());
    law_as_many_as_allowed(peers, quotas, max_peers, at_least_one);
    lemma_in_order_of(peers.dom());
    lemma_services(peers);
    services.unique_seq_to_set();
    lemma_count_with_peers(services, peers);
}

/// No more services have peers than there are.
proof fn lemma_count_with_peers(
    services: Seq<Seq<char>>,
    peers: Map<Seq<char>, Set<Seq<char>>>,
)
    ensures
        count_with_peers(services, peers) <= services.len(),
    decreases services.len(),
{
    if services.len() > 0 {
        lemma_count_with_peers(services.drop_last(), peers);
    }
}

/// What is known of the limited quota of a service: it is no more than the service
/// can give, and where it is less, no service has a quota larger by more than one.
proof fn lemma_limited(
    peers: Map<Seq<char>, Set<Seq<char>>>,
    quotas: Map<Seq<char>, usize>,
    most: nat,
    a: Seq<char>,
    b: Seq<char>,
)
    requires
        finite_peers(peers),
        peers.contains_key(a),
        peers.contains_key(b),
    ensures
        able(a, peers, limited(peers, quotas, most)) <= able(a, peers, quotas),
        quota_of(limited(peers, quotas, most), a) <= quota_of(quotas, a),
        able(a, peers, limited(peers, quotas, most)) < able(a, peers, quotas) ==> able(
            b,
            peers,
            limited(peers, quotas, most),
        ) <= able(a, peers, limited(peers, quotas, most)) + 1,
{
    if selected(peers, quotas).len() > most {
        let services = in_order(peers.dom());
        lemma_services(peers);
        let level = even_level(services, peers, quotas, most, most);
        let wanted = (most - able_up_to(services, peers, quotas, level)) as nat;
        assert(services.contains(a));
        assert(services.contains(b));
        let i = choose|i: int| 0 <= i < services.len() && services[i] == a;
        let j = choose|j: int| 0 <= j < services.len() && services[j] == b;
        lemma_evened_at(services, peers, quotas, level, wanted, i);
        lemma_evened_at(services, peers, quotas, level, wanted, j);
    }
}

/// Peers are only left out: what is returned is what the quotas give, with some
/// peers left out.
pub proof fn law_limit_only_leaves_out(
    peers: Map<Seq<char>, Set<Seq<char>>>,
    quotas: Map<Seq<char>, usize>,
    max_peers: nat,
    at_least_one: bool,
)
    requires
        finite_peers(peers),
    ensures
        is_subsequence(
            chosen(peers, quotas, max_peers, at_least_one),
            selected(peers, quotas),
        ),
{
    let services = in_order(peers.dom());
    lemma_services(peers);
    let most = most_peers(peers, max_peers, at_least_one);
    let kept = limited(peers, quotas, most);
    assert forall|i: int| 0 <= i < services.len() implies quota_of(kept, #[trigger] services[i])
        <= quota_of(quotas, services[i]) by {
        assert(services.contains(services[i]));
        lemma_limited(peers, quotas, most, services[i], services[i]);
    }
    lemma_larger_quotas(services, peers, kept, quotas);
}

/// Where more peers beyond the level are wanted, no fewer are still wanted after some
/// services.
proof fn lemma_more_wanted(
    services: Seq<Seq<char>>,
    peers: Map<Seq<char>, Set<Seq<char>>>,
    quotas: Map<Seq<char>, usize>,
    level: nat,
    a: nat,
    b: nat,
)
    requires
        a <= b,
    ensures
        wanted_after(services, peers, quotas, level, a) <= wanted_after(
            services,
            peers,
            quotas,
            level,
            b,
        ),
    decreases services.len(),
{
    if services.len() > 0 {
        lemma_more_wanted(services.drop_last(), peers, quotas, level, a, b);
    }
}

/// By the same quotas a larger limit loses no peer.
pub proof fn law_larger_limit_of_quotas(
    peers: Map<Seq<char>, Set<Seq<char>>>,
    quotas: Map<Seq<char>, usize>,
    a: nat,
    b: nat,
)
    requires
        finite_peers(peers),
        a <= b,
    ensures
        is_subsequence(
            selected(peers, limited(peers, quotas, a)),
            selected(peers, limited(peers, quotas, b)),
        ),
{
    let services = in_order(peers.dom());
    lemma_services(peers);
    lemma_selected_len(services, peers, quotas);
    let less = limited(peers, quotas, a);
    let more = limited(peers, quotas, b);
    assert forall|i: int| 0 <= i < services.len() implies quota_of(less, #[trigger] services[i])
        <= quota_of(more, services[i]) by {
        assert(services.contains(services[i]));
        lemma_limited(peers, quotas, a, services[i], services[i]);
        if selected(peers, quotas).len() > b {
            lemma_even_level(services, peers, quotas, a, a);
            lemma_even_level(services, peers, quotas, b, b);
            let low = even_level(services, peers, quotas, a, a);
            let high = even_level(services, peers, quotas, b, b);
            let p = (a - able_up_to(services, peers, quotas, low)) as nat;
            let q = (b - able_up_to(services, peers, quotas, high)) as nat;
            lemma_evened_at(services, peers, quotas, low, p, i);
            lemma_evened_at(services, peers, quotas, high, q, i);
            if high < low {
                lemma_higher_level(services, peers, quotas, high + 1, low);
            } else if high == low {
                lemma_more_wanted(services.take(i), peers, quotas, low, p, q);
            }
        }
    }
    lemma_larger_quotas(services, peers, less, more);
}

/// Peers are left out evenly: a service that gives fewer than its quota allows gives
/// at most one fewer than any other service.
pub proof fn law_peers_are_left_out_evenly(
    peers: Map<Seq<char>, Set<Seq<char>>>,
    quotas: Map<Seq<char>, usize>,
    most: nat,
    a: Seq<char>,
    b: Seq<char>,
)
    requires
        finite_peers(peers),
        peers.contains_key(a),
        peers.contains_key(b),
        given_peers(a, peers, limited(peers, quotas, most)).len() < given_peers(
            a,
            peers,
            quotas,
        ).len(),
    ensures
        given_peers(b, peers, limited(peers, quotas, most)).len() <= given_peers(
            a,
            peers,
            limited(peers, quotas, most),
        ).len() + 1,
{
    lemma_in_order_of(peers[a]);
    lemma_in_order_of(peers[b]);
    lemma_limited(peers, quotas, most, a, b);
}

/// The sum of the quotas of some services.
pub open spec fn quota_total(
    services: Seq<Seq<char>>,
    quotas: Map<Seq<char>, usize>,
) -> nat
    decreases services.len(),
{
    if services.len() == 0 {
        0
    } else {
        quota_total(services.drop_last(), quotas) + quota_of(quotas, services.last())
    }
}

/// No more peers are selected than the quotas of the services allow together,
/// and no service gives more than its quota.
pub proof fn law_quotas_limit_selection(
    services: Seq<Seq<char>>,
    peers: Map<Seq<char>, Set<Seq<char>>>,
    quotas: Map<Seq<char>, usize>,
)
    ensures
        selected_from(services, peers, quotas).len() <= quota_total(services, quotas),
        forall|service: Seq<char>| #[trigger]
            given_peers(service, peers, quotas).len() <= quota_of(quotas, service),
    decreases services.len(),
{
    if services.len() > 0 {
        law_quotas_limit_selection(services.drop_last(), peers, quotas);
    }
}

/// The sum of the parts of some services.
pub open spec fn part_total(services: Seq<Seq<char>>, parts: Map<Seq<char>, nat>) -> nat
    decreases services.len(),
{
    if services.len() == 0 {
        0
    } else {
        part_total(services.drop_last(), parts) + parts[services.last()]
    }
}

/// Quotas that are at most their parts are so together.
proof fn lemma_fair_total(
    services: Seq<Seq<char>>,
    quotas: Map<Seq<char>, usize>,
    max_peers: nat,
    parts: Map<Seq<char>, nat>,
    whole: nat,
)
    requires
        forall|i: int|
            0 <= i < services.len() ==> quota_of(quotas, #[trigger] services[i]) * whole
                <= max_peers * parts[services[i]],
    ensures
        quota_total(services, quotas) * whole <= max_peers * part_total(services, parts),
    decreases services.len(),
{
    if services.len() > 0 {
        let front = services.drop_last();
        let last = services.last();
        assert forall|i: int| 0 <= i < front.len() implies quota_of(quotas, #[trigger] front[i])
            * whole <= max_peers * parts[front[i]] by {
            assert(front[i] == services[i]);
        }
        lemma_fair_total(front, quotas, max_peers, parts, whole);
        let a = quota_total(front, quotas);
        let b = quota_of(quotas, services[services.len() - 1]);
        let c = part_total(front, parts);
        let d = parts[last];
        assert((a + b) * whole <= max_peers * (c + d)) by (nonlinear_arith)
            requires
                a * whole <= max_peers * c,
                b * whole <= max_peers * d,
        ;
    } else {
        assert(0 * whole <= max_peers * 0) by (nonlinear_arith);
    }
}

/// Where the services have parts that together make no more than a whole, and no
/// quota is more than that part of `max_peers`, what the quotas give is returned.
pub proof fn law_fair_quotas_fit(
    peers: Map<Seq<char>, Set<Seq<char>>>,
    quotas: Map<Seq<char>, usize>,
    max_peers: nat,
    parts: Map<Seq<char>, nat>,
    whole: nat,
)
    requires
        finite_peers(peers),
        whole > 0,
        part_total(in_order(peers.dom()), parts) <= whole,
        forall|service: Seq<char>| #[trigger]
            peers.contains_key(service) ==> quota_of(quotas, service) * whole <= max_peers
                * parts[service],
    ensures
        selected(peers, quotas).len() <= max_peers,
        chosen(peers, quotas, max_peers, false) == selected(peers, quotas),
{
    let services = in_order(peers.dom());
    lemma_services(peers);
    assert forall|i: int| 0 <= i < services.len() implies quota_of(quotas, #[trigger] services[i])
        * whole <= max_peers * parts[services[i]] by {
        assert(services.contains(services[i]));
    }
    lemma_fair_total(services, quotas, max_peers, parts, whole);
    law_quotas_limit_selection(services, peers, quotas);
    let total = quota_total(services, quotas);
    let given = part_total(services, parts);
    assert(total <= max_peers) by (nonlinear_arith)
        requires
            total * whole <= max_peers * given,
            given <= whole,
            whole > 0,
    ;
}

/// What a service gives is given.
pub proof fn lemma_selected_from_has(
    services: Seq<Seq<char>>,
    peers: Map<Seq<char>, Set<Seq<char>>>,
    quotas: Map<Seq<char>, usize>,
    i: int,
    j: int,
) -> (at: int)
    requires
        0 <= i < services.len(),
        0 <= j < given_peers(services[i], peers, quotas).len(),
    ensures
        0 <= at < selected_from(services, peers, quotas).len(),
        selected_from(services, peers, quotas)[at] == given_peers(services[i], peers, quotas)[j],
    decreases services.len(),
{
    let front = selected_from(services.drop_last(), peers, quotas);
    if i == services.len() - 1 {
        front.len() + j
    } else {
        lemma_selected_from_has(services.drop_last(), peers, quotas, i, j)
    }
}

/// Where no service gives more than one peer, only services that have peers do.
proof fn lemma_one_each(
    services: Seq<Seq<char>>,
    peers: Map<Seq<char>, Set<Seq<char>>>,
    quotas: Map<Seq<char>, usize>,
)
    ensures
        able_up_to(services, peers, quotas, 1) <= count_with_peers(services, peers),
    decreases services.len(),
{
    if services.len() > 0 {
        lemma_one_each(services.drop_last(), peers, quotas);
    }
}

/// Where one peer of each service is asked for, a service that has peers and a quota
/// gives one.
pub proof fn lemma_gives_one(
    peers: Map<Seq<char>, Set<Seq<char>>>,
    quotas: Map<Seq<char>, usize>,
    max_peers: nat,
    service: Seq<char>,
)
    requires
        finite_peers(peers),
        peers.contains_key(service),
        peers[service].len() > 0,
        quota_of(quotas, service) > 0,
    ensures
        quota_of(limited(peers, quotas, most_peers(peers, max_peers, true)), service) > 0,
{
    let most = most_peers(peers, max_peers, true);
    if selected(peers, quotas).len() > most {
        let services = in_order(peers.dom());
        lemma_services(peers);
        assert(services.contains(service));
        let i = choose|i: int| 0 <= i < services.len() && services[i] == service;
        let level = even_level(services, peers, quotas, most, most);
        lemma_selected_len(services, peers, quotas);
        lemma_even_level(services, peers, quotas, most, most);
        lemma_one_each(services, peers, quotas);
        let wanted = (most - able_up_to(services, peers, quotas, level)) as nat;
        lemma_evened_at(services, peers, quotas, level, wanted, i);
        assert(level >= 1);
    }
}

/// Where a selected peer comes from.
pub proof fn lemma_selected_from_origin(
    services: Seq<Seq<char>>,
    peers: Map<Seq<char>, Set<Seq<char>>>,
    quotas: Map<Seq<char>, usize>,
    at: int,
) -> (i: int)
    requires
        0 <= at < selected_from(services, peers, quotas).len(),
    ensures
        0 <= i < services.len(),
        given_peers(services[i], peers, quotas).contains(selected_from(services, peers, quotas)[at]),
    decreases services.len(),
{
    let front = selected_from(services.drop_last(), peers, quotas);
    let n = services.len() - 1;
    if at < front.len() {
        lemma_selected_from_origin(services.drop_last(), peers, quotas, at)
    } else {
        let given = given_peers(services[n], peers, quotas);
        assert(given[at - front.len()] == selected_from(services, peers, quotas)[at]);
        n
    }
}

/// The items of `a` stand in `b` at the places `at`, in their order.
pub open spec fn stands_at<T>(a: Seq<T>, b: Seq<T>, at: Seq<int>) -> bool {
    &&& at.len() == a.len()
    &&& forall|i: int| 0 <= i < a.len() ==> 0 <= #[trigger] at[i] < b.len() && b[at[i]] == a[i]
    &&& forall|i: int, j: int| 0 <= i < j < a.len() ==> #[trigger] at[i] < #[trigger] at[j]
}

/// `a` is `b` with some items left out.
pub open spec fn is_subsequence<T>(a: Seq<T>, b: Seq<T>) -> bool {
    exists|at: Seq<int>| stands_at(a, b, at)
}

/// A shorter front of some items is a longer one with some left out.
proof fn lemma_front_subsequence<T>(items: Seq<T>, m: nat, n: nat)
    requires
        m <= n,
    ensures
        is_subsequence(first(items, m), first(items, n)),
{
    let a = first(items, m);
    let at = Seq::new(a.len(), |i: int| i);
    assert(stands_at(a, first(items, n), at));
}

/// Items can be left out on both sides of a joint.
proof fn lemma_joined_subsequence<T>(a: Seq<T>, b: Seq<T>, c: Seq<T>, d: Seq<T>)
    requires
        is_subsequence(a, b),
        is_subsequence(c, d),
    ensures
        is_subsequence(a + c, b + d),
{
    let left = choose|at: Seq<int>| stands_at(a, b, at);
    let right = choose|at: Seq<int>| stands_at(c, d, at);
    let at = Seq::new(
        a.len() + c.len(),
        |i: int| if i < a.len() { left[i] } else { b.len() + right[i - a.len()] },
    );
    assert forall|i: int| 0 <= i < (a + c).len() implies 0 <= #[trigger] at[i] < (b + d).len()
        && (b + d)[at[i]] == (a + c)[i] by {
        if i < a.len() {
            assert(0 <= left[i] < b.len());
        } else {
            assert(0 <= right[i - a.len()] < d.len());
        }
    }
    assert forall|i: int, j: int| 0 <= i < j < (a + c).len() implies #[trigger] at[i]
        < #[trigger] at[j] by {
        if j < a.len() {
            assert(left[i] < left[j]);
        } else if i < a.len() {
            assert(left[i] < b.len());
            assert(0 <= right[j - a.len()]);
        } else {
            assert(right[i - a.len()] < right[j - a.len()]);
        }
    }
    assert(stands_at(a + c, b + d, at));
}

/// Larger quotas lose no peer.
proof fn lemma_larger_quotas(
    services: Seq<Seq<char>>,
    peers: Map<Seq<char>, Set<Seq<char>>>,
    a: Map<Seq<char>, usize>,
    b: Map<Seq<char>, usize>,
)
    requires
        forall|i: int|
            0 <= i < services.len() ==> quota_of(a, #[trigger] services[i]) <= quota_of(
                b,
                services[i],
            ),
    ensures
        is_subsequence(selected_from(services, peers, a), selected_from(services, peers, b)),
    decreases services.len(),
{
    if services.len() == 0 {
        let none = Seq::<Seq<char>>::empty();
        assert(stands_at(none, none, Seq::<int>::empty()));
    } else {
        let front = services.drop_last();
        let n = services.len() - 1;
        assert forall|i: int| 0 <= i < front.len() implies quota_of(a, #[trigger] front[i])
            <= quota_of(b, front[i]) by {
            assert(front[i] == services[i]);
        }
        lemma_larger_quotas(front, peers, a, b);
        lemma_front_subsequence(
            in_order(peers[services[n]]),
            quota_of(a, services[n]),
            quota_of(b, services[n]),
        );
        lemma_joined_subsequence(
            selected_from(front, peers, a),
            selected_from(front, peers, b),
            given_peers(services[n], peers, a),
            given_peers(services[n], peers, b),
        );
    }
}

/// Larger quotas that are not limited lose no peer.
pub proof fn lemma_larger_quotas_lose_none(
    peers: Map<Seq<char>, Set<Seq<char>>>,
    a: Map<Seq<char>, usize>,
    b: Map<Seq<char>, usize>,
    most: nat,
)
    requires
        finite_peers(peers),
        forall|service: Seq<char>| #[trigger]
            peers.contains_key(service) ==> quota_of(a, service) <= quota_of(b, service),
    ensures
        is_subsequence(selected(peers, limited(peers, a, most)), selected(peers, b)),
{
    let services = in_order(peers.dom());
    lemma_services(peers);
    let kept = limited(peers, a, most);
    assert forall|i: int| 0 <= i < services.len() implies quota_of(kept, #[trigger] services[i])
        <= quota_of(b, services[i]) by {
        assert(services.contains(services[i]));
        lemma_limited(peers, a, most, services[i], services[i]);
    }
    lemma_larger_quotas(services, peers, kept, b);
}

/// The sum of some numbers.
pub open spec fn sum_of(numbers: Seq<int>) -> int {
    numbers.fold_left(0, |sum: int, number: int| sum + number)
}

/// `part` are `count` of the peers, in ascending order, and no peer that is left out
/// comes before one of them.
pub open spec fn are_first_of(
    part: Seq<Seq<char>>,
    peers: Set<Seq<char>>,
    count: int,
) -> bool {
    &&& part.len() == count
    &&& forall|i: int, j: int|
        0 <= i < j < part.len() ==> precedes(#[trigger] part[i], #[trigger] part[j])
    &&& forall|i: int| 0 <= i < part.len() ==> peers.contains(#[trigger] part[i])
    &&& forall|peer: Seq<char>, i: int|
        0 <= i < part.len() && peers.contains(peer) && !part.contains(peer) ==> precedes(
            #[trigger] part[i],
            peer,
        ) && #[trigger] peers.contains(peer)
}

/// `services` are all services in ascending order of their names.
pub open spec fn are_all_services<T>(
    services: Seq<Seq<char>>,
    entries: Map<Seq<char>, T>,
) -> bool {
    &&& forall|i: int, j: int|
        0 <= i < j < services.len() ==> precedes(#[trigger] services[i], #[trigger] services[j])
    &&& forall|service: Seq<char>| #[trigger]
        services.contains(service) <==> entries.contains_key(service)
}

/// How many peers a quota lets a service give that holds some: as many as the quota
/// says, but all it has where these are fewer, and none without a quota.
pub open spec fn allowed(
    quotas: Map<Seq<char>, usize>,
    peers: Map<Seq<char>, Set<Seq<char>>>,
    service: Seq<char>,
) -> int {
    if !quotas.contains_key(service) {
        0
    } else if quotas[service] < peers[service].len() {
        quotas[service] as int
    } else {
        peers[service].len() as int
    }
}

/// What each service gives is what stands in the whole, service after service.
proof fn lemma_parts(
    services: Seq<Seq<char>>,
    peers: Map<Seq<char>, Set<Seq<char>>>,
    quotas: Map<Seq<char>, usize>,
) -> (parts: Seq<Seq<Seq<char>>>)
    ensures
        parts.len() == services.len(),
        parts.flatten() == selected_from(services, peers, quotas),
        forall|i: int|
            0 <= i < parts.len() ==> #[trigger] parts[i] == given_peers(
                services[i],
                peers,
                quotas,
            ),
    decreases services.len(),
{
    if services.len() == 0 {
        Seq::empty()
    } else {
        let front = services.drop_last();
        let before = lemma_parts(front, peers, quotas);
        let last = given_peers(services.last(), peers, quotas);
        let parts = before.push(last);
        before.lemma_flatten_push(last);
        assert forall|i: int| 0 <= i < parts.len() implies #[trigger] parts[i] == given_peers(
            services[i],
            peers,
            quotas,
        ) by {
            if i < before.len() {
                assert(parts[i] == before[i]);
                assert(front[i] == services[i]);
            }
        }
        parts
    }
}

/// The first of some peers in order.
proof fn lemma_first_of(peers: Set<Seq<char>>, count: nat)
    requires
        peers.finite(),
    ensures
        are_first_of(
            first(in_order(peers), count),
            peers,
            if count < peers.len() {
                count as int
            } else {
                peers.len() as int
            },
        ),
{
    lemma_in_order_of(peers);
    let all = in_order(peers);
    let part = first(all, count);
    assert forall|i: int| 0 <= i < part.len() implies peers.contains(#[trigger] part[i]) by {
        assert(all[i] == part[i]);
        assert(all.to_set().contains(all[i]));
    }
    assert forall|i: int, j: int| 0 <= i < j < part.len() implies precedes(
        #[trigger] part[i],
        #[trigger] part[j],
    ) by {
        assert(precedes(all[i], all[j]));
    }
    assert forall|peer: Seq<char>, i: int|
        0 <= i < part.len() && peers.contains(peer) && !part.contains(peer) implies precedes(
        #[trigger] part[i],
        peer,
    ) && #[trigger] peers.contains(peer) by {
        assert(all.to_set().contains(peer));
        assert(all.contains(peer));
        let k = choose|k: int| 0 <= k < all.len() && all[k] == peer;
        if k < part.len() {
            assert(part[k] == peer);
        }
        assert(precedes(all[i], all[k]));
    }
}

/// Each service gives exactly as many peers as its quota says, or all it has where
/// these are fewer: the first of them in their order. Nothing else is taken, and the
/// services give in the order of their names.
pub proof fn law_take_peers(
    peers_by_service: PeersByService,
    quotas: ServiceMap<usize>,
    peers: Vec<String>,
) -> (parts: (Seq<Seq<char>>, Seq<Seq<Seq<char>>>))
    requires
        peers_by_service.wf(),
        all_ordered(peers_by_service@),
        quotas.wf(),
        call_ensures(take_peers, (&peers_by_service, &quotas), peers),
    ensures
        are_all_services(parts.0, peers_by_service@),
        parts.1.len() == parts.0.len(),
        peers@.map_values(|peer: String| peer@) == parts.1.flatten(),
        forall|i: int|
            0 <= i < parts.1.len() ==> are_first_of(
                #[trigger] parts.1[i],
                peers_by_service@[parts.0[i]]@,
                allowed(
                    quotas@,
                    peers_by_service@.map_values(|set: PeerSet| set@),
                    parts.0[i],
                ),
            ),
{
    let sets = peer_sets(peers_by_service@);
    let services = in_order(sets.dom());
    let parts = lemma_parts(services, sets, quotas@);
    lemma_finite_peer_sets(peers_by_service);
    lemma_services(sets);
    lemma_in_order_of(sets.dom());
    assert forall|service: Seq<char>| #[trigger] services.contains(service)
        <==> peers_by_service@.contains_key(service) by {
        assert(sets.contains_key(service) <==> peers_by_service@.contains_key(service));
    }
    assert forall|i: int| 0 <= i < parts.len() implies are_first_of(
        #[trigger] parts[i],
        peers_by_service@[services[i]]@,
        allowed(quotas@, sets, services[i]),
    ) by {
        assert(services.contains(services[i]));
        lemma_first_of(sets[services[i]], quota_of(quotas@, services[i]));
    }
    assert(texts(peers@) =~= peers@.map_values(|peer: String| peer@));
    (services, parts)
}

/// The sum of the numbers that services give.
proof fn lemma_sum_allowed(
    services: Seq<Seq<char>>,
    peers: Map<Seq<char>, Set<Seq<char>>>,
    quotas: Map<Seq<char>, usize>,
)
    requires
        forall|service: Seq<char>| #[trigger] services.contains(service) ==> peers[service].finite(),
    ensures
        selected_from(services, peers, quotas).len() == sum_of(
            services.map_values(|service: Seq<char>| allowed(quotas, peers, service)),
        ),
    decreases services.len(),
{
    let numbers = services.map_values(|service: Seq<char>| allowed(quotas, peers, service));
    reveal(Seq::fold_left);
    if services.len() > 0 {
        let front = services.drop_last();
        assert forall|service: Seq<char>| #[trigger] front.contains(
            service,
        ) implies peers[service].finite() by {
            let i = choose|i: int| 0 <= i < front.len() && front[i] == service;
            assert(services[i] == service);
            assert(services.contains(service));
        }
        lemma_sum_allowed(front, peers, quotas);
        assert(numbers.drop_last() =~= front.map_values(
            |service: Seq<char>| allowed(quotas, peers, service),
        ));
        assert(services[services.len() - 1] == services.last());
        assert(services.contains(services.last()));
        lemma_in_order_of(peers[services.last()]);
    }
}

/// The services that have peers.
pub open spec fn those_with_peers(peers: Map<Seq<char>, Set<Seq<char>>>) -> Set<Seq<char>> {
    peers.dom().filter(|service: Seq<char>| peers[service].len() > 0)
}

/// How many services have peers.
proof fn lemma_those_with_peers(
    services: Seq<Seq<char>>,
    peers: Map<Seq<char>, Set<Seq<char>>>,
)
    requires
        services.no_duplicates(),
    ensures
        services.to_set().filter(|service: Seq<char>| peers[service].len() > 0).finite(),
        services.to_set().filter(|service: Seq<char>| peers[service].len() > 0).len()
            == count_with_peers(services, peers),
    decreases services.len(),
{
    let has = |service: Seq<char>| peers[service].len() > 0;
    let all = services.to_set().filter(has);
    if services.len() == 0 {
        assert(all =~= Set::<Seq<char>>::empty());
    } else {
        let front = services.drop_last();
        let last = services.last();
        let before = front.to_set().filter(has);
        lemma_those_with_peers(front, peers);
        assert forall|service: Seq<char>| services.contains(service) <==> front.contains(service)
            || service == last by {
            if services.contains(service) {
                let i = choose|i: int| 0 <= i < services.len() && services[i] == service;
                if i < front.len() {
                    assert(front[i] == service);
                }
            }
            if front.contains(service) {
                let i = choose|i: int| 0 <= i < front.len() && front[i] == service;
                assert(services[i] == service);
            }
            assert(services[services.len() - 1] == last);
        }
        assert(!front.contains(last)) by {
            if front.contains(last) {
                let i = choose|i: int| 0 <= i < front.len() && front[i] == last;
                assert(services[i] == services[services.len() - 1]);
            }
        }
        if peers[last].len() > 0 {
            assert(all =~= before.insert(last));
        } else {
            assert(all =~= before);
        }
    }
}

/// `selection` is a fair choice by these quotas: each service gives its first peers in
/// order, no more than its quota allows. All that the quotas allow is given where that
/// is no more than `max_peers`. Else exactly `max_peers` are given, or one of each
/// service with peers, where that is asked for and there are more of these, and they
/// are given evenly: a service that gives fewer than it is allowed gives no fewer than
/// any service behind it, and at most one fewer than any before it.
pub open spec fn is_fair_choice(
    peers: Map<Seq<char>, Set<Seq<char>>>,
    quotas: Map<Seq<char>, usize>,
    max_peers: nat,
    at_least_one: bool,
    services: Seq<Seq<char>>,
    parts: Seq<Seq<Seq<char>>>,
    selection: Seq<Seq<char>>,
) -> bool {
    let most = if at_least_one && max_peers < those_with_peers(peers).len() {
        those_with_peers(peers).len()
    } else {
        max_peers
    };
    let whole = sum_of(
        services.map_values(|service: Seq<char>| allowed(quotas, peers, service)),
    );
    &&& are_all_services(services, peers)
    &&& parts.len() == services.len()
    &&& selection == parts.flatten()
    &&& forall|i: int|
        0 <= i < parts.len() ==> #[trigger] parts[i].len() <= allowed(quotas, peers, services[i])
            && are_first_of(parts[i], peers[services[i]], parts[i].len() as int)
    &&& selection.len() == if whole < most {
        whole
    } else {
        most as int
    }
    &&& whole <= most ==> forall|i: int|
        0 <= i < parts.len() ==> #[trigger] parts[i].len() == allowed(quotas, peers, services[i])
    &&& forall|i: int, j: int|
        0 <= i < j < parts.len() && parts[i].len() < allowed(quotas, peers, services[i])
            ==> #[trigger] parts[j].len() <= #[trigger] parts[i].len()
    &&& forall|i: int, j: int|
        0 <= j < i < parts.len() && parts[i].len() < allowed(quotas, peers, services[i])
            ==> #[trigger] parts[j].len() <= #[trigger] parts[i].len() + 1
    &&& at_least_one ==> forall|i: int|
        0 <= i < parts.len() && allowed(quotas, peers, services[i]) > 0 ==> (
        #[trigger] parts[i]).len() > 0
}

/// Fewer are wanted after more services.
proof fn lemma_wanted_shrinks(
    services: Seq<Seq<char>>,
    peers: Map<Seq<char>, Set<Seq<char>>>,
    quotas: Map<Seq<char>, usize>,
    level: nat,
    wanted: nat,
    i: int,
    j: int,
)
    requires
        0 <= i <= j <= services.len(),
    ensures
        wanted_after(services.take(j), peers, quotas, level, wanted) <= wanted_after(
            services.take(i),
            peers,
            quotas,
            level,
            wanted,
        ),
    decreases j,
{
    if i < j {
        lemma_wanted_shrinks(services, peers, quotas, level, wanted, i, j - 1);
        assert(services.take(j).drop_last() =~= services.take(j - 1));
    }
}

/// What is chosen by quotas is a fair choice.
pub proof fn law_fair_choice(
    peers: Map<Seq<char>, Set<Seq<char>>>,
    quotas: Map<Seq<char>, usize>,
    max_peers: nat,
    at_least_one: bool,
) -> (parts: (Seq<Seq<char>>, Seq<Seq<Seq<char>>>))
    requires
        finite_peers(peers),
    ensures
        is_fair_choice(
            peers,
            quotas,
            max_peers,
            at_least_one,
            parts.0,
            parts.1,
            chosen(peers, quotas, max_peers, at_least_one),
        ),
{
    let most = most_peers(peers, max_peers, at_least_one);
    let kept = limited(peers, quotas, most);
    let services = in_order(peers.dom());
    let parts = lemma_parts(services, peers, kept);
    lemma_services(peers);
    lemma_in_order_of(peers.dom());
    lemma_those_with_peers(services, peers);
    lemma_sum_allowed(services, peers, quotas);
    lemma_selected_len(services, peers, quotas);
    law_as_many_as_allowed(peers, quotas, max_peers, at_least_one);
    assert forall|i: int| 0 <= i < parts.len() implies #[trigger] parts[i].len() <= allowed(
        quotas,
        peers,
        services[i],
    ) && are_first_of(parts[i], peers[services[i]], parts[i].len() as int) by {
        assert(services.contains(services[i]));
        lemma_first_of(peers[services[i]], quota_of(kept, services[i]));
        lemma_limited(peers, quotas, most, services[i], services[i]);
    }
    assert forall|i: int| 0 <= i < parts.len() implies (#[trigger] parts[i]).len() == able(
        services[i],
        peers,
        kept,
    ) && allowed(quotas, peers, services[i]) == able(services[i], peers, quotas) by {
        assert(services.contains(services[i]));
        lemma_in_order_of(peers[services[i]]);
    }
    let level = even_level(services, peers, quotas, most, most);
    let wanted = (most - able_up_to(services, peers, quotas, level)) as nat;
    assert forall|i: int, j: int|
        0 <= i < j < parts.len() && parts[i].len() < allowed(
            quotas,
            peers,
            services[i],
        ) implies #[trigger] parts[j].len() <= #[trigger] parts[i].len() by {
        lemma_evened_at(services, peers, quotas, level, wanted, i);
        lemma_evened_at(services, peers, quotas, level, wanted, j);
        lemma_wanted_shrinks(services, peers, quotas, level, wanted, i, j);
    }
    assert forall|i: int, j: int|
        0 <= j < i < parts.len() && parts[i].len() < allowed(
            quotas,
            peers,
            services[i],
        ) implies #[trigger] parts[j].len() <= #[trigger] parts[i].len() + 1 by {
        lemma_evened_at(services, peers, quotas, level, wanted, i);
        lemma_evened_at(services, peers, quotas, level, wanted, j);
    }
    if at_least_one {
        assert forall|i: int| 0 <= i < parts.len() && allowed(
            quotas,
            peers,
            services[i],
        ) > 0 implies (#[trigger] parts[i]).len() > 0 by {
            assert(services.contains(services[i]));
            lemma_gives_one(peers, quotas, max_peers, services[i]);
        }
    }
    (services, parts)
}

/// What is chosen from the peers found is a fair choice by the quotas.
pub proof fn law_choose_peers(
    peers_by_service: PeersByService,
    quotas: ServiceMap<usize>,
    max_peers: usize,
    at_least_one: bool,
    peers: Vec<String>,
) -> (parts: (Seq<Seq<char>>, Seq<Seq<Seq<char>>>))
    requires
        peers_by_service.wf(),
        all_ordered(peers_by_service@),
        quotas.wf(),
        call_ensures(choose_peers, (&peers_by_service, quotas, max_peers, at_least_one), peers),
    ensures
        is_fair_choice(
            peers_by_service@.map_values(|set: PeerSet| set@),
            quotas@,
            max_peers as nat,
            at_least_one,
            parts.0,
            parts.1,
            peers@.map_values(|peer: String| peer@),
        ),
{
    let sets = peer_sets(peers_by_service@);
    lemma_finite_peer_sets(peers_by_service);
    assert(sets =~= peers_by_service@.map_values(|set: PeerSet| set@));
    assert(texts(peers@) =~= peers@.map_values(|peer: String| peer@));
    law_fair_choice(sets, quotas@, max_peers as nat, at_least_one)
}

/// What the services give by limited quotas is a fair choice by the quotas.
pub proof fn law_limit_quotas(
    peers_by_service: PeersByService,
    quotas: ServiceMap<usize>,
    most: usize,
    kept: ServiceMap<usize>,
    peers: Vec<String>,
) -> (parts: (Seq<Seq<char>>, Seq<Seq<Seq<char>>>))
    requires
        peers_by_service.wf(),
        all_ordered(peers_by_service@),
        quotas.wf(),
        call_ensures(limit_quotas, (&peers_by_service, quotas, most), kept),
        call_ensures(take_peers, (&peers_by_service, &kept), peers),
    ensures
        is_fair_choice(
            peers_by_service@.map_values(|set: PeerSet| set@),
            quotas@,
            most as nat,
            false,
            parts.0,
            parts.1,
            peers@.map_values(|peer: String| peer@),
        ),
{
    let sets = peer_sets(peers_by_service@);
    lemma_finite_peer_sets(peers_by_service);
    assert(sets =~= peers_by_service@.map_values(|set: PeerSet| set@));
    assert(texts(peers@) =~= peers@.map_values(|peer: String| peer@));
    law_fair_choice(sets, quotas@, most as nat, false)
}

/// The first of some items are as many as are asked for, or all of them, from the front.
pub proof fn law_first<T>(items: Seq<T>, count: nat)
    ensures
        first(items, count).len() == if count < items.len() {
            count
        } else {
            items.len()
        },
        forall|i: int|
            0 <= i < first(items, count).len() ==> #[trigger] first(items, count)[i] == items[i],
{
}

} // verus!
