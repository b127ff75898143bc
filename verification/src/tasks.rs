//! The peers among the tasks of a service.
//!
//! A running task describes its attachments. Those that are elastic network
//! interfaces hold its addresses, as details with a name and a value.

use vstd::prelude::*;
use crate::ipv4::{dotted, law_dotted_injective, parse_ipv4};
use crate::subnet::Subnet;
use crate::text::{are_places, same_text, texts};

verus! {

/// A detail of an attachment.
#[derive(Debug)]
pub struct Detail {
    pub name: Option<String>,
    pub value: Option<String>,
}

/// Something attached to a task.
#[derive(Debug)]
pub struct Attachment {
    pub kind: Option<String>,
    pub details: Option<Vec<Detail>>,
}

/// A running task.
#[derive(Debug)]
pub struct TaskDescription {
    pub attachments: Vec<Attachment>,
}

/// Whether a detail has this name, and a value.
pub open spec fn holds(detail: Detail, name: Seq<char>) -> bool {
    &&& detail.name matches Some(text) && text@ == name
    &&& detail.value is Some
}

/// The value of the last detail of this name that has one.
pub open spec fn value_of(details: Seq<Detail>, name: Seq<char>) -> Option<Seq<char>>
    decreases details.len(),
{
    if details.len() == 0 {
        None
    } else if holds(details.last(), name) {
        Some(details.last().value->0@)
    } else {
        value_of(details.drop_last(), name)
    }
}

/// Whether a text is an IPv4 address in the subnet.
pub open spec fn is_address_within(text: Seq<char>, subnet: Subnet) -> bool {
    exists|address: u32| text == #[trigger] dotted(address) && subnet.covers(address)
}

/// Whether an attachment is an elastic network interface.
pub open spec fn is_interface(attachment: Attachment) -> bool {
    attachment.kind matches Some(kind) && kind@ == "ElasticNetworkInterface"@
}

/// Whether an attachment is an elastic network interface with an address in the
/// subnet.
pub open spec fn is_interface_within(attachment: Attachment, subnet: Subnet) -> bool {
    &&& is_interface(attachment)
    &&& value_of(attachment.details->0@, "privateIPv4Address"@) matches Some(text)
        && is_address_within(text, subnet)
}

/// Every elastic network interface of a task has details.
pub open spec fn described(task: TaskDescription) -> bool {
    forall|i: int|
        0 <= i < task.attachments@.len() && is_interface(#[trigger] task.attachments@[i])
            ==> task.attachments@[i].details is Some
}

/// Every elastic network interface of every task has details.
pub open spec fn all_described(tasks: Seq<TaskDescription>) -> bool {
    forall|i: int| 0 <= i < tasks.len() ==> described(#[trigger] tasks[i])
}

/// How a peer is reached through an interface: by its DNS name, where that is
/// asked for, else by its address.
pub open spec fn interface_peer(attachment: Attachment, return_dns_name: bool) -> Option<Seq<char>> {
    if return_dns_name {
        value_of(attachment.details->0@, "privateDnsName"@)
    } else {
        value_of(attachment.details->0@, "privateIPv4Address"@)
    }
}

/// The peer of a task: the one behind the first of its elastic network
/// interfaces with an address in the subnet.
pub open spec fn task_peer(
    attachments: Seq<Attachment>,
    subnet: Subnet,
    return_dns_name: bool,
) -> Option<Seq<char>>
    decreases attachments.len(),
{
    if attachments.len() == 0 {
        None
    } else if is_interface_within(attachments[0], subnet) {
        interface_peer(attachments[0], return_dns_name)
    } else {
        task_peer(attachments.skip(1), subnet, return_dns_name)
    }
}

/// The peers of tasks that have one, in their order.
pub open spec fn task_peers(
    tasks: Seq<TaskDescription>,
    subnet: Subnet,
    return_dns_name: bool,
) -> Seq<Seq<char>>
    decreases tasks.len(),
{
    if tasks.len() == 0 {
        Seq::empty()
    } else {
        let front = task_peers(tasks.drop_last(), subnet, return_dns_name);
        match task_peer(tasks.last().attachments@, subnet, return_dns_name) {
            Some(peer) => front.push(peer),
            None => front,
        }
    }
}

/// The value of the last detail of a name.
fn find_value<'a>(details: &'a Vec<Detail>, name: &str) -> (value: Option<&'a String>)
    ensures
        match value {
            Some(text) => value_of(details@, name@) == Some(text@),
            None => value_of(details@, name@) is None,
        },
{
    let mut i: usize = details.len();
    assert(details@.take(i as int) =~= details@);
    while i > 0
        invariant
            i <= details.len(),
            value_of(details@, name@) == value_of(details@.take(i as int), name@),
        decreases i,
    {
        i = i - 1;
        proof {
            let more = details@.take(i + 1);
            assert(more.drop_last() =~= details@.take(i as int));
            assert(more.last() == details@[i as int]);
        }
        if let Some(text) = &details[i].name {
            if same_text(text.as_str(), name) {
                if let Some(value) = &details[i].value {
                    return Some(value);
                }
            }
        }
    }
    None
}

/// The details of an attachment, where it is an elastic network interface with
/// an address in the subnet.
fn details_within<'a>(attachment: &'a Attachment, subnet: &Subnet) -> (details: Option<
    (&'a Vec<Detail>, &'a String),
>)
    requires
        subnet.wf(),
        is_interface(*attachment) ==> attachment.details is Some,
    ensures
        match details {
            Some((all, address)) => {
                &&& is_interface_within(*attachment, *subnet)
                &&& attachment.details == Some(*all)
                &&& value_of(all@, "privateIPv4Address"@) == Some(address@)
            },
            None => !is_interface_within(*attachment, *subnet),
        },
{
    let kind = match &attachment.kind {
        Some(kind) => kind,
        None => return None,
    };
    if !same_text(kind.as_str(), "ElasticNetworkInterface") {
        return None;
    }
    let details = match &attachment.details {
        Some(details) => details,
        None => return None,
    };
    let text = match find_value(details, "privateIPv4Address") {
        Some(text) => text,
        None => return None,
    };
    match parse_ipv4(text.as_str()) {
        Some(address) => {
            if subnet.contains(address) {
                Some((details, text))
            } else {
                proof {
                    assert forall|other: u32| text@ == #[trigger] dotted(other) implies !subnet.covers(
                        other,
                    ) by {
                        law_dotted_injective(address, other);
                    }
                }
                None
            }
        },
        None => None,
    }
}

/// The peer of one task.
fn find_task_peer(task: &TaskDescription, subnet: &Subnet, return_dns_name: bool) -> (peer: Option<
    String,
>)
    requires
        subnet.wf(),
        described(*task),
    ensures
        match peer {
            Some(peer) => task_peer(task.attachments@, *subnet, return_dns_name) == Some(peer@),
            None => task_peer(task.attachments@, *subnet, return_dns_name) is None,
        },
{
    let attachments = &task.attachments;
    let mut i: usize = 0;
    assert(attachments@.skip(0) =~= attachments@);
    while i < attachments.len()
        invariant
            subnet.wf(),
            described(*task),
            *attachments == task.attachments,
            i <= attachments.len(),
            task_peer(task.attachments@, *subnet, return_dns_name) == task_peer(
                attachments@.skip(i as int),
                *subnet,
                return_dns_name,
            ),
        decreases attachments.len() - i,
    {
        let attachment = &attachments[i];
        assert(*attachment == task.attachments@[i as int]);
        proof {
            let rest = attachments@.skip(i as int);
            assert(rest[0] == *attachment);
            assert(rest.skip(1) =~= attachments@.skip(i + 1));
        }
        if let Some((details, address)) = details_within(attachment, subnet) {
            if !return_dns_name {
                return Some(address.clone());
            }
            return match find_value(details, "privateDnsName") {
                Some(name) => Some(name.clone()),
                None => None,
            };
        }
        i = i + 1;
    }
    None
}

/// The peers among running tasks: of each task the one behind its first elastic
/// network interface within the subnet, by address or by DNS name.
pub fn peers_from_tasks(
    tasks: &Vec<TaskDescription>,
    subnet: &Subnet,
    return_dns_name: bool,
) -> (peers: Vec<String>)
    requires
        subnet.wf(),
        all_described(tasks@),
    ensures
        texts(peers@) == task_peers(tasks@, *subnet, return_dns_name),
{
    let mut peers: Vec<String> = Vec::new();
    let mut i: usize = 0;
    assert(texts(peers@) =~= task_peers(tasks@.take(0), *subnet, return_dns_name));
    while i < tasks.len()
        invariant
            subnet.wf(),
            all_described(tasks@),
            i <= tasks.len(),
            texts(peers@) == task_peers(tasks@.take(i as int), *subnet, return_dns_name),
        decreases tasks.len() - i,
    {
        let ghost before = peers@;
        proof {
            let more = tasks@.take(i + 1);
            assert(more.drop_last() =~= tasks@.take(i as int));
            assert(more.last() == tasks@[i as int]);
        }
        if let Some(peer) = find_task_peer(&tasks[i], subnet, return_dns_name) {
            let ghost text = peer@;
            peers.push(peer);
            assert(texts(peers@) =~= texts(before).push(text));
        }
        i = i + 1;
    }
    assert(tasks@.take(i as int) =~= tasks@);
    peers
}

/// Every peer that is given by its address has an address in the subnet.
pub proof fn law_peers_within_subnet(tasks: Seq<TaskDescription>, subnet: Subnet, i: int)
    requires
        0 <= i < task_peers(tasks, subnet, false).len(),
    ensures
        is_address_within(task_peers(tasks, subnet, false)[i], subnet),
    decreases tasks.len(),
{
    let front = task_peers(tasks.drop_last(), subnet, false);
    if i < front.len() {
        law_peers_within_subnet(tasks.drop_last(), subnet, i);
    } else {
        lemma_task_peer_within(tasks.last().attachments@, subnet);
    }
}

proof fn lemma_task_peer_within(attachments: Seq<Attachment>, subnet: Subnet)
    ensures
        task_peer(attachments, subnet, false) matches Some(peer) ==> is_address_within(peer, subnet),
    decreases attachments.len(),
{
    if attachments.len() > 0 && !is_interface_within(attachments[0], subnet) {
        lemma_task_peer_within(attachments.skip(1), subnet);
    }
}

/// Every peer, by address or by DNS name, stands behind an elastic network
/// interface with an address in the subnet, and behind the first such interface
/// of its task.
pub proof fn law_peers_behind_interfaces(
    tasks: Seq<TaskDescription>,
    subnet: Subnet,
    return_dns_name: bool,
    i: int,
)
    requires
        0 <= i < task_peers(tasks, subnet, return_dns_name).len(),
    ensures
        exists|t: int, a: int|
            0 <= t < tasks.len() && #[trigger] is_first_within(tasks[t].attachments@, subnet, a)
                && interface_peer(tasks[t].attachments@[a], return_dns_name) == Some(
                task_peers(tasks, subnet, return_dns_name)[i],
            ),
    decreases tasks.len(),
{
    let front = tasks.drop_last();
    let n = tasks.len() - 1;
    if i < task_peers(front, subnet, return_dns_name).len() {
        law_peers_behind_interfaces(front, subnet, return_dns_name, i);
        let (t, a) = choose|t: int, a: int|
            0 <= t < front.len() && #[trigger] is_first_within(front[t].attachments@, subnet, a)
                && interface_peer(front[t].attachments@[a], return_dns_name) == Some(
                task_peers(front, subnet, return_dns_name)[i],
            );
        assert(is_first_within(tasks[t].attachments@, subnet, a));
    } else {
        let a = lemma_task_peer_interface(tasks[n].attachments@, subnet, return_dns_name);
        assert(is_first_within(tasks[n].attachments@, subnet, a));
    }
}

/// The attachment at a place is the first elastic network interface with an
/// address in the subnet.
pub open spec fn is_first_within(attachments: Seq<Attachment>, subnet: Subnet, at: int) -> bool {
    &&& 0 <= at < attachments.len()
    &&& is_interface_within(attachments[at], subnet)
    &&& forall|i: int| 0 <= i < at ==> !is_interface_within(#[trigger] attachments[i], subnet)
}

proof fn lemma_task_peer_interface(
    attachments: Seq<Attachment>,
    subnet: Subnet,
    return_dns_name: bool,
) -> (at: int)
    requires
        task_peer(attachments, subnet, return_dns_name) is Some,
    ensures
        is_first_within(attachments, subnet, at),
        interface_peer(attachments[at], return_dns_name) == task_peer(
            attachments,
            subnet,
            return_dns_name,
        ),
    decreases attachments.len(),
{
    if is_interface_within(attachments[0], subnet) {
        0
    } else {
        let rest = attachments.skip(1);
        let at = lemma_task_peer_interface(rest, subnet, return_dns_name);
        assert forall|i: int| 0 <= i < at + 1 implies !is_interface_within(
            #[trigger] attachments[i],
            subnet,
        ) by {
            if i > 0 {
                assert(rest[i - 1] == attachments[i]);
            }
        }
        at + 1
    }
}

/// No task gives more than one peer.
pub proof fn law_one_peer_per_task(
    tasks: Seq<TaskDescription>,
    subnet: Subnet,
    return_dns_name: bool,
)
    ensures
        task_peers(tasks, subnet, return_dns_name).len() <= tasks.len(),
    decreases tasks.len(),
{
    if tasks.len() > 0 {
        law_one_peer_per_task(tasks.drop_last(), subnet, return_dns_name);
    }
}

/// Of the details of a name the last that has a value counts.
pub proof fn law_last_detail_counts(details: Seq<Detail>, name: Seq<char>, i: int)
    requires
        0 <= i < details.len(),
        details[i].name matches Some(text) && text@ == name,
        details[i].value is Some,
        forall|j: int|
            i < j < details.len() && (#[trigger] details[j]).value is Some ==> (
            details[j].name matches Some(text) ==> text@ != name),
    ensures
        value_of(details, name) == Some(details[i].value->0@),
    decreases details.len(),
{
    if i < details.len() - 1 {
        let front = details.drop_last();
        assert(details.last() == details[details.len() - 1]);
        assert forall|j: int| i < j < front.len() && (
        #[trigger] front[j]).value is Some implies (front[j].name matches Some(text) ==> text@
            != name) by {
            assert(front[j] == details[j]);
        }
        assert(front[i] == details[i]);
        law_last_detail_counts(front, name, i);
    }
}

/// A name without a detail that has a value has no value.
pub proof fn law_no_detail_no_value(details: Seq<Detail>, name: Seq<char>)
    requires
        forall|j: int|
            0 <= j < details.len() && (#[trigger] details[j]).value is Some ==> (
            details[j].name matches Some(text) ==> text@ != name),
    ensures
        value_of(details, name) is None,
    decreases details.len(),
{
    if details.len() > 0 {
        let front = details.drop_last();
        assert(details.last() == details[details.len() - 1]);
        assert forall|j: int| 0 <= j < front.len() && (
        #[trigger] front[j]).value is Some implies (front[j].name matches Some(text) ==> text@
            != name) by {
            assert(front[j] == details[j]);
        }
        law_no_detail_no_value(front, name);
    }
}

/// What makes an interface one within the subnet: its kind, and that the value of its
/// private IPv4 address is the text of an address that the subnet covers.
pub proof fn law_interface_within(attachment: Attachment, subnet: Subnet)
    requires
        attachment.details is Some,
    ensures
        is_interface_within(attachment, subnet) <==> {
            &&& attachment.kind is Some
            &&& attachment.kind->0@ == "ElasticNetworkInterface"@
            &&& value_of(attachment.details->0@, "privateIPv4Address"@) is Some
            &&& exists|address: u32|
                value_of(attachment.details->0@, "privateIPv4Address"@) == Some(
                    #[trigger] dotted(address),
                ) && subnet.covers(address)
        },
{
}

/// A peer is given by the DNS name of its interface where that is asked for, else by
/// its address.
pub proof fn law_how_a_peer_is_given(attachment: Attachment)
    requires
        attachment.details is Some,
    ensures
        interface_peer(attachment, true) == value_of(
            attachment.details->0@,
            "privateDnsName"@,
        ),
        interface_peer(attachment, false) == value_of(
            attachment.details->0@,
            "privateIPv4Address"@,
        ),
{
}

/// `text` is how the task is reached: through its first elastic network interface with
/// an address in the subnet.
pub open spec fn reaches(
    task: TaskDescription,
    subnet: Subnet,
    return_dns_name: bool,
    text: Seq<char>,
) -> bool {
    exists|at: int|
        0 <= at < task.attachments@.len() && is_interface_within(task.attachments@[at], subnet)
            && (forall|i: int|
            0 <= i < at ==> !is_interface_within(#[trigger] task.attachments@[i], subnet))
            && #[trigger] interface_peer(task.attachments@[at], return_dns_name) == Some(text)
}

/// No task is lost: the peers found are those of exactly the tasks that are reached
/// within the subnet, in the order of the tasks, one of each task.
pub proof fn law_every_task_gives_its_peer(
    tasks: Vec<TaskDescription>,
    subnet: Subnet,
    return_dns_name: bool,
    peers: Vec<String>,
) -> (places: Seq<int>)
    requires
        subnet.wf(),
        all_described(tasks@),
        call_ensures(peers_from_tasks, (&tasks, &subnet, return_dns_name), peers),
    ensures
        are_places(places, tasks@.len()),
        peers@.len() == places.len(),
        forall|i: int|
            0 <= i < peers@.len() ==> reaches(
                tasks@[#[trigger] places[i]],
                subnet,
                return_dns_name,
                peers@[i]@,
            ),
        forall|t: int, text: Seq<char>|
            0 <= t < tasks@.len() && #[trigger] reaches(tasks@[t], subnet, return_dns_name, text)
                ==> places.contains(t),
{
    let places = lemma_found(tasks@, subnet, return_dns_name);
    assert(texts(peers@).len() == peers@.len());
    assert forall|i: int| 0 <= i < peers@.len() implies reaches(
        tasks@[#[trigger] places[i]],
        subnet,
        return_dns_name,
        peers@[i]@,
    ) by {
        assert(texts(peers@)[i] == peers@[i]@);
    }
    places
}

/// The same of the peers of tasks that are described to the library.
pub proof fn law_no_task_is_lost(
    tasks: Seq<TaskDescription>,
    subnet: Subnet,
    return_dns_name: bool,
) -> (places: Seq<int>)
    ensures
        are_places(places, tasks.len()),
        task_peers(tasks, subnet, return_dns_name).len() == places.len(),
        forall|i: int|
            0 <= i < places.len() ==> reaches(
                tasks[#[trigger] places[i]],
                subnet,
                return_dns_name,
                task_peers(tasks, subnet, return_dns_name)[i],
            ),
        forall|t: int, text: Seq<char>|
            0 <= t < tasks.len() && #[trigger] reaches(tasks[t], subnet, return_dns_name, text)
                ==> places.contains(t),
{
    lemma_found(tasks, subnet, return_dns_name)
}

/// The peer of a task is the text that it is reached by.
proof fn lemma_task_reached(
    task: TaskDescription,
    subnet: Subnet,
    return_dns_name: bool,
    text: Seq<char>,
)
    ensures
        task_peer(task.attachments@, subnet, return_dns_name) == Some(text) <==> reaches(
            task,
            subnet,
            return_dns_name,
            text,
        ),
{
    let all = task.attachments@;
    if task_peer(all, subnet, return_dns_name) == Some(text) {
        let at = lemma_task_peer_interface(all, subnet, return_dns_name);
        assert(interface_peer(task.attachments@[at], return_dns_name) == Some(text));
    }
    if reaches(task, subnet, return_dns_name, text) {
        let at = choose|at: int|
            0 <= at < task.attachments@.len() && is_interface_within(task.attachments@[at], subnet)
                && (forall|i: int|
                0 <= i < at ==> !is_interface_within(#[trigger] task.attachments@[i], subnet))
                && #[trigger] interface_peer(task.attachments@[at], return_dns_name) == Some(text);
        lemma_first_interface_peer(all, subnet, return_dns_name, at);
    }
}

/// The first interface within the subnet gives the peer.
proof fn lemma_first_interface_peer(
    attachments: Seq<Attachment>,
    subnet: Subnet,
    return_dns_name: bool,
    at: int,
)
    requires
        is_first_within(attachments, subnet, at),
    ensures
        task_peer(attachments, subnet, return_dns_name) == interface_peer(
            attachments[at],
            return_dns_name,
        ),
    decreases attachments.len(),
{
    if at > 0 {
        assert(!is_interface_within(attachments[0], subnet));
        let rest = attachments.skip(1);
        assert(rest[at - 1] == attachments[at]);
        assert forall|i: int| 0 <= i < at - 1 implies !is_interface_within(
            #[trigger] rest[i],
            subnet,
        ) by {
            assert(rest[i] == attachments[i + 1]);
        }
        lemma_first_interface_peer(rest, subnet, return_dns_name, at - 1);
    }
}

proof fn lemma_found(
    tasks: Seq<TaskDescription>,
    subnet: Subnet,
    return_dns_name: bool,
) -> (places: Seq<int>)
    ensures
        are_places(places, tasks.len()),
        task_peers(tasks, subnet, return_dns_name).len() == places.len(),
        forall|i: int|
            0 <= i < places.len() ==> reaches(
                tasks[#[trigger] places[i]],
                subnet,
                return_dns_name,
                task_peers(tasks, subnet, return_dns_name)[i],
            ),
        forall|t: int, text: Seq<char>|
            0 <= t < tasks.len() && #[trigger] reaches(tasks[t], subnet, return_dns_name, text)
                ==> places.contains(t),
    decreases tasks.len(),
{
    if tasks.len() == 0 {
        Seq::empty()
    } else {
        let front = tasks.drop_last();
        let n = tasks.len() - 1;
        let before = lemma_found(front, subnet, return_dns_name);
        let last = task_peer(tasks.last().attachments@, subnet, return_dns_name);
        let places = if last is Some {
            before.push(n)
        } else {
            before
        };
        assert forall|i: int| 0 <= i < places.len() implies reaches(
            tasks[#[trigger] places[i]],
            subnet,
            return_dns_name,
            task_peers(tasks, subnet, return_dns_name)[i],
        ) by {
            if i < before.len() {
                assert(places[i] == before[i]);
                assert(front[before[i]] == tasks[before[i]]);
            } else {
                lemma_task_reached(tasks[n], subnet, return_dns_name, last->0);
            }
        }
        assert forall|t: int, text: Seq<char>|
            0 <= t < tasks.len() && #[trigger] reaches(
                tasks[t],
                subnet,
                return_dns_name,
                text,
            ) implies places.contains(t) by {
            if t < n {
                assert(reaches(front[t], subnet, return_dns_name, text));
                let k = choose|k: int| 0 <= k < before.len() && before[k] == t;
                assert(places[k] == t);
            } else {
                lemma_task_reached(tasks[n], subnet, return_dns_name, text);
                assert(places[before.len() as int] == n);
            }
        }
        places
    }
}

} // verus!
