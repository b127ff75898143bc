//! The names of services, read from their Amazon Resource Names.

use vstd::prelude::*;
use vstd::std_specs::iter::IteratorSpec;
use crate::text::{are_places, is_lowercase_of, lowercase, texts, to_lowercase};

verus! {

/// What follows the last slash of a text, if it has one.
pub open spec fn after_last_slash(text: Seq<char>) -> Option<Seq<char>> {
    match text.index_of_last('/') {
        Some(at) => Some(text.skip(at + 1)),
        None => None,
    }
}

/// The name of the service with this resource name:
/// `arn:aws:ecs:us-east-1:xxxxxxx:service/ecs-cluster/service-name` gives
/// `service-name`.
pub open spec fn service_name(arn: Seq<char>) -> Option<Seq<char>> {
    match after_last_slash(arn) {
        Some(name) => Some(lowercase(name)),
        None => None,
    }
}

/// The names of the services among resource names that have one, in their order.
pub open spec fn service_names(arns: Seq<Seq<char>>) -> Seq<Seq<char>>
    decreases arns.len(),
{
    if arns.len() == 0 {
        Seq::empty()
    } else {
        match service_name(arns.last()) {
            Some(name) => service_names(arns.drop_last()).push(name),
            None => service_names(arns.drop_last()),
        }
    }
}

/// What follows the last slash of a text.
pub fn split_after_last_slash(text: &str) -> (rest: Option<&str>)
    ensures
        match rest {
            Some(rest) => after_last_slash(text@) == Some(rest@),
            None => after_last_slash(text@) is None,
        },
{
    proof {
        text@.index_of_last_ensures('/');
    }
    let length = text.unicode_len();
    let mut last: Option<usize> = None;
    let mut at: usize = 0;
    let mut rest = text.chars();
    loop
        invariant_except_break
            rest.remaining() == text@.skip(at as int),
        invariant
            length == text@.len(),
            at <= length,
            match last {
                Some(found) => {
                    &&& found < at
                    &&& text@[found as int] == '/'
                    &&& forall|i: int| found < i < at ==> text@[i] != '/'
                },
                None => forall|i: int| 0 <= i < at ==> text@[i] != '/',
            },
        ensures
            at == length,
        decreases length - at,
    {
        match rest.next() {
            Some(c) => {
                if c == '/' {
                    last = Some(at);
                }
                at = at + 1;
            },
            None => {
                break;
            },
        }
    }
    match last {
        Some(found) => {
            let name = text.substring_char(found + 1, length);
            assert(name@ =~= text@.skip(found + 1));
            assert(text@.contains('/'));
            Some(name)
        },
        None => None,
    }
}

/// The name of the service with this resource name, in lower case.
pub fn parse_arn_to_name(arn: String) -> (name: Option<String>)
    ensures
        match name {
            Some(name) => {
                &&& service_name(arn@) == Some(name@)
                &&& is_lowercase_of(name@, after_last_slash(arn@)->0)
            },
            None => service_name(arn@) is None,
        },
{
    match split_after_last_slash(arn.as_str()) {
        Some(name) => Some(to_lowercase(name)),
        None => None,
    }
}

/// The names of the services with these resource names. Those without a slash
/// are passed over.
pub fn parse_service_names(arns: Vec<String>) -> (names: Vec<String>)
    ensures
        texts(names@) == service_names(texts(arns@)),
        forall|j: int|
            0 <= j < arns@.len() ==> (service_name(#[trigger] arns@[j]@) matches Some(name)
                ==> is_lowercase_of(name, after_last_slash(arns@[j]@)->0)),
{
    let mut names: Vec<String> = Vec::new();
    let mut i: usize = 0;
    assert(texts(names@) =~= service_names(texts(arns@).take(0)));
    while i < arns.len()
        invariant
            i <= arns.len(),
            texts(names@) == service_names(texts(arns@).take(i as int)),
            forall|j: int|
                0 <= j < i ==> (service_name(#[trigger] arns@[j]@) matches Some(name)
                    ==> is_lowercase_of(name, after_last_slash(arns@[j]@)->0)),
        decreases arns.len() - i,
    {
        let ghost before = names@;
        proof {
            let more = texts(arns@).take(i + 1);
            assert(more.drop_last() =~= texts(arns@).take(i as int));
            assert(more.last() == arns@[i as int]@);
        }
        if let Some(name) = parse_arn_to_name(arns[i].clone()) {
            let ghost text = name@;
            names.push(name);
            assert(texts(names@) =~= texts(before).push(text));
        }
        i = i + 1;
    }
    assert(texts(arns@).take(i as int) =~= texts(arns@));
    names
}

/// Only what follows the last slash is the name: `rest` without a slash behind any
/// front and a slash gives the name `rest` in lower case.
pub proof fn law_name_after_last_slash(
    arn: String,
    name: Option<String>,
    front: Seq<char>,
    rest: Seq<char>,
)
    requires
        call_ensures(parse_arn_to_name, (arn,), name),
        arn@ == front.push('/') + rest,
        !rest.contains('/'),
    ensures
        name matches Some(name) && is_lowercase_of(name@, rest),
{
    lemma_after_slash(arn@, front, rest);
}

/// A resource name without a slash names no service.
pub proof fn law_no_name_without_slash(arn: String, name: Option<String>)
    requires
        call_ensures(parse_arn_to_name, (arn,), name),
        !arn@.contains('/'),
    ensures
        name is None,
{
    arn@.index_of_last_ensures('/');
}

proof fn lemma_after_slash(text: Seq<char>, front: Seq<char>, rest: Seq<char>)
    requires
        text == front.push('/') + rest,
        !rest.contains('/'),
    ensures
        after_last_slash(text) == Some(rest),
{
    let n = front.len() as int;
    text.index_of_last_ensures('/');
    assert(text[n] == '/');
    assert(text.contains('/'));
    let at = text.index_of_last('/')->0;
    if at > n {
        assert(rest[at - n - 1] == text[at]);
    }
    assert(text.skip(n + 1) =~= rest);
}

/// No service is lost: the names found are those of exactly the resource names with a
/// slash, in their order.
pub proof fn law_every_service_is_named(arns: Vec<String>, names: Vec<String>) -> (places: Seq<
    int,
>)
    requires
        call_ensures(parse_service_names, (arns,), names),
    ensures
        are_places(places, arns@.len()),
        names@.len() == places.len(),
        forall|i: int|
            0 <= i < names@.len() ==> after_last_slash(arns@[#[trigger] places[i]]@) is Some
                && is_lowercase_of(names@[i]@, after_last_slash(arns@[places[i]]@)->0),
        forall|t: int|
            0 <= t < arns@.len() && #[trigger] arns@[t]@.contains('/') ==> places.contains(t),
{
    let all = texts(arns@);
    let places = lemma_named(all);
    assert forall|i: int| 0 <= i < names@.len() implies after_last_slash(
        arns@[#[trigger] places[i]]@,
    ) is Some && is_lowercase_of(names@[i]@, after_last_slash(arns@[places[i]]@)->0) by {
        assert(texts(names@)[i] == names@[i]@);
        assert(all[places[i]] == arns@[places[i]]@);
    }
    assert forall|t: int| 0 <= t < arns@.len() && #[trigger] arns@[t]@.contains(
        '/',
    ) implies places.contains(t) by {
        assert(all[t] == arns@[t]@);
        arns@[t]@.index_of_last_ensures('/');
    }
    assert(texts(names@).len() == names@.len());
    places
}

/// Where the names come from.
pub proof fn lemma_named(arns: Seq<Seq<char>>) -> (places: Seq<int>)
    ensures
        are_places(places, arns.len()),
        service_names(arns).len() == places.len(),
        forall|i: int|
            0 <= i < places.len() ==> service_name(arns[#[trigger] places[i]]) == Some(
                service_names(arns)[i],
            ),
        forall|t: int|
            0 <= t < arns.len() && service_name(#[trigger] arns[t]) is Some ==> places.contains(t),
    decreases arns.len(),
{
    if arns.len() == 0 {
        Seq::empty()
    } else {
        let front = arns.drop_last();
        let n = arns.len() - 1;
        let before = lemma_named(front);
        let places = if service_name(arns.last()) is Some {
            before.push(n)
        } else {
            before
        };
        assert forall|i: int| 0 <= i < places.len() implies service_name(
            arns[#[trigger] places[i]],
        ) == Some(service_names(arns)[i]) by {
            if i < before.len() {
                assert(places[i] == before[i]);
                assert(front[before[i]] == arns[before[i]]);
            }
        }
        assert forall|t: int| 0 <= t < arns.len() && service_name(
            #[trigger] arns[t],
        ) is Some implies places.contains(t) by {
            if t < n {
                assert(front[t] == arns[t]);
                let k = choose|k: int| 0 <= k < before.len() && before[k] == t;
                assert(places[k] == t);
            } else {
                assert(places[before.len() as int] == n);
            }
        }
        places
    }
}

/// A text splits behind its last slash: behind any front and a slash stands a rest
/// without a slash. A text without a slash does not split.
pub proof fn law_split_after_last_slash(
    text: &str,
    split: Option<&str>,
    front: Seq<char>,
    rest: Seq<char>,
)
    requires
        call_ensures(split_after_last_slash, (text,), split),
        !rest.contains('/'),
    ensures
        text@ == front.push('/') + rest ==> (split matches Some(found) && found@ == rest),
        text@ == rest ==> split is None,
{
    if text@ == front.push('/') + rest {
        lemma_after_slash(text@, front, rest);
    }
    text@.index_of_last_ensures('/');
}

} // verus!
