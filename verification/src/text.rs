//! Text as sequences of characters: the order of strings and their lower case.

use vstd::prelude::*;
use vstd::std_specs::iter::IteratorSpec;

verus! {

/// How two strings stand to each other.
#[derive(Clone, Copy, PartialEq, Eq, Structural, Debug)]
pub enum Order {
    Before,
    Same,
    After,
}

/// The characters of each string of a sequence.
pub open spec fn texts(items: Seq<String>) -> Seq<Seq<char>> {
    items.map_values(|item: String| item@)
}

/// `a` and `b` agree on their first `i` characters, and there `a` ends or holds
/// the smaller character.
pub open spec fn splits_at(a: Seq<char>, b: Seq<char>, i: int) -> bool {
    &&& 0 <= i <= a.len()
    &&& i < b.len()
    &&& forall|j: int| 0 <= j < i ==> a[j] == b[j]
    &&& i == a.len() || (a[i] as int) < (b[i] as int)
}

/// The lexicographic order of strings by the code points of their characters,
/// which is also the order of their UTF-8 bytes.
pub open spec fn precedes(a: Seq<char>, b: Seq<char>) -> bool {
    exists|i: int| splits_at(a, b, i)
}

/// A string never precedes one that precedes it, nor itself.
pub proof fn lemma_precedes_asymmetric(a: Seq<char>, b: Seq<char>)
    requires
        precedes(a, b),
    ensures
        !precedes(b, a),
        a != b,
{
    let i = choose|i: int| splits_at(a, b, i);
    assert(!precedes(b, a)) by {
        if precedes(b, a) {
            let j = choose|j: int| splits_at(b, a, j);
            if i < j {
                assert(b[i] == a[i]);
            } else if j < i {
                assert(a[j] == b[j]);
            }
        }
    }
    if a == b {
        assert(splits_at(b, a, i));
    }
}

/// The order of strings is transitive.
pub proof fn lemma_precedes_transitive(a: Seq<char>, b: Seq<char>, c: Seq<char>)
    requires
        precedes(a, b),
        precedes(b, c),
    ensures
        precedes(a, c),
{
    let i = choose|i: int| splits_at(a, b, i);
    let j = choose|j: int| splits_at(b, c, j);
    let k = if i < j { i } else { j };
    assert forall|l: int| 0 <= l < k implies a[l] == c[l] by {
        assert(a[l] == b[l]);
        assert(b[l] == c[l]);
    }
    assert(splits_at(a, c, k));
}

/// Of two different strings one precedes the other.
pub proof fn lemma_precedes_total(a: Seq<char>, b: Seq<char>)
    ensures
        a == b || precedes(a, b) || precedes(b, a),
{
    lemma_precedes_total_from(a, b, 0);
}

proof fn lemma_precedes_total_from(a: Seq<char>, b: Seq<char>, i: int)
    requires
        0 <= i <= a.len(),
        i <= b.len(),
        forall|j: int| 0 <= j < i ==> a[j] == b[j],
    ensures
        a == b || precedes(a, b) || precedes(b, a),
    decreases a.len() - i,
{
    if i < a.len() && i < b.len() && a[i] == b[i] {
        lemma_precedes_total_from(a, b, i + 1);
    } else if i == a.len() && i == b.len() {
        assert(a =~= b);
    } else if i < b.len() && (i == a.len() || (a[i] as int) < (b[i] as int)) {
        assert(splits_at(a, b, i));
    } else {
        assert(splits_at(b, a, i));
    }
}

/// Compares two strings.
pub fn compare(a: &str, b: &str) -> (order: Order)
    ensures
        match order {
            Order::Before => precedes(a@, b@),
            Order::Same => a@ == b@,
            Order::After => precedes(b@, a@),
        },
{
    let mut left = a.chars();
    let mut right = b.chars();
    let ghost mut i: int = 0;
    loop
        invariant
            0 <= i <= a@.len(),
            i <= b@.len(),
            forall|j: int| 0 <= j < i ==> a@[j] == b@[j],
            left.remaining() == a@.skip(i),
            right.remaining() == b@.skip(i),
        decreases a@.len() - i,
    {
        let x = left.next();
        let y = right.next();
        match (x, y) {
            (None, None) => {
                assert(a@ =~= b@);
                return Order::Same;
            },
            (None, Some(_)) => {
                assert(splits_at(a@, b@, i));
                return Order::Before;
            },
            (Some(_), None) => {
                assert(splits_at(b@, a@, i));
                return Order::After;
            },
            (Some(c), Some(d)) => {
                if c < d {
                    assert(splits_at(a@, b@, i));
                    return Order::Before;
                }
                if d < c {
                    assert(splits_at(b@, a@, i));
                    return Order::After;
                }
                proof {
                    i = i + 1;
                }
            },
        }
    }
}

/// Whether two strings hold the same characters.
pub fn same_text(a: &str, b: &str) -> (same: bool)
    ensures
        same == (a@ == b@),
{
    match compare(a, b) {
        Order::Same => true,
        Order::Before => {
            proof {
                lemma_precedes_asymmetric(a@, b@);
            }
            false
        },
        Order::After => {
            proof {
                lemma_precedes_asymmetric(b@, a@);
            }
            false
        },
    }
}

/// A text in lower case, as Unicode has it.
pub uninterp spec fn lowercase(text: Seq<char>) -> Seq<char>;

/// The lower case of an ASCII letter, and any other character itself.
pub open spec fn ascii_lower(c: char) -> char {
    if 'A' as int <= c as int <= 'Z' as int {
        (c as int + 32) as char
    } else {
        c
    }
}

/// `lower` is `text` in lower case, letter by letter where it is ASCII.
pub open spec fn is_lowercase_of(lower: Seq<char>, text: Seq<char>) -> bool {
    &&& lower == lowercase(text)
    &&& vstd::utf8::is_ascii_chars(text) ==> lower == text.map_values(|c: char| ascii_lower(c))
}

/// Turns a text to lower case.
///
/// Asks `str::to_lowercase`. Its result is taken to be a function of the text
/// alone, and to be the text with its letters from `A` to `Z` replaced by those
/// from `a` to `z` where all of it is ASCII.
#[verifier::external_body]
pub(crate) fn to_lowercase(text: &str) -> (lower: String)
    ensures
        lower@ == lowercase(text@),
        vstd::utf8::is_ascii_chars(text@) ==> lower@ == text@.map_values(|c: char| ascii_lower(c)),
{
    text.to_lowercase()
}

/// Strings are compared at their first difference, by the code points there. A string
/// comes before its own continuations.
pub proof fn law_compare(a: &str, b: &str, order: Order, i: int)
    requires
        call_ensures(compare, (a, b), order),
        0 <= i <= a@.len(),
        i <= b@.len(),
        forall|j: int| 0 <= j < i ==> a@[j] == b@[j],
    ensures
        i < a@.len() && i < b@.len() && (a@[i] as int) < (b@[i] as int) ==> order is Before,
        i < a@.len() && i < b@.len() && (a@[i] as int) > (b@[i] as int) ==> order is After,
        i == a@.len() && i < b@.len() ==> order is Before,
        i < a@.len() && i == b@.len() ==> order is After,
        i == a@.len() && i == b@.len() ==> order is Same,
{
    if i < b@.len() && (i == a@.len() || (a@[i] as int) < (b@[i] as int)) {
        assert(splits_at(a@, b@, i));
        lemma_precedes_asymmetric(a@, b@);
    } else if i < a@.len() && (i == b@.len() || (b@[i] as int) < (a@[i] as int)) {
        assert(splits_at(b@, a@, i));
        lemma_precedes_asymmetric(b@, a@);
    } else if i == a@.len() && i == b@.len() {
        assert(a@ =~= b@);
        if precedes(a@, b@) {
            lemma_precedes_asymmetric(a@, b@);
        }
        if precedes(b@, a@) {
            lemma_precedes_asymmetric(b@, a@);
        }
    }
}

/// The order of strings is that of a dictionary over code points: what stands before
/// the first difference does not matter, nor what stands behind it.
pub proof fn law_dictionary_order(
    front: Seq<char>,
    c: char,
    d: char,
    rest: Seq<char>,
    other: Seq<char>,
)
    ensures
        (c as int) < (d as int) ==> precedes(front.push(c) + rest, front.push(d) + other),
        (c as int) < (d as int) ==> !precedes(front.push(d) + other, front.push(c) + rest),
        precedes(front, front.push(c) + rest),
        !precedes(front.push(c) + rest, front),
        !precedes(front, front),
{
    let a = front.push(c) + rest;
    let b = front.push(d) + other;
    let n = front.len() as int;
    assert(splits_at(front, a, n));
    lemma_precedes_asymmetric(front, a);
    if (c as int) < (d as int) {
        assert(splits_at(a, b, n));
        lemma_precedes_asymmetric(a, b);
    }
    if precedes(front, front) {
        lemma_precedes_asymmetric(front, front);
    }
}

/// Two strings are the same text where they hold the same characters.
pub proof fn law_same_text(a: &str, b: &str, same: bool)
    requires
        call_ensures(same_text, (a, b), same),
    ensures
        same <==> a@ == b@,
{
}

/// `places` are places in a sequence of `count` items, from front to back.
pub open spec fn are_places(places: Seq<int>, count: nat) -> bool {
    &&& forall|i: int| 0 <= i < places.len() ==> 0 <= #[trigger] places[i] < count
    &&& forall|i: int, j: int|
        0 <= i < j < places.len() ==> #[trigger] places[i] < #[trigger] places[j]
}

} // verus!
