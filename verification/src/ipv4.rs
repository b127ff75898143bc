//! The dotted text of IPv4 addresses, such as `10.1.0.7`. An address is the
//! number that its four octets make, the first of them being the highest.

use vstd::prelude::*;
use vstd::std_specs::iter::IteratorSpec;

verus! {

/// The character of a decimal digit.
pub open spec fn digit(value: nat) -> char {
    ('0' as int + value) as char
}

/// Whether a character is a decimal digit.
pub open spec fn is_digit(c: char) -> bool {
    '0' as int <= c as int <= '9' as int
}

/// A number in decimal, without leading zeros.
pub open spec fn decimal(value: nat) -> Seq<char>
    decreases value,
{
    if value < 10 {
        seq![digit(value)]
    } else {
        decimal(value / 10).push(digit(value % 10))
    }
}

/// Numbers in decimal with dots between them.
pub open spec fn joined(numbers: Seq<nat>) -> Seq<char>
    decreases numbers.len(),
{
    if numbers.len() == 0 {
        Seq::empty()
    } else if numbers.len() == 1 {
        decimal(numbers[0])
    } else {
        joined(numbers.drop_last()).push('.') + decimal(numbers.last())
    }
}

/// The four octets of an address.
pub open spec fn octets(address: u32) -> Seq<nat> {
    seq![
        address as nat / 0x100_0000,
        address as nat / 0x1_0000 % 0x100,
        address as nat / 0x100 % 0x100,
        address as nat % 0x100,
    ]
}

/// The dotted text of an address.
pub open spec fn dotted(address: u32) -> Seq<char> {
    joined(octets(address))
}

/// The decimal text of an octet: up to three digits, the first of them no zero
/// unless it stands alone.
proof fn lemma_decimal_octet(value: nat)
    requires
        value < 0x100,
    ensures
        value < 10 ==> decimal(value) == seq![digit(value)],
        10 <= value < 100 ==> decimal(value) == seq![digit(value / 10), digit(value % 10)],
        100 <= value ==> decimal(value) == seq![
            digit(value / 100),
            digit(value / 10 % 10),
            digit(value % 10),
        ],
        forall|i: int| 0 <= i < decimal(value).len() ==> is_digit(#[trigger] decimal(value)[i]),
{
    reveal_with_fuel(decimal, 3);
    if 10 <= value < 100 {
        assert(decimal(value) =~= seq![digit(value / 10), digit(value % 10)]);
    } else if 100 <= value {
        assert(value / 10 / 10 == value / 100);
        assert(decimal(value) =~= seq![
            digit(value / 100),
            digit(value / 10 % 10),
            digit(value % 10),
        ]);
    }
}

/// Octets with the same decimal text are the same.
proof fn lemma_decimal_octet_injective(a: nat, b: nat)
    requires
        a < 0x100,
        b < 0x100,
        decimal(a) == decimal(b),
    ensures
        a == b,
{
    lemma_decimal_octet(a);
    lemma_decimal_octet(b);
    let text = decimal(a);
    assert(text.len() == 1 || text.len() == 2 || text.len() == 3);
    if text.len() == 1 {
        assert(text[0] == digit(a) && text[0] == digit(b));
    } else if text.len() == 2 {
        assert(text[0] == digit(a / 10) && text[0] == digit(b / 10));
        assert(text[1] == digit(a % 10) && text[1] == digit(b % 10));
    } else {
        assert(text[0] == digit(a / 100) && text[0] == digit(b / 100));
        assert(text[1] == digit(a / 10 % 10) && text[1] == digit(b / 10 % 10));
        assert(text[2] == digit(a % 10) && text[2] == digit(b % 10));
    }
}

/// From `at` to `end` stands the decimal text of `value`, with no digit after it.
spec fn octet_at(text: Seq<char>, at: int, end: int, value: nat) -> bool {
    &&& value < 0x100
    &&& 0 <= at <= end <= text.len()
    &&& text.subrange(at, end) == decimal(value)
    &&& end == text.len() || !is_digit(text[end])
}

/// There is at most one octet at a place.
proof fn lemma_octet_at_unique(text: Seq<char>, at: int, a: nat, a_end: int, b: nat, b_end: int)
    requires
        octet_at(text, at, a_end, a),
        octet_at(text, at, b_end, b),
    ensures
        a == b,
        a_end == b_end,
{
    lemma_decimal_octet(a);
    lemma_decimal_octet(b);
    if a_end < b_end {
        assert(decimal(b)[a_end - at] == text[a_end]);
    } else if b_end < a_end {
        assert(decimal(a)[b_end - at] == text[b_end]);
    }
    lemma_decimal_octet_injective(a, b);
}

/// Reads the octet at a place.
fn read_octet(text: &Vec<char>, at: usize) -> (read: Option<(u8, usize)>)
    requires
        at <= text.len(),
    ensures
        match read {
            Some((value, end)) => octet_at(text@, at as int, end as int, value as nat),
            None => forall|value: nat, end: int| !octet_at(text@, at as int, end, value),
        },
{
    let mut end: usize = at;
    let mut value: u32 = 0;
    while end < text.len() && end - at < 3 && '0' <= text[end] && text[end] <= '9'
        invariant
            at <= end <= text.len(),
            end - at <= 3,
            forall|i: int| at <= i < end ==> is_digit(#[trigger] text@[i]),
            end == at ==> value == 0,
            end == at + 1 ==> value == text@[at as int] as int - '0' as int,
            end == at + 2 ==> value == 10 * (text@[at as int] as int - '0' as int) + (
            text@[at + 1] as int - '0' as int),
            end == at + 3 ==> value == 100 * (text@[at as int] as int - '0' as int) + 10 * (
            text@[at + 1] as int - '0' as int) + (text@[at + 2] as int - '0' as int),
        decreases text.len() - end,
    {
        value = value * 10 + (text[end] as u32 - '0' as u32);
        end = end + 1;
    }
    let long = end < text.len() && '0' <= text[end] && text[end] <= '9';
    let padded = end - at > 1 && text[at] == '0';
    if end == at || long || padded || value > 255 {
        proof {
            assert forall|number: nat, stop: int| !octet_at(text@, at as int, stop, number) by {
                if octet_at(text@, at as int, stop, number) {
                    lemma_decimal_octet(number);
                    let digits = decimal(number);
                    assert(text@.subrange(at as int, stop).len() == digits.len());
                    assert forall|i: int| 0 <= i < digits.len() implies #[trigger] text@[at + i] == digits[i] by {
                        assert(text@.subrange(at as int, stop)[i] == digits[i]);
                    }
                    assert(digits[0] == text@[at as int]);
                    if stop < end {
                        assert(is_digit(text@[stop]));
                    } else if end < stop {
                        assert(is_digit(digits[end - at]));
                        assert(text@[at + (end - at)] == digits[end - at]);
                    }
                    if digits.len() > 1 {
                        assert(digits[1] == text@[at + 1]);
                    }
                    if digits.len() > 2 {
                        assert(digits[2] == text@[at + 2]);
                    }
                }
            }
        }
        return None;
    }
    proof {
        lemma_decimal_octet(value as nat);
        let part = text@.subrange(at as int, end as int);
        assert(part.len() == end - at);
        assert(part[0] == text@[at as int]);
        if part.len() > 1 {
            assert(part[1] == text@[at + 1]);
        }
        if part.len() > 2 {
            assert(part[2] == text@[at + 2]);
        }
        assert(part =~= decimal(value as nat));
    }
    Some((value as u8, end))
}

/// Where the number at place `i` stands in numbers joined by dots.
proof fn lemma_joined_place(numbers: Seq<nat>, i: int)
    requires
        0 <= i < numbers.len(),
    ensures
        ({
            let text = joined(numbers);
            let before = joined(numbers.take(i)).len() as int;
            let at = if i == 0 {
                0
            } else {
                before + 1
            };
            let end = joined(numbers.take(i + 1)).len() as int;
            &&& i > 0 ==> before < text.len() && text[before] == '.'
            &&& end == at + decimal(numbers[i]).len()
            &&& 0 <= at <= end <= text.len()
            &&& text.subrange(at, end) == decimal(numbers[i])
            &&& end == text.len() || text[end] == '.'
            &&& i + 1 == numbers.len() ==> end == text.len()
        }),
    decreases numbers.len(),
{
    let text = joined(numbers);
    let n = numbers.len() as int;
    let front = numbers.drop_last();
    assert(numbers.take(n) =~= numbers);
    assert(numbers.take(n - 1) =~= front);
    if i == n - 1 {
        if n == 1 {
            assert(text.subrange(0, text.len() as int) =~= text);
        } else {
            let before = joined(front);
            assert(text.subrange(before.len() as int + 1, text.len() as int) =~= decimal(numbers[i]));
        }
    } else {
        lemma_joined_place(front, i);
        assert(front.take(i) =~= numbers.take(i));
        assert(front.take(i + 1) =~= numbers.take(i + 1));
        let shorter = joined(front);
        let before = joined(numbers.take(i)).len() as int;
        let at = if i == 0 {
            0
        } else {
            before + 1
        };
        let end = joined(numbers.take(i + 1)).len() as int;
        assert(text =~= shorter.push('.') + decimal(numbers.last()));
        assert(text.subrange(at, end) =~= shorter.subrange(at, end));
    }
}

/// Different addresses have different texts, and each text gives its address
/// back.
pub proof fn law_dotted_injective(a: u32, b: u32)
    requires
        dotted(a) == dotted(b),
    ensures
        a == b,
{
    lemma_same_numbers(octets(a), octets(b), 4);
    assert(octets(a).take(4) =~= octets(a));
    assert(octets(b).take(4) =~= octets(b));
    assert(octets(a)[0] == octets(b)[0]);
    assert(octets(a)[1] == octets(b)[1]);
    assert(octets(a)[2] == octets(b)[2]);
    assert(octets(a)[3] == octets(b)[3]);
}

/// Octets that are joined to the same text agree.
proof fn lemma_same_numbers(a: Seq<nat>, b: Seq<nat>, count: int)
    requires
        a.len() == b.len(),
        0 <= count <= a.len(),
        forall|i: int| 0 <= i < a.len() ==> #[trigger] a[i] < 0x100,
        forall|i: int| 0 <= i < b.len() ==> #[trigger] b[i] < 0x100,
        joined(a) == joined(b),
    ensures
        a.take(count) == b.take(count),
    decreases count,
{
    if count > 0 {
        let i = count - 1;
        lemma_same_numbers(a, b, i);
        lemma_joined_place(a, i);
        lemma_joined_place(b, i);
        let text = joined(a);
        let before = joined(a.take(i)).len() as int;
        let at = if i == 0 {
            0
        } else {
            before + 1
        };
        let a_end = joined(a.take(i + 1)).len() as int;
        let b_end = joined(b.take(i + 1)).len() as int;
        assert(octet_at(text, at, a_end, a[i]));
        assert(octet_at(text, at, b_end, b[i]));
        lemma_octet_at_unique(text, at, a[i], a_end, b[i], b_end);
        assert(a.take(count) =~= a.take(i).push(a[i]));
        assert(b.take(count) =~= b.take(i).push(b[i]));
    } else {
        assert(a.take(0) =~= b.take(0));
    }
}

/// The characters of a string.
fn characters(text: &str) -> (all: Vec<char>)
    ensures
        all@ == text@,
{
    let mut all: Vec<char> = Vec::new();
    let mut rest = text.chars();
    loop
        invariant
            all@.len() <= text@.len(),
            all@ == text@.take(all@.len() as int),
            rest.remaining() == text@.skip(all@.len() as int),
        decreases text@.len() - all@.len(),
    {
        match rest.next() {
            Some(c) => {
                all.push(c);
                assert(all@ =~= text@.take(all@.len() as int));
                assert(rest.remaining() =~= text@.skip(all@.len() as int));
            },
            None => {
                assert(all@ =~= text@);
                return all;
            },
        }
    }
}

/// Every address with this text has these numbers as its first octets.
spec fn begins(text: Seq<char>, numbers: Seq<nat>) -> bool {
    forall|address: u32|
        text == #[trigger] dotted(address) ==> numbers == octets(address).take(numbers.len() as int)
}

/// Where the next octet starts.
spec fn next_start(numbers: Seq<nat>) -> int {
    if numbers.len() == 0 {
        0
    } else {
        joined(numbers).len() as int + 1
    }
}

/// The next octet of an address stands where its first octets end.
proof fn lemma_next_octet(text: Seq<char>, numbers: Seq<nat>, address: u32)
    requires
        text == dotted(address),
        numbers.len() < 4,
        begins(text, numbers),
    ensures
        numbers.len() > 0 ==> joined(numbers).len() < text.len() && text[joined(numbers).len() as int]
            == '.',
        octet_at(
            text,
            next_start(numbers),
            joined(octets(address).take(numbers.len() as int + 1)).len() as int,
            octets(address)[numbers.len() as int],
        ),
{
    let count = numbers.len() as int;
    lemma_joined_place(octets(address), count);
    assert(octets(address)[count] < 0x100);
}

/// One more octet that was read is the next octet of every address with this
/// text, and stands in the text behind the first ones.
proof fn lemma_one_more(text: Seq<char>, numbers: Seq<nat>, value: nat, end: int)
    requires
        numbers.len() < 4,
        begins(text, numbers),
        joined(numbers).len() <= text.len(),
        text.take(joined(numbers).len() as int) == joined(numbers),
        numbers.len() > 0 ==> joined(numbers).len() < text.len() && text[joined(numbers).len() as int]
            == '.',
        octet_at(text, next_start(numbers), end, value),
    ensures
        begins(text, numbers.push(value)),
        text.take(end) == joined(numbers.push(value)),
        joined(numbers.push(value)).len() == end,
{
    let count = numbers.len() as int;
    let more = numbers.push(value);
    let start = next_start(numbers);
    assert(more.drop_last() =~= numbers);
    assert(text.take(end) =~= text.take(start) + text.subrange(start, end));
    if count > 0 {
        assert(text.take(start) =~= joined(numbers).push('.'));
    } else {
        assert(text.take(start) =~= Seq::<char>::empty());
    }
    assert(text.take(end) =~= joined(more));
    assert forall|address: u32| text == #[trigger] dotted(address) implies more == octets(
        address,
    ).take(more.len() as int) by {
        lemma_next_octet(text, numbers, address);
        let wanted = octets(address);
        let stop = joined(wanted.take(count + 1)).len() as int;
        lemma_octet_at_unique(text, start, value, end, wanted[count], stop);
        assert(more =~= wanted.take(count + 1));
    }
}

/// The octets of the number that four octets make.
proof fn lemma_octets(a: u8, b: u8, c: u8, d: u8)
    ensures
        a * 0x100_0000 + b * 0x1_0000 + c * 0x100 + d <= u32::MAX,
        octets((a * 0x100_0000 + b * 0x1_0000 + c * 0x100 + d) as u32) == seq![
            a as nat,
            b as nat,
            c as nat,
            d as nat,
        ],
{
    let n: int = a * 0x100_0000 + b * 0x1_0000 + c * 0x100 + d;
    assert(n <= 0xffff_ffff);
    assert(n / 0x100_0000 == a);
    assert(n / 0x1_0000 == a * 0x100 + b);
    assert(n / 0x100 == a * 0x1_0000 + b * 0x100 + c);
    assert((a * 0x100 + b) % 0x100 == b);
    assert((a * 0x1_0000 + b * 0x100 + c) % 0x100 == c);
    assert(n % 0x100 == d);
    assert(octets(n as u32) =~= seq![a as nat, b as nat, c as nat, d as nat]);
}

/// Reads an address from its dotted text: four octets in decimal, without
/// leading zeros, with dots between them and nothing around them.
pub fn parse_ipv4(text: &str) -> (address: Option<u32>)
    ensures
        match address {
            Some(address) => text@ == dotted(address),
            None => forall|address: u32| text@ != #[trigger] dotted(address),
        },
{
    let all = characters(text);
    let mut parts: Vec<u8> = Vec::new();
    let ghost mut numbers: Seq<nat> = Seq::empty();
    let mut at: usize = 0;
    proof {
        assert(all@.take(0) =~= joined(numbers));
        assert forall|address: u32| text@ == #[trigger] dotted(address) implies numbers == octets(
            address,
        ).take(0) by {
            assert(numbers =~= octets(address).take(0));
        }
    }
    while parts.len() < 4
        invariant
            all@ == text@,
            parts@.len() == numbers.len() <= 4,
            forall|i: int| 0 <= i < numbers.len() ==> #[trigger] numbers[i] == parts@[i],
            at <= all.len(),
            at == joined(numbers).len(),
            all@.take(at as int) == joined(numbers),
            begins(text@, numbers),
        decreases 4 - parts.len(),
    {
        let mut start = at;
        if parts.len() > 0 {
            if at == all.len() || all[at] != '.' {
                proof {
                    assert forall|address: u32| text@ != #[trigger] dotted(address) by {
                        if text@ == dotted(address) {
                            lemma_next_octet(text@, numbers, address);
                        }
                    }
                }
                return None;
            }
            start = at + 1;
        }
        assert(start == next_start(numbers));
        match read_octet(&all, start) {
            None => {
                proof {
                    assert forall|address: u32| text@ != #[trigger] dotted(address) by {
                        if text@ == dotted(address) {
                            lemma_next_octet(text@, numbers, address);
                        }
                    }
                }
                return None;
            },
            Some((value, end)) => {
                parts.push(value);
                proof {
                    lemma_one_more(text@, numbers, value as nat, end as int);
                    numbers = numbers.push(value as nat);
                }
                at = end;
            },
        }
    }
    if at != all.len() {
        proof {
            assert forall|address: u32| text@ != #[trigger] dotted(address) by {
                if text@ == dotted(address) {
                    assert(octets(address).take(4) =~= octets(address));
                }
            }
        }
        return None;
    }
    proof {
        lemma_octets(parts@[0], parts@[1], parts@[2], parts@[3]);
        assert(numbers =~= seq![
            parts@[0] as nat,
            parts@[1] as nat,
            parts@[2] as nat,
            parts@[3] as nat,
        ]);
        assert(all@.take(at as int) =~= all@);
    }
    Some(
        parts[0] as u32 * 0x100_0000 + parts[1] as u32 * 0x1_0000 + parts[2] as u32 * 0x100
            + parts[3] as u32,
    )
}

/// The decimal text of an octet.
pub fn decimal_text(value: u8) -> (text: String)
    ensures
        text@ == decimal(value as nat),
{
    proof {
        lemma_decimal_octet(value as nat);
    }
    let mut text = String::new();
    if value >= 100 {
        text.append(digit_text(value / 100));
    }
    if value >= 10 {
        text.append(digit_text(value / 10 % 10));
    }
    text.append(digit_text(value % 10));
    assert(text@ =~= decimal(value as nat));
    text
}

/// The text of a decimal digit.
fn digit_text(value: u8) -> (text: &'static str)
    requires
        value < 10,
    ensures
        text@ == seq![digit(value as nat)],
{
    proof {
        reveal_strlit("0");
        reveal_strlit("1");
        reveal_strlit("2");
        reveal_strlit("3");
        reveal_strlit("4");
        reveal_strlit("5");
        reveal_strlit("6");
        reveal_strlit("7");
        reveal_strlit("8");
        reveal_strlit("9");
    }
    let text = match value {
        0 => "0",
        1 => "1",
        2 => "2",
        3 => "3",
        4 => "4",
        5 => "5",
        6 => "6",
        7 => "7",
        8 => "8",
        _ => "9",
    };
    assert(text@ =~= seq![digit(value as nat)]);
    text
}

/// The dotted text of an address.
pub fn dotted_text(address: u32) -> (text: String)
    ensures
        text@ == dotted(address),
{
    let a: u8 = (address / 0x100_0000) as u8;
    let b: u8 = (address / 0x1_0000 % 0x100) as u8;
    let c: u8 = (address / 0x100 % 0x100) as u8;
    let d: u8 = (address % 0x100) as u8;
    let mut text = decimal_text(a);
    text.append(".");
    text.append(decimal_text(b).as_str());
    text.append(".");
    text.append(decimal_text(c).as_str());
    text.append(".");
    text.append(decimal_text(d).as_str());
    proof {
        reveal_strlit(".");
        let all = octets(address);
        assert(all.drop_last().drop_last().drop_last() =~= seq![a as nat]);
        assert(all.drop_last().drop_last() =~= seq![a as nat, b as nat]);
        assert(all.drop_last() =~= seq![a as nat, b as nat, c as nat]);
        reveal_with_fuel(joined, 4);
        assert(text@ =~= joined(all));
    }
    text
}

/// The number that decimal digits stand for.
pub open spec fn number_of(digits: Seq<char>) -> int {
    digits.fold_left(0, |number: int, c: char| 10 * number + (c as int - '0' as int))
}

/// `digits` is how people write a number: digits only, at least one, and no zero in
/// front of others.
pub open spec fn writes(digits: Seq<char>, number: nat) -> bool {
    &&& digits.len() > 0
    &&& forall|i: int|
        0 <= i < digits.len() ==> '0' as int <= #[trigger] digits[i] as int <= '9' as int
    &&& digits.len() > 1 ==> digits[0] != '0'
    &&& number_of(digits) == number
}

/// The decimal text of a number is the one way to write it.
pub proof fn law_decimal_writes(digits: Seq<char>, number: nat)
    ensures
        digits == decimal(number) <==> writes(digits, number),
    decreases digits.len() + number,
{
    if digits == decimal(number) {
        lemma_decimal_writes(number);
    }
    if writes(digits, number) {
        lemma_writes_decimal(digits, number);
    }
}

proof fn lemma_number_push(digits: Seq<char>)
    requires
        digits.len() > 0,
    ensures
        number_of(digits) == 10 * number_of(digits.drop_last()) + (digits.last() as int
            - '0' as int),
{
    reveal(Seq::fold_left);
}

proof fn lemma_decimal_writes(number: nat)
    ensures
        writes(decimal(number), number),
        number > 0 ==> decimal(number)[0] != '0',
    decreases number,
{
    let digits = decimal(number);
    lemma_number_push(digits);
    if number < 10 {
        assert(digits.drop_last() =~= Seq::<char>::empty());
        reveal(Seq::fold_left);
        assert(number_of(Seq::<char>::empty()) == 0);
    } else {
        lemma_decimal_writes(number / 10);
        let front = decimal(number / 10);
        assert(digits.drop_last() =~= front);
        assert forall|i: int| 0 <= i < digits.len() implies '0' as int <= #[trigger] digits[i] as int
            <= '9' as int by {
            if i < front.len() {
                assert(digits[i] == front[i]);
            }
        }
        assert(digits[0] == front[0]);
    }
}

proof fn lemma_writes_decimal(digits: Seq<char>, number: nat)
    requires
        writes(digits, number),
    ensures
        digits == decimal(number),
    decreases digits.len(),
{
    lemma_number_push(digits);
    let front = digits.drop_last();
    let last = digits.last();
    assert(digits[digits.len() - 1] == last);
    if digits.len() == 1 {
        reveal(Seq::fold_left);
        assert(front =~= Seq::<char>::empty());
        assert(number_of(Seq::<char>::empty()) == 0);
        assert(digits =~= decimal(number));
    } else {
        assert forall|i: int| 0 <= i < front.len() implies '0' as int <= #[trigger] front[i] as int
            <= '9' as int by {
            assert(front[i] == digits[i]);
        }
        assert(front[0] == digits[0]);
        lemma_number_positive(front);
        lemma_writes_decimal(front, number_of(front) as nat);
        assert(number / 10 == number_of(front));
        assert(digits =~= front.push(last));
    }
}

/// Digits without a zero in front stand for a number that is not zero.
proof fn lemma_number_positive(digits: Seq<char>)
    requires
        digits.len() > 0,
        forall|i: int|
            0 <= i < digits.len() ==> '0' as int <= #[trigger] digits[i] as int <= '9' as int,
        digits[0] != '0',
    ensures
        number_of(digits) > 0,
    decreases digits.len(),
{
    lemma_number_push(digits);
    let front = digits.drop_last();
    if digits.len() == 1 {
        reveal(Seq::fold_left);
        assert(front =~= Seq::<char>::empty());
        assert(number_of(Seq::<char>::empty()) == 0);
    } else {
        assert forall|i: int| 0 <= i < front.len() implies '0' as int <= #[trigger] front[i] as int
            <= '9' as int by {
            assert(front[i] == digits[i]);
        }
        assert(front[0] == digits[0]);
        assert(digits.last() == digits[digits.len() - 1]);
        lemma_number_positive(front);
    }
}

/// The text of an address is its four octets, written as people write numbers, with
/// dots between them.
pub proof fn law_dotted(
    address: u32,
    a: Seq<char>,
    b: Seq<char>,
    c: Seq<char>,
    d: Seq<char>,
    w: nat,
    x: nat,
    y: nat,
    z: nat,
)
    requires
        w < 256,
        x < 256,
        y < 256,
        z < 256,
        writes(a, w),
        writes(b, x),
        writes(c, y),
        writes(d, z),
        address == 0x100_0000 * w + 0x1_0000 * x + 0x100 * y + z,
    ensures
        dotted(address) == a.push('.') + b.push('.') + c.push('.') + d,
{
    law_decimal_writes(a, w);
    law_decimal_writes(b, x);
    law_decimal_writes(c, y);
    law_decimal_writes(d, z);
    lemma_octets(w as u8, x as u8, y as u8, z as u8);
    lemma_joined_four(w, x, y, z);
}

proof fn lemma_joined_four(w: nat, x: nat, y: nat, z: nat)
    ensures
        joined(seq![w, x, y, z]) == decimal(w).push('.') + decimal(x).push('.') + decimal(
            y,
        ).push('.') + decimal(z),
{
    let one = seq![w];
    let two = seq![w, x];
    let three = seq![w, x, y];
    let four = seq![w, x, y, z];
    assert(four.drop_last() =~= three);
    assert(three.drop_last() =~= two);
    assert(two.drop_last() =~= one);
    let a = decimal(w).push('.');
    let b = decimal(x).push('.');
    let c = decimal(y).push('.');
    let d = decimal(z);
    assert(joined(one) == decimal(w));
    assert(joined(two) == a + decimal(x));
    assert((a + decimal(x)).push('.') =~= a + b);
    assert(joined(three) == a + b + decimal(y));
    assert((a + b + decimal(y)).push('.') =~= a + b + c);
    assert(joined(four) == a + b + c + d);
}

/// The address that is read from a text: a text of four numbers below 256 with dots
/// between them is read as these octets.
pub proof fn law_parse_ipv4(
    text: &str,
    address: Option<u32>,
    a: Seq<char>,
    b: Seq<char>,
    c: Seq<char>,
    d: Seq<char>,
    w: nat,
    x: nat,
    y: nat,
    z: nat,
)
    requires
        call_ensures(parse_ipv4, (text,), address),
        w < 256,
        x < 256,
        y < 256,
        z < 256,
        writes(a, w),
        writes(b, x),
        writes(c, y),
        writes(d, z),
        text@ == a.push('.') + b.push('.') + c.push('.') + d,
    ensures
        address matches Some(address) && address == 0x100_0000 * w + 0x1_0000 * x + 0x100 * y + z,
{
    let number = (0x100_0000 * w + 0x1_0000 * x + 0x100 * y + z) as u32;
    law_dotted(number, a, b, c, d, w, x, y, z);
    assert(text@ == dotted(number));
    if let Some(found) = address {
        law_dotted_injective(found, number);
    }
}

/// No other text is read as an address.
pub proof fn law_only_dotted_addresses(text: &str, address: Option<u32>) -> (parts: (
    Seq<char>,
    Seq<char>,
    Seq<char>,
    Seq<char>,
))
    requires
        call_ensures(parse_ipv4, (text,), address),
        address is Some,
    ensures
        text@ == parts.0.push('.') + parts.1.push('.') + parts.2.push('.') + parts.3,
        writes(parts.0, address->0 as nat / 0x100_0000),
        writes(parts.1, address->0 as nat / 0x1_0000 % 0x100),
        writes(parts.2, address->0 as nat / 0x100 % 0x100),
        writes(parts.3, address->0 as nat % 0x100),
{
    let number = address->0 as nat;
    let w = number / 0x100_0000;
    let x = number / 0x1_0000 % 0x100;
    let y = number / 0x100 % 0x100;
    let z = number % 0x100;
    let a = decimal(w);
    let b = decimal(x);
    let c = decimal(y);
    let d = decimal(z);
    law_decimal_writes(a, w);
    law_decimal_writes(b, x);
    law_decimal_writes(c, y);
    law_decimal_writes(d, z);
    law_dotted(address->0, a, b, c, d, w, x, y, z);
    (a, b, c, d)
}

/// What an address is written as is read as that address.
pub proof fn law_written_addresses_are_read(
    address: u32,
    text: String,
    other: &str,
    read: Option<u32>,
)
    requires
        call_ensures(dotted_text, (address,), text),
        other@ == text@,
        call_ensures(parse_ipv4, (other,), read),
    ensures
        read == Some(address),
{
    assert(other@ == dotted(address));
    if let Some(found) = read {
        law_dotted_injective(found, address);
    }
}

/// A number is written as people write it.
pub proof fn law_decimal_text(value: u8, text: String)
    requires
        call_ensures(decimal_text, (value,), text),
    ensures
        writes(text@, value as nat),
{
    law_decimal_writes(text@, value as nat);
}

} // verus!
