//! The numbers in the names of part files, and the order they give.

use vstd::prelude::*;
use vstd::string::StringExecFns;

verus! {

/// Whether `b` is an ASCII digit.
pub open spec fn is_digit(b: u8) -> bool {
    0x30 <= b <= 0x39
}

/// Whether every byte of `s` is an ASCII digit.
pub open spec fn all_digits(s: Seq<u8>) -> bool {
    forall|i: int| 0 <= i < s.len() ==> is_digit(#[trigger] s[i])
}

/// The number that the decimal digits `s` write.
pub open spec fn digits_value(s: Seq<u8>) -> nat
    decreases s.len(),
{
    if s.len() == 0 {
        0
    } else {
        digits_value(s.drop_last()) * 10 + (s.last() - 0x30) as nat
    }
}

/// The text without a plus sign in front.
pub open spec fn unsigned_part(s: Seq<u8>) -> Seq<u8> {
    if s.len() > 0 && s[0] == 0x2b {
        s.subrange(1, s.len() as int)
    } else {
        s
    }
}

/// The number that `s` writes in decimal, if it writes one: an optional plus
/// sign, then at least one ASCII digit and nothing else.
pub open spec fn decimal(s: Seq<u8>) -> Option<nat> {
    let digits = unsigned_part(s);
    if digits.len() > 0 && all_digits(digits) {
        Some(digits_value(digits))
    } else {
        None
    }
}

/// The number that `s` writes in decimal, if it writes one that is at most
/// `max`.
pub open spec fn decimal_up_to(s: Seq<u8>, max: u64) -> Option<u64> {
    match decimal(s) {
        Some(v) => if v <= max {
            Some(v as u64)
        } else {
            None
        },
        None => None,
    }
}

/// Digits that follow can only make a number greater.
pub proof fn lemma_digits_value_prefix(s: Seq<u8>, k: int)
    requires
        0 <= k <= s.len(),
        all_digits(s),
    ensures
        digits_value(s.subrange(0, k)) <= digits_value(s),
    decreases s.len() - k,
{
    if k < s.len() {
        let t = s.drop_last();
        assert(all_digits(t)) by {
            assert forall|i: int| 0 <= i < t.len() implies is_digit(#[trigger] t[i]) by {
                assert(t[i] == s[i]);
            }
        }
        lemma_digits_value_prefix(t, k);
        assert(t.subrange(0, k) =~= s.subrange(0, k));
        assert(is_digit(s[s.len() - 1]));
    } else {
        assert(s.subrange(0, k) =~= s);
    }
}

/// Reads the decimal number that `text` writes: an optional plus sign, then
/// digits only. Gives `None` where `text` writes no number or one greater
/// than `max`.
pub fn parse_decimal(text: &[u8], max: u64) -> (r: Option<u64>)
    ensures
        r == decimal_up_to(text@, max),
{
    let len = text.len();
    let start: usize = if len > 0 && text[0] == 0x2b {
        1
    } else {
        0
    };
    let ghost digits = unsigned_part(text@);
    assert(digits =~= text@.subrange(start as int, len as int));
    if start == len {
        return None;
    }
    let mut value: u64 = 0;
    let mut i: usize = start;
    while i < len
        invariant
            len == text@.len(),
            start <= i <= len,
            start < len,
            digits == unsigned_part(text@),
            digits == text@.subrange(start as int, len as int),
            all_digits(digits.subrange(0, i - start)),
            value == digits_value(digits.subrange(0, i - start)),
            value <= max,
        decreases len - i,
    {
        let b = text[i];
        assert(b == digits[i - start]);
        if b < 0x30 || b > 0x39 {
            assert(!all_digits(digits));
            return None;
        }
        let d: u64 = (b - 0x30) as u64;
        let ghost next = digits.subrange(0, i - start + 1);
        proof {
            assert(next.drop_last() =~= digits.subrange(0, i - start));
            assert(next.last() == b);
            assert(all_digits(next)) by {
                assert forall|j: int| 0 <= j < next.len() implies is_digit(#[trigger] next[j]) by {
                    if j < next.len() - 1 {
                        assert(next[j] == digits.subrange(0, i - start)[j]);
                    }
                }
            }
        }
        if d > max || value > (max - d) / 10 {
            proof {
                assert(digits_value(next) == value * 10 + d);
                assert(digits_value(next) > max);
                if all_digits(digits) {
                    lemma_digits_value_prefix(digits, i - start + 1);
                }
            }
            return None;
        }
        value = value * 10 + d;
        i += 1;
    }
    assert(digits.subrange(0, len - start) =~= digits);
    Some(value)
}

/// The decimal digits of `n`, most significant first, without leading zeros.
pub open spec fn decimal_digits(n: nat) -> Seq<u8>
    decreases n,
{
    if n < 10 {
        seq![(0x30 + n) as u8]
    } else {
        decimal_digits(n / 10).push((0x30 + n % 10) as u8)
    }
}

/// The characters that ASCII bytes stand for.
pub open spec fn ascii_text(bytes: Seq<u8>) -> Seq<char> {
    bytes.map_values(|b: u8| b as char)
}

/// The name of part `number` of a file: the stem, a dot, the number in
/// decimal, a dot, and the extension, as in `name.2.png`.
pub open spec fn part_name(stem: Seq<char>, number: u32, extension: Seq<char>) -> Seq<char> {
    stem + seq!['.'] + ascii_text(decimal_digits(number as nat)) + seq!['.'] + extension
}

/// The digits of a number are digits, and read back they give the number.
pub proof fn lemma_decimal_digits(n: nat)
    ensures
        decimal_digits(n).len() > 0,
        all_digits(decimal_digits(n)),
        digits_value(decimal_digits(n)) == n,
        decimal(decimal_digits(n)) == Some(n),
    decreases n,
{
    let d = decimal_digits(n);
    if n >= 10 {
        lemma_decimal_digits(n / 10);
        let front = decimal_digits(n / 10);
        assert(d.drop_last() =~= front);
        assert forall|i: int| 0 <= i < d.len() implies is_digit(#[trigger] d[i]) by {
            if i < front.len() {
                assert(d[i] == front[i]);
            }
        }
        assert(d.last() == (0x30 + n % 10) as u8);
        assert(digits_value(d) == digits_value(front) * 10 + (d.last() - 0x30) as nat);
    } else {
        assert(d.drop_last() =~= Seq::<u8>::empty());
        assert(digits_value(d.drop_last()) == 0);
        assert(d.last() == (0x30 + n) as u8);
        assert(digits_value(d) == digits_value(d.drop_last()) * 10 + (d.last() - 0x30) as nat);
    }
    assert(is_digit(d[0]));
    assert(unsigned_part(d) == d);
}

/// The text of one decimal digit.
fn digit_text(d: u64) -> (text: &'static str)
    requires
        d < 10,
    ensures
        text@ == ascii_text(seq![(0x30 + d) as u8]),
{
    proof {
        reveal_strlit("0");
        reveal_strlit("1");
        reveal_strlit("2");
        reveal_strlit("3");
        reveal_strlit("4");
        reveal_strlit("5");
        reveal_strlit("6");
        reveal_strlit("7");
        reveal_strlit("8");
        reveal_strlit("9");
    }
    let text = match d {
        0 => "0",
        1 => "1",
        2 => "2",
        3 => "3",
        4 => "4",
        5 => "5",
        6 => "6",
        7 => "7",
        8 => "8",
        _ => "9",
    };
    assert(text@ =~= ascii_text(seq![(0x30 + d) as u8]));
    text
}

/// Appends the decimal digits of `n` to `text`.
fn append_decimal(text: &mut String, n: u64)
    ensures
        final(text)@ == old(text)@ + ascii_text(decimal_digits(n as nat)),
    decreases n,
{
    if n >= 10 {
        append_decimal(text, n / 10);
    }
    text.append(digit_text(n % 10));
    proof {
        let digits = decimal_digits(n as nat);
        if n >= 10 {
            let front = decimal_digits((n / 10) as nat);
            assert(ascii_text(digits) =~= ascii_text(front) + ascii_text(
                seq![(0x30 + n % 10) as u8],
            ));
            assert(text@ =~= old(text)@ + ascii_text(digits));
        }
    }
}

/// The name of part `number` of a file with the given stem and extension,
/// such as `name.2.png`.
pub fn part_file_name(stem: &str, number: u32, extension: &str) -> (name: String)
    ensures
        name@ == part_name(stem@, number, extension@),
{
    proof {
        reveal_strlit(".");
    }
    let mut name = String::from_str(stem);
    name.append(".");
    append_decimal(&mut name, number as u64);
    name.append(".");
    name.append(extension);
    assert(name@ =~= part_name(stem@, number, extension@));
    name
}

/// Whether number `n1` at place `i1` comes before number `n2` at place `i2`:
/// the lesser number first, and of equal numbers the one that stands first.
pub open spec fn comes_before(n1: u64, i1: int, n2: u64, i2: int) -> bool {
    n1 < n2 || (n1 == n2 && i1 < i2)
}

/// Whether `order` lists exactly the places of `numbers` that hold a number,
/// each once, ascending by number, places with equal numbers in the order in
/// which they stand.
pub open spec fn in_number_order(numbers: Seq<Option<u64>>, order: Seq<usize>) -> bool {
    &&& forall|k: int|
        0 <= k < order.len() ==> (#[trigger] order[k]) < numbers.len() && numbers[order[k] as int]
            is Some
    &&& forall|i: int|
        0 <= i < numbers.len() && (#[trigger] numbers[i]) is Some ==> exists|k: int|
            0 <= k < order.len() && #[trigger] order[k] == i
    &&& forall|k: int, l: int|
        0 <= k < l < order.len() ==> comes_before(
            numbers[#[trigger] order[k] as int]->0,
            order[k] as int,
            numbers[#[trigger] order[l] as int]->0,
            order[l] as int,
        )
}

/// Two number orders of the same numbers agree in their first `k` places.
proof fn lemma_number_order_agrees(
    numbers: Seq<Option<u64>>,
    a: Seq<usize>,
    b: Seq<usize>,
    k: int,
)
    requires
        in_number_order(numbers, a),
        in_number_order(numbers, b),
        0 <= k <= a.len(),
        k <= b.len(),
    ensures
        forall|j: int| 0 <= j < k ==> a[j] == b[j],
    decreases k,
{
    if k > 0 {
        lemma_number_order_agrees(numbers, a, b, k - 1);
        let x = a[k - 1];
        let y = b[k - 1];
        assert(numbers[x as int] is Some);
        assert(numbers[y as int] is Some);
        let m = choose|m: int| 0 <= m < b.len() && #[trigger] b[m] == x as int;
        let w = choose|w: int| 0 <= w < a.len() && #[trigger] a[w] == y as int;
        if m < k - 1 {
            assert(a[m] == b[m]);
            assert(comes_before(
                numbers[a[m] as int]->0,
                a[m] as int,
                numbers[a[k - 1] as int]->0,
                a[k - 1] as int,
            ));
        } else if w < k - 1 {
            assert(a[w] == b[w]);
            assert(comes_before(
                numbers[b[w] as int]->0,
                b[w] as int,
                numbers[b[k - 1] as int]->0,
                b[k - 1] as int,
            ));
        } else if m > k - 1 {
            assert(comes_before(
                numbers[b[k - 1] as int]->0,
                b[k - 1] as int,
                numbers[b[m] as int]->0,
                b[m] as int,
            ));
            if w > k - 1 {
                assert(comes_before(
                    numbers[a[k - 1] as int]->0,
                    a[k - 1] as int,
                    numbers[a[w] as int]->0,
                    a[w] as int,
                ));
            }
        }
    }
}

/// The number order is unique: the numbers determine it.
pub proof fn lemma_number_order_unique(numbers: Seq<Option<u64>>, a: Seq<usize>, b: Seq<usize>)
    requires
        in_number_order(numbers, a),
        in_number_order(numbers, b),
    ensures
        a == b,
{
    let k = if a.len() <= b.len() {
        a.len() as int
    } else {
        b.len() as int
    };
    lemma_number_order_agrees(numbers, a, b, k);
    if a.len() < b.len() {
        let z = b[k];
        assert(numbers[z as int] is Some);
        let w = choose|w: int| 0 <= w < a.len() && #[trigger] a[w] == z as int;
        assert(a[w] == b[w]);
        assert(comes_before(
            numbers[b[w] as int]->0,
            b[w] as int,
            numbers[b[k] as int]->0,
            b[k] as int,
        ));
    } else if b.len() < a.len() {
        let z = a[k];
        assert(numbers[z as int] is Some);
        let w = choose|w: int| 0 <= w < b.len() && #[trigger] b[w] == z as int;
        assert(a[w] == b[w]);
        assert(comes_before(
            numbers[a[w] as int]->0,
            a[w] as int,
            numbers[a[k] as int]->0,
            a[k] as int,
        ));
    }
    assert(a =~= b);
}

/// The places of `numbers` that hold a number, ascending by number, places
/// with equal numbers in the order in which they stand.
pub fn number_order(numbers: &Vec<Option<u64>>) -> (order: Vec<usize>)
    ensures
        in_number_order(numbers@, order@),
{
    let count = numbers.len();
    let mut order: Vec<usize> = Vec::new();
    let mut i: usize = 0;
    while i < count
        invariant
            count == numbers@.len(),
            i <= count,
            in_number_order(numbers@.subrange(0, i as int), order@),
        decreases count - i,
    {
        let ghost seen = numbers@.subrange(0, i as int);
        let ghost next = numbers@.subrange(0, i + 1);
        let ghost before = order@;
        assert(forall|j: int| 0 <= j < i ==> seen[j] == next[j]);
        match numbers[i] {
            None => {
                assert(in_number_order(next, order@)) by {
                    assert forall|j: int| 0 <= j < next.len() && (#[trigger] next[j])
                        is Some implies exists|k: int|
                        0 <= k < order@.len() && #[trigger] order@[k] == j by {
                        assert(seen[j] is Some);
                    }
                }
            },
            Some(n) => {
                let len = order.len();
                let mut pos: usize = 0;
                while pos < len && numbers[order[pos]].unwrap() <= n
                    invariant
                        count == numbers@.len(),
                        i < count,
                        seen == numbers@.subrange(0, i as int),
                        len == order@.len(),
                        pos <= len,
                        in_number_order(seen, order@),
                        forall|k: int|
                            0 <= k < pos ==> numbers@[(#[trigger] order@[k]) as int]->0 <= n,
                    decreases len - pos,
                {
                    pos += 1;
                }
                order.insert(pos, i);
                proof {
                    let after = order@;
                    assert(after == before.insert(pos as int, i));
                    assert forall|k: int| 0 <= k < after.len() implies (#[trigger] after[k])
                        < next.len() && next[after[k] as int] is Some by {
                        if k < pos {
                            assert(after[k] == before[k]);
                        } else if k > pos {
                            assert(after[k] == before[k - 1]);
                        }
                    }
                    assert forall|j: int| 0 <= j < next.len() && (#[trigger] next[j])
                        is Some implies exists|k: int|
                        0 <= k < after.len() && #[trigger] after[k] == j by {
                        if j < i {
                            assert(seen[j] is Some);
                            let k0 = choose|k: int| 0 <= k < before.len() && #[trigger] before[k] == j;
                            if k0 < pos {
                                assert(after[k0] == j);
                            } else {
                                assert(after[k0 + 1] == j);
                            }
                        } else {
                            assert(after[pos as int] == j);
                        }
                    }
                    assert forall|k: int, l: int| 0 <= k < l < after.len() implies comes_before(
                        next[#[trigger] after[k] as int]->0,
                        after[k] as int,
                        next[#[trigger] after[l] as int]->0,
                        after[l] as int,
                    ) by {
                        let a = if k < pos {
                            k
                        } else {
                            k - 1
                        };
                        let b = if l < pos {
                            l
                        } else {
                            l - 1
                        };
                        if k != pos {
                            assert(after[k] == before[a]);
                            assert(before[a] < seen.len());
                        }
                        if l != pos {
                            assert(after[l] == before[b]);
                            assert(before[b] < seen.len());
                        }
                        if k != pos && l != pos {
                            assert(a < b);
                        } else if l == pos {
                            assert(numbers@[before[a] as int]->0 <= n);
                        } else {
                            assert(pos < len);
                            assert(numbers@[before[pos as int] as int]->0 > n);
                            if b > pos {
                                assert(comes_before(
                                    seen[before[pos as int] as int]->0,
                                    before[pos as int] as int,
                                    seen[before[b] as int]->0,
                                    before[b] as int,
                                ));
                            }
                        }
                    }
                }
            },
        }
        i += 1;
    }
    assert(numbers@.subrange(0, count as int) =~= numbers@);
    order
}

} // verus!
