//! Decimal numbers and dotted paths as text.

use vstd::prelude::*;
use vstd::string::*;

verus! {

/// The character of a decimal digit.
pub open spec fn digit(d: nat) -> char {
    (('0' as nat) + d) as char
}

/// The decimal text of a number, without leading zeros.
pub open spec fn decimal(n: nat) -> Seq<char>
    decreases n,
{
    if n < 10 {
        seq![digit(n)]
    } else {
        decimal(n / 10).push(digit(n % 10))
    }
}

/// A decimal digit.
pub open spec fn is_digit(c: char) -> bool {
    '0' <= c <= '9'
}

/// Numbers in decimal, with a separator between neighbours.
pub open spec fn joined(numbers: Seq<nat>, separator: Seq<char>) -> Seq<char>
    decreases numbers.len(),
{
    if numbers.len() == 0 {
        Seq::empty()
    } else if numbers.len() == 1 {
        decimal(numbers[0])
    } else {
        joined(numbers.drop_last(), separator) + separator + decimal(numbers.last())
    }
}

/// The decimal text of a number with a sign.
pub open spec fn signed_decimal(n: int) -> Seq<char> {
    if n < 0 {
        seq!['-'] + decimal((-n) as nat)
    } else {
        decimal(n as nat)
    }
}

/// The place of the last dot, if there is one.
pub open spec fn last_dot(s: Seq<char>) -> Option<int>
    decreases s.len(),
{
    if s.len() == 0 {
        None
    } else if s.last() == '.' {
        Some(s.len() - 1)
    } else {
        last_dot(s.drop_last())
    }
}

/// The pieces between the dots of a text.
pub open spec fn segments(s: Seq<char>) -> Seq<Seq<char>>
    decreases s.len(),
{
    match last_dot(s) {
        None => seq![s],
        Some(p) => {
            proof {
                lemma_last_dot(s);
            }
            segments(s.take(p)).push(s.skip(p + 1))
        },
    }
}

/// What [`last_dot`] finds.
pub proof fn lemma_last_dot(s: Seq<char>)
    ensures
        match last_dot(s) {
            None => forall|i: int| 0 <= i < s.len() ==> s[i] != '.',
            Some(p) => 0 <= p < s.len() && s[p] == '.' && forall|i: int|
                p < i < s.len() ==> s[i] != '.',
        },
    decreases s.len(),
{
    if s.len() > 0 && s.last() != '.' {
        lemma_last_dot(s.drop_last());
        let d = s.drop_last();
        assert(forall|i: int| 0 <= i < d.len() ==> d[i] == s[i]);
    }
}

/// The last dot is where the text after it is free of dots.
pub proof fn lemma_last_dot_is(s: Seq<char>, p: int)
    requires
        0 <= p < s.len(),
        s[p] == '.',
        forall|i: int| p < i < s.len() ==> s[i] != '.',
    ensures
        last_dot(s) == Some(p),
{
    lemma_last_dot(s);
}

pub proof fn lemma_no_dot(s: Seq<char>)
    requires
        forall|i: int| 0 <= i < s.len() ==> s[i] != '.',
    ensures
        last_dot(s) is None,
{
    lemma_last_dot(s);
}

/// A number in decimal is a non-empty run of digits.
pub proof fn lemma_decimal_is_digits(n: nat)
    ensures
        decimal(n).len() > 0,
        forall|i: int| 0 <= i < decimal(n).len() ==> is_digit(#[trigger] decimal(n)[i]),
    decreases n,
{
    if n >= 10 {
        lemma_decimal_is_digits(n / 10);
    }
}

/// Different numbers are written differently.
pub proof fn lemma_decimal_is_injective(a: nat, b: nat)
    requires
        decimal(a) == decimal(b),
    ensures
        a == b,
    decreases a,
{
    let s = decimal(a);
    lemma_decimal_is_digits(a / 10);
    lemma_decimal_is_digits(b / 10);
    if a >= 10 && b >= 10 {
        assert(s.drop_last() == decimal(a / 10));
        assert(s.drop_last() == decimal(b / 10));
        lemma_decimal_is_injective(a / 10, b / 10);
        assert(s.last() == digit(a % 10));
        assert(s.last() == digit(b % 10));
    } else {
        assert(s.last() == digit(a % 10));
        assert(s.last() == digit(b % 10));
        assert(a < 10 <==> s.len() == 1);
        assert(b < 10 <==> s.len() == 1);
    }
}

/// The number that a run of digits stands for, read in base ten.
pub open spec fn value_of(s: Seq<char>) -> int
    decreases s.len(),
{
    if s.len() == 0 {
        0
    } else {
        10 * value_of(s.drop_last()) + (s.last() as int - '0' as int)
    }
}

/// The decimal text of a number is made of the characters `0` to `9`, it reads
/// back as that number, and it has no leading zero unless it is the number zero.
pub proof fn lemma_decimal_reads_back(n: nat)
    ensures
        decimal(n).len() > 0,
        forall|i: int| 0 <= i < decimal(n).len() ==> '0' <= #[trigger] decimal(n)[i] <= '9',
        value_of(decimal(n)) == n,
        decimal(n)[0] == '0' <==> n == 0,
        n == 0 ==> decimal(n) == seq!['0'],
    decreases n,
{
    let s = decimal(n);
    let last = digit(n % 10);
    assert(last as int == '0' as int + n % 10);
    if n >= 10 {
        lemma_decimal_reads_back(n / 10);
        assert(s.drop_last() == decimal(n / 10));
        assert(s[0] == decimal(n / 10)[0]);
    } else {
        assert(s.drop_last() == Seq::<char>::empty());
        assert(value_of(s.drop_last()) == 0);
    }
}

/// A run of the characters `0` to `9` without a leading zero is the decimal text
/// of the number that it reads as: no number is written in another way.
pub proof fn lemma_digits_are_a_decimal(s: Seq<char>)
    requires
        s.len() > 0,
        forall|i: int| 0 <= i < s.len() ==> '0' <= #[trigger] s[i] <= '9',
        s.len() > 1 ==> s[0] != '0',
    ensures
        value_of(s) >= 0,
        s.len() > 1 ==> value_of(s) >= 10,
        decimal(value_of(s) as nat) == s,
    decreases s.len(),
{
    let head = s.drop_last();
    let d = s.last() as int - '0' as int;
    assert(0 <= d < 10) by {
        assert('0' <= s[s.len() - 1] <= '9');
    }
    if s.len() == 1 {
        assert(value_of(head) == 0);
        assert(decimal(d as nat) == seq![digit(d as nat)]);
    } else {
        assert(forall|i: int| 0 <= i < head.len() ==> head[i] == s[i]);
        lemma_digits_are_a_decimal(head);
        if s.len() == 2 {
            assert(value_of(head.drop_last()) == 0);
            assert(value_of(head) >= 1);
        }
        let v = value_of(s) as nat;
        assert(v / 10 == value_of(head));
        assert(v % 10 == d);
    }
}

/// The text of a number with a sign starts with a minus if and only if the number
/// is negative; what follows reads as the distance from zero.
pub proof fn lemma_signed_decimal_reads_back(n: int)
    ensures
        n < 0 ==> signed_decimal(n)[0] == '-' && value_of(signed_decimal(n).skip(1)) == -n
            && signed_decimal(n).len() > 1 && signed_decimal(n)[1] != '0',
        n >= 0 ==> signed_decimal(n) == decimal(n as nat) && value_of(signed_decimal(n)) == n,
        forall|i: int|
            0 <= i < signed_decimal(n).len() && !(n < 0 && i == 0) ==> '0' <= #[trigger] signed_decimal(
                n,
            )[i] <= '9',
{
    if n < 0 {
        let m = (-n) as nat;
        lemma_decimal_reads_back(m);
        let s = signed_decimal(n);
        assert(s.skip(1) == decimal(m));
        assert(s[1] == decimal(m)[0]);
        assert forall|i: int| 0 < i < s.len() implies '0' <= #[trigger] s[i] <= '9' by {
            assert(s[i] == decimal(m)[i - 1]);
        }
    } else {
        lemma_decimal_reads_back(n as nat);
    }
}

/// No numbers make no text, one number is its decimal text, and one more number
/// adds the separator and its own decimal text.
pub proof fn lemma_joined_grows(numbers: Seq<nat>, n: nat, separator: Seq<char>)
    ensures
        joined(Seq::empty(), separator) == Seq::<char>::empty(),
        joined(seq![n], separator) == decimal(n),
        numbers.len() > 0 ==> joined(numbers.push(n), separator) == joined(numbers, separator)
            + separator + decimal(n),
{
    assert(numbers.push(n).drop_last() == numbers);
    assert(seq![n][0] == n);
}

/// Pieces of text with a dot between neighbours.
pub open spec fn dotted(pieces: Seq<Seq<char>>) -> Seq<char>
    decreases pieces.len(),
{
    if pieces.len() == 0 {
        Seq::empty()
    } else if pieces.len() == 1 {
        pieces[0]
    } else {
        dotted(pieces.drop_last()) + seq!['.'] + pieces.last()
    }
}

/// The segments of a text hold no dot, and with dots between them they are the
/// text.
pub proof fn lemma_segments_are_between_the_dots(s: Seq<char>)
    ensures
        segments(s).len() > 0,
        dotted(segments(s)) == s,
        forall|k: int, i: int|
            0 <= k < segments(s).len() && 0 <= i < segments(s)[k].len()
                ==> #[trigger] segments(s)[k][i] != '.',
    decreases s.len(),
{
    lemma_last_dot(s);
    match last_dot(s) {
        None => {
            assert(segments(s) == seq![s]);
        },
        Some(p) => {
            let head = s.take(p);
            let tail = s.skip(p + 1);
            lemma_segments_are_between_the_dots(head);
            assert(segments(s).drop_last() == segments(head));
            assert(s == head + seq!['.'] + tail);
            assert forall|k: int, i: int|
                0 <= k < segments(s).len() && 0 <= i < segments(s)[k].len() implies
                #[trigger] segments(s)[k][i] != '.' by {
                if k < segments(head).len() {
                    assert(segments(head)[k][i] != '.');
                } else {
                    assert(tail[i] == s[p + 1 + i]);
                }
            }
        },
    }
}

/// The last dot of a dotted path stands before its last number.
pub proof fn lemma_joined_last_dot(path: Seq<nat>)
    requires
        path.len() > 0,
    ensures
        path.len() == 1 ==> last_dot(joined(path, seq!['.'])) is None,
        path.len() > 1 ==> last_dot(joined(path, seq!['.'])) == Some(
            joined(path.drop_last(), seq!['.']).len() as int,
        ),
{
    let s = joined(path, seq!['.']);
    lemma_decimal_is_digits(path.last());
    if path.len() == 1 {
        lemma_no_dot(s);
    } else {
        let p = joined(path.drop_last(), seq!['.']).len() as int;
        assert forall|i: int| p < i < s.len() implies s[i] != '.' by {
            assert(s[i] == decimal(path.last())[i - p - 1]);
        }
        assert(s[p] == '.');
        lemma_last_dot_is(s, p);
    }
}

/// Different paths are written differently.
pub proof fn lemma_joined_is_injective(a: Seq<nat>, b: Seq<nat>)
    requires
        a.len() > 0,
        b.len() > 0,
        joined(a, seq!['.']) == joined(b, seq!['.']),
    ensures
        a == b,
    decreases a.len(),
{
    let s = joined(a, seq!['.']);
    lemma_joined_last_dot(a);
    lemma_joined_last_dot(b);
    if a.len() == 1 {
        lemma_decimal_is_injective(a[0], b[0]);
        assert(a == b);
    } else {
        let p = last_dot(s)->0;
        let head_a = joined(a.drop_last(), seq!['.']);
        let head_b = joined(b.drop_last(), seq!['.']);
        assert(s.take(p) == head_a);
        assert(s.take(p) == head_b);
        lemma_joined_is_injective(a.drop_last(), b.drop_last());
        assert(s.skip(p + 1) == decimal(a.last()));
        assert(s.skip(p + 1) == decimal(b.last()));
        lemma_decimal_is_injective(a.last(), b.last());
        assert(a == a.drop_last().push(a.last()));
        assert(b == b.drop_last().push(b.last()));
    }
}

/// A digit as text.
fn digit_text(d: u64) -> (r: &'static str)
    requires
        d < 10,
    ensures
        r@ == seq![digit(d as nat)],
{
    proof {
        reveal_strlit("0");
        reveal_strlit("1");
        reveal_strlit("2");
        reveal_strlit("3");
        reveal_strlit("4");
        reveal_strlit("5");
        reveal_strlit("6");
        reveal_strlit("7");
        reveal_strlit("8");
        reveal_strlit("9");
    }
    if d == 0 {
        "0"
    } else if d == 1 {
        "1"
    } else if d == 2 {
        "2"
    } else if d == 3 {
        "3"
    } else if d == 4 {
        "4"
    } else if d == 5 {
        "5"
    } else if d == 6 {
        "6"
    } else if d == 7 {
        "7"
    } else if d == 8 {
        "8"
    } else {
        "9"
    }
}

/// A number in decimal.
pub fn decimal_text(n: u64) -> (r: String)
    ensures
        r@ == decimal(n as nat),
    decreases n,
{
    if n < 10 {
        digit_text(n).to_owned()
    } else {
        let mut r = decimal_text(n / 10);
        r.append(digit_text(n % 10));
        r
    }
}

/// A number with a sign in decimal.
pub fn signed_decimal_text(n: i64) -> (r: String)
    ensures
        r@ == signed_decimal(n as int),
{
    if n < 0 {
        proof {
            reveal_strlit("-");
            assert("-"@ == seq!['-']);
        }
        let magnitude = if n == i64::MIN {
            0x8000_0000_0000_0000u64
        } else {
            (-n) as u64
        };
        "-".to_owned().concat(decimal_text(magnitude).as_str())
    } else {
        decimal_text(n as u64)
    }
}

/// Whether two texts are the same.
pub fn same_text(a: &str, b: &str) -> (r: bool)
    ensures
        r == (a@ == b@),
{
    let a_chars = chars_of(a);
    let b_chars = chars_of(b);
    if a_chars.len() != b_chars.len() {
        return false;
    }
    let mut i: usize = 0;
    while i < a_chars.len()
        invariant
            a_chars@ == a@,
            b_chars@ == b@,
            a@.len() == b@.len(),
            i <= a@.len(),
            forall|k: int| 0 <= k < i ==> a@[k] == b@[k],
        decreases a_chars.len() - i,
    {
        if a_chars[i] != b_chars[i] {
            return false;
        }
        i = i + 1;
    }
    assert(a@ == b@);
    true
}

/// Numbers in decimal, with a separator between neighbours.
pub fn joined_text(numbers: &Vec<u64>, separator: &str) -> (r: String)
    ensures
        r@ == joined(numbers@.map_values(|n: u64| n as nat), separator@),
{
    let mut r = String::new();
    let ghost all = numbers@.map_values(|n: u64| n as nat);
    let mut i: usize = 0;
    while i < numbers.len()
        invariant
            i <= numbers@.len(),
            all == numbers@.map_values(|n: u64| n as nat),
            r@ == joined(all.take(i as int), separator@),
        decreases numbers.len() - i,
    {
        if i > 0 {
            r.append(separator);
        }
        r.append(decimal_text(numbers[i]).as_str());
        assert(all.take(i + 1).drop_last() == all.take(i as int));
        i = i + 1;
    }
    assert(all.take(i as int) == all);
    r
}

/// The characters of a text.
pub fn chars_of(s: &str) -> (r: Vec<char>)
    ensures
        r@ == s@,
{
    let mut r: Vec<char> = Vec::new();
    for c in iter: s.chars()
        invariant
            iter.seq() == s@,
            r@ == s@.take(iter.index() as int),
    {
        r.push(c);
    }
    r
}

} // verus!
