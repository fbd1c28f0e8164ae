//! Names of segment files: `<prefix>_<stamp>.data`, or
//! `<prefix>_<stamp>_<counter>.data` for a further segment of one
//! millisecond. Stamp and counter are written in decimal without leading
//! zeros.

use vstd::prelude::*;
use vstd::string::StringExecFns;
use vstd::string::StrSliceExecFns;

verus! {

/// Whether `c` is a decimal digit.
pub open spec fn is_digit(c: char) -> bool {
    c == '0' || c == '1' || c == '2' || c == '3' || c == '4' || c == '5' || c == '6' || c == '7'
        || c == '8' || c == '9'
}

/// The character of a decimal digit.
pub open spec fn digit_char(d: int) -> char {
    if d == 0 {
        '0'
    } else if d == 1 {
        '1'
    } else if d == 2 {
        '2'
    } else if d == 3 {
        '3'
    } else if d == 4 {
        '4'
    } else if d == 5 {
        '5'
    } else if d == 6 {
        '6'
    } else if d == 7 {
        '7'
    } else if d == 8 {
        '8'
    } else {
        '9'
    }
}

/// The digit that a character stands for.
pub open spec fn digit_value(c: char) -> int {
    if c == '0' {
        0
    } else if c == '1' {
        1
    } else if c == '2' {
        2
    } else if c == '3' {
        3
    } else if c == '4' {
        4
    } else if c == '5' {
        5
    } else if c == '6' {
        6
    } else if c == '7' {
        7
    } else if c == '8' {
        8
    } else {
        9
    }
}

/// The decimal digits of `n`, without leading zeros.
pub open spec fn decimal(n: nat) -> Seq<char>
    decreases n,
{
    if n < 10 {
        seq![digit_char(n as int)]
    } else {
        decimal(n / 10).push(digit_char((n % 10) as int))
    }
}

/// Whether every character of `d` is a decimal digit.
pub open spec fn all_digits(d: Seq<char>) -> bool {
    forall|i: int| 0 <= i < d.len() ==> is_digit(#[trigger] d[i])
}

/// The number that the digits `d` write.
pub open spec fn digits_value(d: Seq<char>) -> nat
    decreases d.len(),
{
    if d.len() == 0 {
        0
    } else {
        (digits_value(d.drop_last()) * 10 + digit_value(d.last())) as nat
    }
}

/// Whether `d` writes a number as `decimal` does: in digits, at least one,
/// and without a leading zero before further digits.
pub open spec fn canonical(d: Seq<char>) -> bool {
    d.len() > 0 && all_digits(d) && (d.len() > 1 ==> d[0] != '0')
}

/// The ending of every segment file name.
pub open spec fn data_suffix() -> Seq<char> {
    seq!['.', 'd', 'a', 't', 'a']
}

/// What a segment name holds between the prefix with its underscore and
/// the ending: the stamp, and behind a further underscore the counter
/// where it is not zero.
pub open spec fn body_of(stamp: u64, counter: u64) -> Seq<char> {
    if counter == 0 {
        decimal(stamp as nat)
    } else {
        decimal(stamp as nat) + seq!['_'] + decimal(counter as nat)
    }
}

/// The name of the segment with the given stamp and counter.
pub open spec fn segment_name(prefix: Seq<char>, stamp: u64, counter: u64) -> Seq<char> {
    prefix + seq!['_'] + body_of(stamp, counter) + data_suffix()
}

/// `decimal` writes a number in digits, without a leading zero, and the
/// digits write that number.
pub proof fn lemma_decimal(n: nat)
    ensures
        canonical(decimal(n)),
        digits_value(decimal(n)) == n,
        n > 0 ==> decimal(n)[0] != '0',
    decreases n,
{
    let d = decimal(n);
    if n < 10 {
        assert(d.drop_last() =~= Seq::<char>::empty());
        assert(digits_value(d.drop_last()) == 0);
    } else {
        lemma_decimal(n / 10);
        let init = decimal(n / 10);
        assert(d.drop_last() =~= init);
        assert(d[0] == init[0]);
        assert forall|i: int| 0 <= i < d.len() implies is_digit(#[trigger] d[i]) by {
            if i < init.len() {
                assert(d[i] == init[i]);
            }
        }
    }
}

/// Digits without a leading zero are the decimal form of the number they
/// write.
pub proof fn lemma_canonical_decimal(d: Seq<char>)
    requires
        canonical(d),
    ensures
        decimal(digits_value(d)) == d,
        d[0] != '0' ==> digits_value(d) > 0,
    decreases d.len(),
{
    let init = d.drop_last();
    let last = d.last();
    assert(is_digit(d[d.len() - 1]));
    if init.len() == 0 {
        assert(digits_value(init) == 0);
        assert(decimal(digits_value(d)) =~= d);
    } else {
        assert(init[0] == d[0]);
        assert forall|i: int| 0 <= i < init.len() implies is_digit(#[trigger] init[i]) by {
            assert(init[i] == d[i]);
        }
        lemma_canonical_decimal(init);
        let v = digits_value(init);
        assert(v > 0);
        assert(digits_value(d) == v * 10 + digit_value(last));
        assert((v * 10 + digit_value(last)) / 10 == v);
        assert((v * 10 + digit_value(last)) % 10 == digit_value(last));
        assert(init.push(last) =~= d);
    }
}

/// The first digits of a number write no more than all of them.
pub proof fn lemma_value_prefix(d: Seq<char>, j: int)
    requires
        0 <= j <= d.len(),
    ensures
        digits_value(d.take(j)) <= digits_value(d),
    decreases d.len() - j,
{
    if j < d.len() {
        lemma_value_prefix(d, j + 1);
        assert(d.take(j + 1).drop_last() =~= d.take(j));
    } else {
        assert(d.take(j) =~= d);
    }
}

/// The parts of a segment name, each at its place.
pub proof fn lemma_name_parts(prefix: Seq<char>, stamp: u64, counter: u64)
    ensures
        ({
            let name = segment_name(prefix, stamp, counter);
            let body = body_of(stamp, counter);
            let p = prefix.len() as int;
            &&& body.len() >= 1
            &&& name.len() == p + 1 + body.len() + 5
            &&& name.subrange(0, p) == prefix
            &&& name[p] == '_'
            &&& name.subrange(p + 1, p + 1 + body.len()) == body
            &&& name.subrange(name.len() - 5, name.len() as int) == data_suffix()
        }),
{
    let name = segment_name(prefix, stamp, counter);
    let body = body_of(stamp, counter);
    let p = prefix.len() as int;
    lemma_decimal(stamp as nat);
    assert(name.subrange(0, p) =~= prefix);
    assert(name.subrange(p + 1, p + 1 + body.len()) =~= body);
    assert(name.subrange(name.len() - 5, name.len() as int) =~= data_suffix());
}

/// The parts of the body of a segment name: the digits of the stamp, and
/// where the counter is not zero an underscore and the digits of the
/// counter.
pub proof fn lemma_body_parts(stamp: u64, counter: u64)
    ensures
        ({
            let body = body_of(stamp, counter);
            let digits = decimal(stamp as nat);
            &&& canonical(digits)
            &&& digits.len() <= body.len()
            &&& body.take(digits.len() as int) == digits
            &&& counter == 0 ==> body.len() == digits.len()
            &&& counter != 0 ==> {
                &&& body.len() > digits.len() + 1
                &&& body[digits.len() as int] == '_'
                &&& body.skip((digits.len() + 1) as int) == decimal(counter as nat)
            }
        }),
{
    let body = body_of(stamp, counter);
    let digits = decimal(stamp as nat);
    lemma_decimal(stamp as nat);
    lemma_decimal(counter as nat);
    assert(body.take(digits.len() as int) =~= digits);
    if counter != 0 {
        assert(body.skip((digits.len() + 1) as int) =~= decimal(counter as nat));
    }
}

/// In the body of a segment name the digits that stand first, up to the
/// first character that is no digit, are the digits of the stamp.
pub proof fn lemma_digit_run(body: Seq<char>, stamp: u64, counter: u64, run: int)
    requires
        body == body_of(stamp, counter),
        0 <= run <= body.len(),
        forall|j: int| 0 <= j < run ==> is_digit(#[trigger] body[j]),
        run == body.len() || !is_digit(body[run]),
    ensures
        run == decimal(stamp as nat).len(),
{
    let digits = decimal(stamp as nat);
    lemma_body_parts(stamp, counter);
    if run < digits.len() {
        assert(body.take(digits.len() as int)[run] == body[run]);
        assert(is_digit(digits[run]));
    }
    if run > digits.len() {
        assert(is_digit(body[digits.len() as int]));
    }
}

/// Segment names tell their segments apart: two names of one prefix are
/// equal only where stamp and counter are.
pub proof fn lemma_segment_name_injective(
    prefix: Seq<char>,
    stamp: u64,
    counter: u64,
    stamp2: u64,
    counter2: u64,
)
    requires
        segment_name(prefix, stamp, counter) == segment_name(prefix, stamp2, counter2),
    ensures
        stamp == stamp2,
        counter == counter2,
{
    let body = body_of(stamp, counter);
    let digits = decimal(stamp as nat);
    lemma_name_parts(prefix, stamp, counter);
    lemma_name_parts(prefix, stamp2, counter2);
    assert(body == body_of(stamp2, counter2));
    lemma_body_parts(stamp, counter);
    lemma_body_parts(stamp2, counter2);
    assert forall|j: int| 0 <= j < digits.len() implies is_digit(#[trigger] body[j]) by {
        assert(body.take(digits.len() as int)[j] == body[j]);
        assert(is_digit(digits[j]));
    }
    lemma_digit_run(body, stamp2, counter2, digits.len() as int);
    lemma_decimal(stamp as nat);
    lemma_decimal(stamp2 as nat);
    lemma_decimal(counter as nat);
    lemma_decimal(counter2 as nat);
}

/// The text of one decimal digit.
fn digit_str(d: u64) -> (s: &'static str)
    requires
        d < 10,
    ensures
        s@ == seq![digit_char(d as int)],
{
    proof {
        reveal_strlit("0");
        reveal_strlit("1");
        reveal_strlit("2");
        reveal_strlit("3");
        reveal_strlit("4");
        reveal_strlit("5");
        reveal_strlit("6");
        reveal_strlit("7");
        reveal_strlit("8");
        reveal_strlit("9");
    }
    let s = if d == 0 {
        "0"
    } else if d == 1 {
        "1"
    } else if d == 2 {
        "2"
    } else if d == 3 {
        "3"
    } else if d == 4 {
        "4"
    } else if d == 5 {
        "5"
    } else if d == 6 {
        "6"
    } else if d == 7 {
        "7"
    } else if d == 8 {
        "8"
    } else {
        "9"
    };
    assert(s@ =~= seq![digit_char(d as int)]);
    s
}

/// Appends the decimal digits of `n` to `out`.
fn push_decimal(out: &mut String, n: u64)
    ensures
        final(out)@ == old(out)@ + decimal(n as nat),
    decreases n,
{
    if n >= 10 {
        push_decimal(out, n / 10);
    }
    out.append(digit_str(n % 10));
    assert(out@ =~= old(out)@ + decimal(n as nat));
}

/// The file name of the segment with the given stamp and counter.
pub fn segment_path(prefix: &str, stamp: u64, counter: u64) -> (path: String)
    ensures
        path@ == segment_name(prefix@, stamp, counter),
{
    proof {
        reveal_strlit("_");
        reveal_strlit(".data");
    }
    let mut path = String::from_str(prefix);
    path.append("_");
    push_decimal(&mut path, stamp);
    if counter != 0 {
        path.append("_");
        push_decimal(&mut path, counter);
    }
    path.append(".data");
    assert(path@ =~= segment_name(prefix@, stamp, counter));
    path
}

/// The characters of a string.
fn chars_of(s: &str) -> (chars: Vec<char>)
    ensures
        chars@ == s@,
{
    let n = s.unicode_len();
    let mut chars: Vec<char> = Vec::new();
    let mut i: usize = 0;
    while i < n
        invariant
            i <= n,
            n == s@.len(),
            chars@ == s@.take(i as int),
        decreases n - i,
    {
        chars.push(s.get_char(i));
        i = i + 1;
        assert(chars@ =~= s@.take(i as int));
    }
    assert(s@.take(n as int) =~= s@);
    chars
}

/// The digit that `c` stands for, if it is one.
fn digit_of(c: char) -> (r: Option<u64>)
    ensures
        match r {
            Some(v) => is_digit(c) && v == digit_value(c),
            None => !is_digit(c),
        },
{
    if c == '0' {
        Some(0)
    } else if c == '1' {
        Some(1)
    } else if c == '2' {
        Some(2)
    } else if c == '3' {
        Some(3)
    } else if c == '4' {
        Some(4)
    } else if c == '5' {
        Some(5)
    } else if c == '6' {
        Some(6)
    } else if c == '7' {
        Some(7)
    } else if c == '8' {
        Some(8)
    } else if c == '9' {
        Some(9)
    } else {
        None
    }
}

/// The number that `chars[from..to]` writes, where that is the decimal
/// form of a number of 64 bits.
fn parse_digits(chars: &Vec<char>, from: usize, to: usize) -> (r: Option<u64>)
    requires
        from <= to <= chars@.len(),
    ensures
        match r {
            Some(v) => canonical(chars@.subrange(from as int, to as int)) && v == digits_value(
                chars@.subrange(from as int, to as int),
            ),
            None => !canonical(chars@.subrange(from as int, to as int)) || digits_value(
                chars@.subrange(from as int, to as int),
            ) > u64::MAX,
        },
{
    let ghost d = chars@.subrange(from as int, to as int);
    if from == to {
        return None;
    }
    if to - from > 1 && chars[from] == '0' {
        assert(d[0] == '0');
        return None;
    }
    let mut acc: u64 = 0;
    let mut i: usize = from;
    assert(d.take(0) =~= Seq::<char>::empty());
    while i < to
        invariant
            from <= i <= to <= chars@.len(),
            d == chars@.subrange(from as int, to as int),
            acc == digits_value(d.take(i - from)),
            forall|j: int| 0 <= j < i - from ==> is_digit(#[trigger] d[j]),
        decreases to - i,
    {
        let ghost seen = d.take(i - from);
        let ghost more = d.take(i - from + 1);
        assert(more.drop_last() =~= seen);
        assert(more.last() == d[i - from]);
        assert(d[i - from] == chars@[i as int]);
        match digit_of(chars[i]) {
            Some(v) => {
                if acc > (u64::MAX - v) / 10 {
                    proof {
                        lemma_value_prefix(d, i - from + 1);
                    }
                    return None;
                }
                acc = acc * 10 + v;
            },
            None => {
                return None;
            },
        }
        i = i + 1;
    }
    assert(d.take(to - from) =~= d);
    Some(acc)
}

/// Reads stamp and counter out of a segment file name.
///
/// `Some` exactly for the names that `segment_path` gives for `prefix`, and
/// then with the stamp and the counter that the name was made of.
pub fn parse_segment_name(prefix: &str, name: &str) -> (r: Option<(u64, u64)>)
    ensures
        match r {
            Some((stamp, counter)) => name@ == segment_name(prefix@, stamp, counter),
            None => forall|stamp: u64, counter: u64|
                name@ != #[trigger] segment_name(prefix@, stamp, counter),
        },
{
    let chars = chars_of(name);
    let head = chars_of(prefix);
    let n = chars.len();
    let p = head.len();
    if n < 7 || n - 7 < p {
        assert forall|stamp: u64, counter: u64|
            name@ != #[trigger] segment_name(prefix@, stamp, counter) by {
            lemma_name_parts(prefix@, stamp, counter);
        }
        return None;
    }
    let mut i: usize = 0;
    while i < p
        invariant
            i <= p,
            p + 7 <= n,
            n == chars@.len(),
            p == head@.len(),
            chars@ == name@,
            head@ == prefix@,
            chars@.subrange(0, i as int) == head@.subrange(0, i as int),
        decreases p - i,
    {
        if chars[i] != head[i] {
            assert forall|stamp: u64, counter: u64|
                name@ != #[trigger] segment_name(prefix@, stamp, counter) by {
                lemma_name_parts(prefix@, stamp, counter);
                if name@ == segment_name(prefix@, stamp, counter) {
                    assert(name@.subrange(0, p as int)[i as int] == prefix@[i as int]);
                }
            }
            return None;
        }
        i = i + 1;
        assert(chars@.subrange(0, i as int) =~= head@.subrange(0, i as int));
    }
    assert(head@.subrange(0, p as int) =~= prefix@);
    let end = n - 5;
    if chars[p] != '_' || chars[end] != '.' || chars[end + 1] != 'd' || chars[end + 2] != 'a'
        || chars[end + 3] != 't' || chars[end + 4] != 'a' {
        assert forall|stamp: u64, counter: u64|
            name@ != #[trigger] segment_name(prefix@, stamp, counter) by {
            lemma_name_parts(prefix@, stamp, counter);
            if name@ == segment_name(prefix@, stamp, counter) {
                let tail = name@.subrange(n - 5, n as int);
                assert(tail[0] == name@[end as int]);
                assert(tail[1] == name@[end + 1]);
                assert(tail[2] == name@[end + 2]);
                assert(tail[3] == name@[end + 3]);
                assert(tail[4] == name@[end + 4]);
            }
        }
        return None;
    }
    let start = p + 1;
    let ghost body = name@.subrange(start as int, end as int);
    assert(name@ =~= prefix@ + seq!['_'] + body + data_suffix());
    // The digits that stand first.
    let mut stop: usize = start;
    while stop < end && digit_of(chars[stop]).is_some()
        invariant
            start <= stop <= end,
            end + 5 == n,
            n == chars@.len(),
            chars@ == name@,
            body == name@.subrange(start as int, end as int),
            forall|j: int| 0 <= j < stop - start ==> is_digit(#[trigger] body[j]),
        decreases end - stop,
    {
        assert(body[stop - start] == chars@[stop as int]);
        stop = stop + 1;
    }
    proof {
        if stop < end {
            assert(body[stop - start] == chars@[stop as int]);
        }
        assert(body.take(stop - start) =~= chars@.subrange(start as int, stop as int));
    }
    let stamp = match parse_digits(&chars, start, stop) {
        Some(v) => v,
        None => {
            assert forall|stamp: u64, counter: u64|
                name@ != #[trigger] segment_name(prefix@, stamp, counter) by {
                if name@ == segment_name(prefix@, stamp, counter) {
                    lemma_name_parts(prefix@, stamp, counter);
                    assert(body == body_of(stamp, counter));
                    lemma_digit_run(body, stamp, counter, stop - start);
                    lemma_body_parts(stamp, counter);
                    lemma_decimal(stamp as nat);
                }
            }
            return None;
        },
    };
    proof {
        lemma_canonical_decimal(body.take(stop - start));
    }
    if stop == end {
        assert(body.take(stop - start) =~= body);
        assert(body == body_of(stamp, 0));
        return Some((stamp, 0));
    }
    if chars[stop] != '_' {
        assert forall|stamp: u64, counter: u64|
            name@ != #[trigger] segment_name(prefix@, stamp, counter) by {
            if name@ == segment_name(prefix@, stamp, counter) {
                lemma_name_parts(prefix@, stamp, counter);
                assert(body == body_of(stamp, counter));
                lemma_digit_run(body, stamp, counter, stop - start);
                lemma_body_parts(stamp, counter);
            }
        }
        return None;
    }
    assert(body.skip(stop - start + 1) =~= chars@.subrange(stop + 1, end as int));
    let counter = match parse_digits(&chars, stop + 1, end) {
        Some(v) => v,
        None => {
            assert forall|stamp: u64, counter: u64|
                name@ != #[trigger] segment_name(prefix@, stamp, counter) by {
                if name@ == segment_name(prefix@, stamp, counter) {
                    lemma_name_parts(prefix@, stamp, counter);
                    assert(body == body_of(stamp, counter));
                    lemma_digit_run(body, stamp, counter, stop - start);
                    lemma_body_parts(stamp, counter);
                    lemma_decimal(counter as nat);
                }
            }
            return None;
        },
    };
    if counter == 0 {
        assert forall|stamp: u64, counter: u64|
            name@ != #[trigger] segment_name(prefix@, stamp, counter) by {
            if name@ == segment_name(prefix@, stamp, counter) {
                lemma_name_parts(prefix@, stamp, counter);
                assert(body == body_of(stamp, counter));
                lemma_digit_run(body, stamp, counter, stop - start);
                lemma_body_parts(stamp, counter);
                lemma_decimal(counter as nat);
            }
        }
        return None;
    }
    proof {
        lemma_canonical_decimal(body.skip(stop - start + 1));
        assert(body =~= body.take(stop - start) + seq!['_'] + body.skip(stop - start + 1));
    }
    Some((stamp, counter))
}

} // verus!
