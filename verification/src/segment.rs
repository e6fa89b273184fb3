//! Segment naming and layout.
//!
//! A segment with id `n` lives in the file `n.log` of the store's
//! directory, where `n` is written in decimal. Listing a directory gives
//! the ids of the files that are named so, in ascending order.

use vstd::prelude::*;
use vstd::string::StringExecFns;

verus! {

broadcast use {vstd::seq_lib::to_multiset_build, vstd::seq_lib::to_multiset_insert};

/// The character of the decimal digit `d`.
pub open spec fn digit_char(d: nat) -> char
    recommends
        d < 10,
{
    (d + 48) as char
}

/// `c` is a decimal digit.
pub open spec fn is_digit(c: char) -> bool {
    48 <= c as u32 <= 57
}

/// The value of the decimal digit `c`.
pub open spec fn digit_value(c: char) -> nat
    recommends
        is_digit(c),
{
    (c as u32 - 48) as nat
}

/// `n` in decimal, without a sign and without leading zeros.
pub open spec fn decimal(n: nat) -> Seq<char>
    decreases n,
{
    if n < 10 {
        seq![digit_char(n)]
    } else {
        decimal(n / 10).push(digit_char(n % 10))
    }
}

/// Every character of `text` is a decimal digit.
pub open spec fn all_digits(text: Seq<char>) -> bool {
    forall|i: int| 0 <= i < text.len() ==> is_digit(#[trigger] text[i])
}

/// The number that the digits of `digits` denote.
pub open spec fn decimal_value(digits: Seq<char>) -> nat
    decreases digits.len(),
{
    if digits.len() == 0 {
        0
    } else {
        decimal_value(digits.drop_last()) * 10 + digit_value(digits.last())
    }
}

/// The number that `text` denotes: at least one decimal digit, after an
/// optional `+`, with a value that fits in 64 bits.
pub open spec fn parse_id(text: Seq<char>) -> Option<u64> {
    let digits = if text.len() > 0 && text[0] == '+' {
        text.subrange(1, text.len() as int)
    } else {
        text
    };
    if digits.len() > 0 && all_digits(digits) && decimal_value(digits) <= u64::MAX {
        Some(decimal_value(digits) as u64)
    } else {
        None
    }
}

/// The ending of a segment file's name.
pub open spec fn suffix() -> Seq<char> {
    seq!['.', 'l', 'o', 'g']
}

/// The name of the file of segment `segment`.
pub open spec fn segment_file(segment: u64) -> Seq<char> {
    decimal(segment as nat) + suffix()
}

/// The id of the segment whose file is named `name`, if `name` is the name
/// of a segment file.
pub open spec fn segment_id(name: Seq<char>) -> Option<u64> {
    if name.len() >= 4 && name.subrange(name.len() - 4, name.len() as int) == suffix() {
        parse_id(name.subrange(0, name.len() - 4))
    } else {
        None
    }
}

/// The path of the file `name` in the directory `dir`.
pub open spec fn joined(dir: Seq<char>, name: Seq<char>) -> Seq<char> {
    if dir.len() == 0 || dir.last() == '/' {
        dir + name
    } else {
        dir.push('/') + name
    }
}

/// The ids of the segment files among `names`, in the order of `names`.
pub open spec fn segment_ids(names: Seq<Seq<char>>) -> Seq<u64>
    decreases names.len(),
{
    if names.len() == 0 {
        Seq::empty()
    } else {
        match segment_id(names.last()) {
            Some(id) => segment_ids(names.drop_last()).push(id),
            None => segment_ids(names.drop_last()),
        }
    }
}

/// The texts of `names`.
pub open spec fn texts(names: Seq<String>) -> Seq<Seq<char>> {
    Seq::new(names.len(), |i: int| names[i]@)
}

/// `ids` ascends.
pub open spec fn sorted(ids: Seq<u64>) -> bool {
    forall|i: int, j: int| 0 <= i <= j < ids.len() ==> ids[i] <= ids[j]
}

/// The decimal form of a number consists of digits and denotes the number.
pub proof fn lemma_decimal(n: nat)
    ensures
        decimal(n).len() > 0,
        all_digits(decimal(n)),
        decimal_value(decimal(n)) == n,
    decreases n,
{
    if n < 10 {
        assert(decimal(n).drop_last() =~= Seq::<char>::empty());
        assert(decimal_value(decimal(n).drop_last()) == 0);
    } else {
        lemma_decimal(n / 10);
        assert(decimal(n).drop_last() =~= decimal(n / 10));
    }
}

/// Naming and listing agree: the file of segment `segment` is listed under
/// the id `segment`.
pub proof fn law_listing_inverts_naming(segment: u64)
    ensures
        segment_id(segment_file(segment)) == Some(segment),
{
    let digits = decimal(segment as nat);
    let name = segment_file(segment);
    lemma_decimal(segment as nat);
    assert(name.subrange(name.len() - 4, name.len() as int) =~= suffix());
    assert(name.subrange(0, name.len() - 4) =~= digits);
    assert(is_digit(digits[0]));
}

/// The digits of a prefix denote no more than all digits do.
pub proof fn lemma_decimal_value_take(digits: Seq<char>, i: int)
    requires
        0 <= i <= digits.len(),
    ensures
        decimal_value(digits.take(i)) <= decimal_value(digits),
    decreases digits.len(),
{
    if i < digits.len() {
        assert(digits.drop_last().take(i) =~= digits.take(i));
        lemma_decimal_value_take(digits.drop_last(), i);
    } else {
        assert(digits.take(i) =~= digits);
    }
}

/// The text of the decimal digit `d`.
fn digit_text(d: u64) -> (text: &'static str)
    requires
        d < 10,
    ensures
        text@ == seq![digit_char(d as nat)],
{
    proof {
        reveal_strlit("0");
        reveal_strlit("1");
        reveal_strlit("2");
        reveal_strlit("3");
        reveal_strlit("4");
        reveal_strlit("5");
        reveal_strlit("6");
        reveal_strlit("7");
        reveal_strlit("8");
        reveal_strlit("9");
    }
    let text = if d == 0 {
        "0"
    } else if d == 1 {
        "1"
    } else if d == 2 {
        "2"
    } else if d == 3 {
        "3"
    } else if d == 4 {
        "4"
    } else if d == 5 {
        "5"
    } else if d == 6 {
        "6"
    } else if d == 7 {
        "7"
    } else if d == 8 {
        "8"
    } else {
        "9"
    };
    assert(text@ =~= seq![digit_char(d as nat)]);
    text
}

/// Writes `n` in decimal.
pub fn decimal_string(n: u64) -> (text: String)
    ensures
        text@ == decimal(n as nat),
    decreases n,
{
    if n < 10 {
        String::from_str(digit_text(n))
    } else {
        let mut text = decimal_string(n / 10);
        text.append(digit_text(n % 10));
        text
    }
}

/// The path of the file of segment `segment` in the directory `path`.
pub fn segment_path(path: &str, segment: u64) -> (file: String)
    ensures
        file@ == joined(path@, segment_file(segment)),
{
    let mut file = String::from_str(path);
    let n: usize = path.unicode_len();
    if n > 0 && path.get_char(n - 1) != '/' {
        proof {
            reveal_strlit("/");
        }
        file.append("/");
        assert(file@ =~= path@.push('/'));
    }
    let digits = decimal_string(segment);
    file.append(digits.as_str());
    proof {
        reveal_strlit(".log");
    }
    file.append(".log");
    assert(".log"@ =~= suffix());
    assert(file@ =~= joined(path@, segment_file(segment)));
    file
}

/// The value of the decimal digit `c`, if it is one.
fn digit_of(c: char) -> (d: Option<u64>)
    ensures
        d is Some <==> is_digit(c),
        d matches Some(v) ==> v == digit_value(c),
{
    if c == '0' {
        Some(0)
    } else if c == '1' {
        Some(1)
    } else if c == '2' {
        Some(2)
    } else if c == '3' {
        Some(3)
    } else if c == '4' {
        Some(4)
    } else if c == '5' {
        Some(5)
    } else if c == '6' {
        Some(6)
    } else if c == '7' {
        Some(7)
    } else if c == '8' {
        Some(8)
    } else if c == '9' {
        Some(9)
    } else {
        None
    }
}

/// Reads the id of a segment from the name of its file. Names of other
/// files give `None`.
pub fn parse_segment_id(name: &str) -> (id: Option<u64>)
    ensures
        id == segment_id(name@),
{
    let n: usize = name.unicode_len();
    if n < 4 {
        return None;
    }
    let stem: usize = n - 4;
    if name.get_char(stem) != '.' || name.get_char(stem + 1) != 'l' || name.get_char(stem + 2)
        != 'o' || name.get_char(stem + 3) != 'g' {
        assert(name@.subrange(n - 4, n as int)[0] == name@[stem as int]);
        assert(name@.subrange(n - 4, n as int)[1] == name@[stem + 1]);
        assert(name@.subrange(n - 4, n as int)[2] == name@[stem + 2]);
        assert(name@.subrange(n - 4, n as int)[3] == name@[stem + 3]);
        return None;
    }
    assert(name@.subrange(n - 4, n as int) =~= suffix());
    let ghost text = name@.subrange(0, stem as int);
    let first: usize = if stem > 0 && name.get_char(0) == '+' {
        1
    } else {
        0
    };
    let ghost digits = text.subrange(first as int, stem as int);
    assert(first == 0 ==> digits =~= text);
    assert(stem > 0 ==> text[0] == name@[0]);
    if first == stem {
        return None;
    }
    assert(segment_id(name@) == parse_id(text));
    let mut value: u64 = 0;
    let mut i: usize = first;
    assert(digits.take(0) =~= Seq::<char>::empty());
    while i < stem
        invariant
            first <= i <= stem,
            first < stem,
            segment_id(name@) == (if all_digits(digits) && decimal_value(digits) <= u64::MAX {
                Some(decimal_value(digits) as u64)
            } else {
                None
            }),
            stem + 4 == n,
            n == name@.len(),
            digits == name@.subrange(first as int, stem as int),
            all_digits(digits.take(i - first)),
            value == decimal_value(digits.take(i - first)),
        decreases stem - i,
    {
        let c = name.get_char(i);
        assert(digits[i - first] == c);
        proof {
            lemma_decimal_value_take(digits, i - first + 1);
            assert(digits.take(i - first + 1).drop_last() =~= digits.take(i - first));
            assert(digits.take(i - first + 1).last() == c);
        }
        match digit_of(c) {
            None => {
                assert(!all_digits(digits));
                return None;
            },
            Some(d) => {
                if value > (u64::MAX - d) / 10 {
                    return None;
                }
                value = value * 10 + d;
            },
        }
        i = i + 1;
    }
    assert(digits.take(i - first) =~= digits);
    Some(value)
}

/// Lists the ids of the segment files among `names`, the file names of a
/// directory, in ascending order. Names of other files are passed over.
pub fn sorted_segments(names: &Vec<String>) -> (ids: Vec<u64>)
    ensures
        sorted(ids@),
        ids@.to_multiset() == segment_ids(texts(names@)).to_multiset(),
{
    let ghost all = texts(names@);
    let mut ids: Vec<u64> = Vec::new();
    let mut i: usize = 0;
    assert(all.take(0) =~= Seq::<Seq<char>>::empty());
    while i < names.len()
        invariant
            all == texts(names@),
            0 <= i <= names@.len(),
            sorted(ids@),
            ids@.to_multiset() == segment_ids(all.take(i as int)).to_multiset(),
        decreases names@.len() - i,
    {
        proof {
            assert(all.take(i as int + 1).drop_last() =~= all.take(i as int));
            assert(all.take(i as int + 1).last() == names@[i as int]@);
        }
        match parse_segment_id(names[i].as_str()) {
            None => {},
            Some(id) => {
                let mut at: usize = 0;
                while at < ids.len() && ids[at] <= id
                    invariant
                        0 <= at <= ids@.len(),
                        forall|j: int| 0 <= j < at ==> ids@[j] <= id,
                    decreases ids@.len() - at,
                {
                    at = at + 1;
                }
                let ghost before = ids@;
                ids.insert(at, id);
                assert forall|a: int, b: int| 0 <= a <= b < ids@.len() implies ids@[a] <= ids@[b] by {
                    if a < at && b > at {
                        assert(before[a] <= before[b - 1]);
                    } else if a > at {
                        assert(before[a - 1] <= before[b - 1]);
                    } else if a == at && b > at {
                        assert(before[at as int] <= before[b - 1]);
                    } else if b < at {
                        assert(before[a] <= before[b]);
                    }
                }
            },
        }
        i = i + 1;
    }
    assert(all.take(i as int) =~= all);
    ids
}

} // verus!
