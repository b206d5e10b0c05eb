//! Text built from characters: decimal numbers, repetition, and comparison.

use vstd::prelude::*;

use crate::error::Error;

verus! {

/// Reserves room for `additional` more bytes in a string, and leaves its
/// characters as they are, whether the allocator grants the room or not.
pub assume_specification[ std::string::String::try_reserve_exact ](
    s: &mut std::string::String,
    additional: usize,
) -> (r: Result<(), std::collections::TryReserveError>)
    ensures
        final(s)@ == old(s)@,
;

/// An empty string with room for `capacity` bytes, or `Error::OutOfMemory` where
/// the allocator declines.
///
/// A request for no bytes is always granted, and one for more bytes than an
/// allocation can hold, `isize::MAX`, is always declined.
pub fn try_string_with_capacity(capacity: usize) -> (r: Result<String, Error>)
    ensures
        match r {
            Ok(s) => s@ == Seq::<char>::empty(),
            Err(e) => e == Error::OutOfMemory,
        },
        capacity == 0 ==> r is Ok,
        capacity > isize::MAX ==> r is Err,
{
    let mut s: String = String::new();
    if capacity == 0 {
        return Ok(s);
    }
    if capacity > isize::MAX as usize {
        return Err(Error::OutOfMemory);
    }
    match s.try_reserve_exact(capacity) {
        Ok(_) => Ok(s),
        Err(_) => Err(Error::OutOfMemory),
    }
}

/// The character of a decimal digit.
pub open spec fn digit_char(d: nat) -> char {
    if d == 0 {
        '0'
    } else if d == 1 {
        '1'
    } else if d == 2 {
        '2'
    } else if d == 3 {
        '3'
    } else if d == 4 {
        '4'
    } else if d == 5 {
        '5'
    } else if d == 6 {
        '6'
    } else if d == 7 {
        '7'
    } else if d == 8 {
        '8'
    } else {
        '9'
    }
}

/// A number in decimal.
pub open spec fn decimal(n: nat) -> Seq<char>
    decreases n,
{
    if n < 10 {
        seq![digit_char(n)]
    } else {
        decimal(n / 10).push(digit_char(n % 10))
    }
}

/// The text of a decimal digit.
fn digit_str(d: usize) -> (r: &'static str)
    requires
        d < 10,
    ensures
        r@ == seq![digit_char(d as nat)],
{
    proof {
        reveal_strlit("0");
        reveal_strlit("1");
        reveal_strlit("2");
        reveal_strlit("3");
        reveal_strlit("4");
        reveal_strlit("5");
        reveal_strlit("6");
        reveal_strlit("7");
        reveal_strlit("8");
        reveal_strlit("9");
    }
    let r: &'static str = if d == 0 {
        "0"
    } else if d == 1 {
        "1"
    } else if d == 2 {
        "2"
    } else if d == 3 {
        "3"
    } else if d == 4 {
        "4"
    } else if d == 5 {
        "5"
    } else if d == 6 {
        "6"
    } else if d == 7 {
        "7"
    } else if d == 8 {
        "8"
    } else {
        "9"
    };
    assert(r@ =~= seq![digit_char(d as nat)]);
    r
}

/// Appends a number in decimal.
pub fn push_decimal(s: &mut String, n: usize)
    ensures
        final(s)@ == old(s)@ + decimal(n as nat),
    decreases n,
{
    let ghost before = s@;
    if n >= 10 {
        push_decimal(s, n / 10);
    }
    s.append(digit_str(n % 10));
    assert(s@ =~= before + decimal(n as nat));
}

/// `text`, `count` times over.
pub open spec fn repeated(text: Seq<char>, count: nat) -> Seq<char>
    decreases count,
{
    if count == 0 {
        Seq::empty()
    } else {
        repeated(text, (count - 1) as nat) + text
    }
}

/// Appends `text`, `count` times over.
pub fn push_repeated_str(s: &mut String, text: &str, count: usize)
    ensures
        final(s)@ == old(s)@ + repeated(text@, count as nat),
{
    let ghost before = s@;
    let mut i: usize = 0;
    assert(s@ =~= before + repeated(text@, 0));
    while i < count
        invariant
            i <= count,
            s@ == before + repeated(text@, i as nat),
        decreases count - i,
    {
        s.append(text);
        i += 1;
        assert(s@ =~= before + repeated(text@, i as nat));
    }
}

/// One text after another.
pub fn joined(a: &str, b: &str) -> (r: String)
    ensures
        r@ == a@ + b@,
{
    let mut r: String = a.to_owned();
    r.append(b);
    r
}

/// Whether two texts hold the same characters.
pub fn same_text(a: &str, b: &str) -> (r: bool)
    ensures
        r == (a@ == b@),
{
    a.to_owned() == b.to_owned()
}

/// Whether `part` stands in `text` from position `i` on.
pub open spec fn stands_at(text: Seq<char>, part: Seq<char>, i: int) -> bool {
    0 <= i && i + part.len() <= text.len() && text.subrange(i, i + part.len()) == part
}

/// Whether `part` stands anywhere in `text`.
pub open spec fn occurs(text: Seq<char>, part: Seq<char>) -> bool {
    exists|i: int| stands_at(text, part, i)
}

/// Whether `part` stands in `text` from position `i` on.
fn found_at(text: &str, part: &str, i: usize) -> (r: bool)
    ensures
        r == stands_at(text@, part@, i as int),
{
    let text_len: usize = text.unicode_len();
    let part_len: usize = part.unicode_len();
    if i > text_len || part_len > text_len - i {
        return false;
    }
    same_text(text.substring_char(i, i + part_len), part)
}

/// Whether `part` stands anywhere in `text`.
pub fn contains_text(text: &str, part: &str) -> (r: bool)
    ensures
        r == occurs(text@, part@),
{
    let len: usize = text.unicode_len();
    let mut i: usize = 0;
    loop
        invariant
            i <= len,
            len == text@.len(),
            forall|j: int| 0 <= j < i ==> !#[trigger] stands_at(text@, part@, j),
        decreases len - i,
    {
        if found_at(text, part, i) {
            return true;
        }
        if i == len {
            assert(!occurs(text@, part@)) by {
                assert forall|j: int| !#[trigger] stands_at(text@, part@, j) by {}
            }
            return false;
        }
        i += 1;
    }
}

/// Whether `text` begins with `prefix`.
pub open spec fn begins_with(text: Seq<char>, prefix: Seq<char>) -> bool {
    stands_at(text, prefix, 0)
}

/// What follows `prefix` in a text that begins with it.
pub fn after_prefix<'a>(text: &'a str, prefix: &str) -> (r: Option<&'a str>)
    ensures
        match r {
            Some(rest) => text@ == prefix@ + rest@,
            None => !begins_with(text@, prefix@),
        },
{
    if !found_at(text, prefix, 0) {
        return None;
    }
    let rest: &'a str = text.substring_char(prefix.unicode_len(), text.unicode_len());
    assert(text@ =~= text@.subrange(0, prefix@.len() as int) + rest@);
    Some(rest)
}

/// `text` with every occurrence of `from` replaced by `to`, from left to right.
pub open spec fn replaced(text: Seq<char>, from: Seq<char>, to: Seq<char>) -> Seq<char>
    decreases text.len(),
{
    if from.len() == 0 || text.len() < from.len() {
        text
    } else if stands_at(text, from, 0) {
        to + replaced(text.skip(from.len() as int), from, to)
    } else {
        seq![text[0]] + replaced(text.skip(1), from, to)
    }
}

/// Replaces every occurrence of `from` by `to`, from left to right.
pub fn replace_text(text: &str, from: &str, to: &str) -> (r: String)
    requires
        from@.len() > 0,
    ensures
        r@ == replaced(text@, from@, to@),
{
    let len: usize = text.unicode_len();
    let part: usize = from.unicode_len();
    let mut out: String = String::new();
    let mut i: usize = 0;
    assert(text@.skip(0) =~= text@);
    assert(out@ + replaced(text@.skip(0), from@, to@) =~= replaced(text@, from@, to@));
    while part <= len && i <= len - part
        invariant
            i <= len,
            len == text@.len(),
            part == from@.len(),
            part > 0,
            replaced(text@, from@, to@) == out@ + replaced(text@.skip(i as int), from@, to@),
        decreases len - i,
    {
        let ghost before = out@;
        let ghost rest = text@.skip(i as int);
        proof {
            assert(rest.subrange(0, part as int) =~= text@.subrange(i as int, i + part));
            assert(rest.skip(part as int) =~= text@.skip(i + part));
            assert(rest.skip(1) =~= text@.skip(i + 1));
        }
        if found_at(text, from, i) {
            out.append(to);
            i += part;
            assert(before + (to@ + replaced(text@.skip(i as int), from@, to@)) =~= out@ + replaced(
                text@.skip(i as int),
                from@,
                to@,
            ));
        } else {
            out.append(text.substring_char(i, i + 1));
            assert(text@.subrange(i as int, i + 1) =~= seq![rest[0]]);
            i += 1;
            assert(before + (seq![rest[0]] + replaced(text@.skip(i as int), from@, to@)) =~= out@
                + replaced(text@.skip(i as int), from@, to@));
        }
    }
    out.append(text.substring_char(i, len));
    assert(text@.subrange(i as int, len as int) =~= text@.skip(i as int));
    out
}


// ---------------------------------------------------------------------------
// Laws
// ---------------------------------------------------------------------------

/// The number that a text of decimal digits stands for.
pub open spec fn value_of(digits: Seq<char>) -> int
    decreases digits.len(),
{
    if digits.len() == 0 {
        0
    } else {
        value_of(digits.drop_last()) * 10 + (digits.last() as int - '0' as int)
    }
}

/// A number in decimal is made of digits, reads back as the number, and does not begin
/// with a zero unless that is all of it.
pub proof fn law_decimals_read_back(n: nat)
    ensures
        value_of(decimal(n)) == n,
        decimal(n).len() > 0,
        forall|i: int| 0 <= i < decimal(n).len() ==> '0' <= #[trigger] decimal(n)[i] <= '9',
        decimal(n).len() > 1 ==> decimal(n)[0] != '0',
        n > 0 ==> decimal(n)[0] != '0',
    decreases n,
{
    if n < 10 {
        assert(decimal(n).drop_last() =~= Seq::<char>::empty());
        assert(value_of(Seq::<char>::empty()) == 0);
    } else {
        law_decimals_read_back(n / 10);
        assert(decimal(n).drop_last() =~= decimal(n / 10));
        assert(decimal(n)[0] == decimal(n / 10)[0]);
    }
}

/// A text occurs in another where the other is made of something, the text, and
/// something more; it begins the other where nothing comes first.
pub proof fn law_a_text_occurs_between_two_others(text: Seq<char>, part: Seq<char>)
    ensures
        occurs(text, part) <==> exists|a: Seq<char>, b: Seq<char>|
            #![trigger a + part + b]
            text == a + part + b,
        begins_with(text, part) <==> exists|b: Seq<char>| #[trigger] (part + b) == text,
{
    if occurs(text, part) {
        let i = choose|i: int| stands_at(text, part, i);
        let a = text.subrange(0, i);
        let b = text.subrange(i + part.len(), text.len() as int);
        assert forall|k: int| i <= k < i + part.len() implies text[k] == part[k - i] by {
            assert(text.subrange(i, i + part.len())[k - i] == text[k]);
        }
        assert(text =~= a + part + b);
    }
    if exists|a: Seq<char>, b: Seq<char>|
        #![trigger a + part + b]
        text == a + part + b {
        let (a, b) = choose|a: Seq<char>, b: Seq<char>|
            #![trigger a + part + b]
            text == a + part + b;
        assert(text.subrange(a.len() as int, (a.len() + part.len()) as int) =~= part);
        assert(stands_at(text, part, a.len() as int));
    }
    if begins_with(text, part) {
        let b = text.subrange(part.len() as int, text.len() as int);
        assert forall|k: int| 0 <= k < part.len() implies text[k] == part[k] by {
            assert(text.subrange(0, part.len() as int)[k] == text[k]);
        }
        assert(text =~= part + b);
    }
    if exists|b: Seq<char>| #[trigger] (part + b) == text {
        let b = choose|b: Seq<char>| #[trigger] (part + b) == text;
        assert(text.subrange(0, part.len() as int) =~= part);
    }
}

/// Replacing a text that does not occur changes nothing.
pub proof fn law_replacing_what_is_not_there_changes_nothing(
    text: Seq<char>,
    from: Seq<char>,
    to: Seq<char>,
)
    requires
        !occurs(text, from),
    ensures
        replaced(text, from, to) == text,
    decreases text.len(),
{
    if from.len() != 0 && text.len() >= from.len() {
        assert(!stands_at(text, from, 0));
        let rest = text.skip(1);
        assert forall|i: int| !stands_at(rest, from, i) by {
            if stands_at(rest, from, i) {
                assert(text.subrange(i + 1, i + 1 + from.len()) =~= rest.subrange(
                    i,
                    i + from.len(),
                ));
                assert(stands_at(text, from, i + 1));
            }
        }
        law_replacing_what_is_not_there_changes_nothing(rest, from, to);
        assert(seq![text[0]] + rest =~= text);
    }
}

/// Replacing a text replaces its first occurrence, keeps what comes before it, and goes
/// on behind it.
pub proof fn law_replacing_goes_from_left_to_right(
    before: Seq<char>,
    after: Seq<char>,
    from: Seq<char>,
    to: Seq<char>,
)
    requires
        from.len() > 0,
        forall|i: int| 0 <= i < before.len() ==> !stands_at(before + from + after, from, i),
    ensures
        replaced(before + from + after, from, to) == before + to + replaced(after, from, to),
    decreases before.len(),
{
    let text = before + from + after;
    if before.len() == 0 {
        assert(text.subrange(0, from.len() as int) =~= from);
        assert(text.skip(from.len() as int) =~= after);
        assert(before + to + replaced(after, from, to) =~= to + replaced(after, from, to));
    } else {
        let rest = before.skip(1);
        let tail = rest + from + after;
        assert(text.skip(1) =~= tail);
        assert(!stands_at(text, from, 0));
        assert forall|i: int| 0 <= i < rest.len() implies !stands_at(tail, from, i) by {
            if stands_at(tail, from, i) {
                assert(text.subrange(i + 1, i + 1 + from.len()) =~= tail.subrange(
                    i,
                    i + from.len(),
                ));
                assert(stands_at(text, from, i + 1));
            }
        }
        law_replacing_goes_from_left_to_right(rest, after, from, to);
        assert(seq![text[0]] + (rest + to + replaced(after, from, to)) =~= before + to + replaced(
            after,
            from,
            to,
        ));
    }
}

/// A text that is repeated stands there that many times, end to end.
pub proof fn law_repeated_texts_stand_end_to_end(text: Seq<char>, count: nat, k: int, i: int)
    requires
        0 <= k < count,
        0 <= i < text.len(),
    ensures
        repeated(text, count).len() == count * text.len(),
        0 <= k * text.len() + i < repeated(text, count).len(),
        repeated(text, count)[k * text.len() + i] == text[i],
    decreases count,
{
    let n = text.len() as int;
    lemma_repeated_len(text, count);
    lemma_repeated_len(text, (count - 1) as nat);
    assert(k * n + i < count * n) by (nonlinear_arith)
        requires
            0 <= k < count,
            0 <= i < n,
    ;
    assert(0 <= k * n) by (nonlinear_arith)
        requires
            0 <= k,
            0 <= n,
    ;
    if k < count - 1 {
        law_repeated_texts_stand_end_to_end(text, (count - 1) as nat, k, i);
    }
}

proof fn lemma_repeated_len(text: Seq<char>, count: nat)
    ensures
        repeated(text, count).len() == count * text.len(),
    decreases count,
{
    let n = text.len() as int;
    if count > 0 {
        lemma_repeated_len(text, (count - 1) as nat);
        assert((count - 1) * n + n == count * n) by (nonlinear_arith);
    } else {
        assert(0 * n == 0) by (nonlinear_arith);
    }
}


} // verus!
