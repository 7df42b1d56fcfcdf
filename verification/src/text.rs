//! Text as sequences of characters: splitting at a separator, joining,
//! trimming trailing whitespace, and reading and writing decimal numbers.

use vstd::prelude::*;
use vstd::string::*;

verus! {

/// The pieces of `text` between occurrences of `sep`. There is always at
/// least one piece; the empty text has the single piece `""`, and a
/// separator at either end leaves an empty piece there.
pub open spec fn pieces(text: Seq<char>, sep: char) -> Seq<Seq<char>>
    decreases text.len(),
{
    if text.len() == 0 {
        seq![Seq::empty()]
    } else {
        let before = pieces(text.drop_last(), sep);
        if text.last() == sep {
            before.push(Seq::empty())
        } else {
            before.drop_last().push(before.last().push(text.last()))
        }
    }
}

/// The parts written one after another with `sep` between neighbours.
pub open spec fn joined(parts: Seq<Seq<char>>, sep: char) -> Seq<char>
    decreases parts.len(),
{
    if parts.len() == 0 {
        Seq::empty()
    } else if parts.len() == 1 {
        parts[0]
    } else {
        joined(parts.drop_last(), sep) + seq![sep] + parts.last()
    }
}

/// The characters with the Unicode property `White_Space`.
pub open spec fn is_whitespace(c: char) -> bool {
    let n = c as u32;
    ||| 0x09 <= n <= 0x0D
    ||| n == 0x20
    ||| n == 0x85
    ||| n == 0xA0
    ||| n == 0x1680
    ||| 0x2000 <= n <= 0x200A
    ||| n == 0x2028
    ||| n == 0x2029
    ||| n == 0x202F
    ||| n == 0x205F
    ||| n == 0x3000
}

/// `text` without the whitespace at its end.
pub open spec fn trimmed_end(text: Seq<char>) -> Seq<char>
    decreases text.len(),
{
    if text.len() > 0 && is_whitespace(text.last()) {
        trimmed_end(text.drop_last())
    } else {
        text
    }
}

/// Whether `c` is one of `0` to `9`.
pub open spec fn is_digit(c: char) -> bool {
    0x30 <= c as u32 <= 0x39
}

/// The value of the digit `c`.
pub open spec fn digit_value(c: char) -> nat {
    (c as u32 - 0x30) as nat
}

/// Whether `text` holds digits only.
pub open spec fn all_digits(text: Seq<char>) -> bool {
    forall|i: int| 0 <= i < text.len() ==> is_digit(#[trigger] text[i])
}

/// The number that a sequence of digits denotes in base ten; leading zeros
/// do not count.
pub open spec fn digits_value(digits: Seq<char>) -> nat
    decreases digits.len(),
{
    if digits.len() == 0 {
        0
    } else {
        10 * digits_value(digits.drop_last()) + digit_value(digits.last())
    }
}

/// `token` without one leading `+`, if it has one.
pub open spec fn unsigned_part(token: Seq<char>) -> Seq<char> {
    if token.len() > 0 && token[0] == '+' {
        token.skip(1)
    } else {
        token
    }
}

/// The number that `token` denotes, if it is a number no larger than `max`:
/// an optional `+`, then one or more digits and nothing else.
pub open spec fn parse_number(token: Seq<char>, max: nat) -> Option<nat> {
    let digits = unsigned_part(token);
    if digits.len() > 0 && all_digits(digits) && digits_value(digits) <= max {
        Some(digits_value(digits))
    } else {
        None
    }
}

/// The digit that stands for `d`, for `d` below ten.
pub open spec fn digit_char(d: nat) -> char {
    if d == 0 {
        '0'
    } else if d == 1 {
        '1'
    } else if d == 2 {
        '2'
    } else if d == 3 {
        '3'
    } else if d == 4 {
        '4'
    } else if d == 5 {
        '5'
    } else if d == 6 {
        '6'
    } else if d == 7 {
        '7'
    } else if d == 8 {
        '8'
    } else {
        '9'
    }
}

/// `n` in base ten, without leading zeros.
pub open spec fn decimal(n: nat) -> Seq<char>
    decreases n,
{
    if n < 10 {
        seq![digit_char(n)]
    } else {
        decimal(n / 10).push(digit_char(n % 10))
    }
}

/// The contents of each of a sequence of character vectors.
pub open spec fn views(parts: Seq<Vec<char>>) -> Seq<Seq<char>> {
    Seq::new(parts.len(), |i: int| parts[i]@)
}

/// The contents of each of a sequence of string slices.
pub open spec fn line_views(lines: Seq<&str>) -> Seq<Seq<char>> {
    Seq::new(lines.len(), |i: int| lines[i]@)
}

/// A number is no smaller than the number that any prefix of its digits denotes.
pub proof fn lemma_digits_value_prefix(digits: Seq<char>, n: int)
    requires
        0 <= n <= digits.len(),
    ensures
        digits_value(digits.take(n)) <= digits_value(digits),
    decreases digits.len(),
{
    if n == digits.len() {
        assert(digits.take(n) =~= digits);
    } else {
        assert(digits.drop_last().take(n) =~= digits.take(n));
        lemma_digits_value_prefix(digits.drop_last(), n);
    }
}

/// Whether `c` does not occur in `text`.
pub open spec fn free_of(text: Seq<char>, c: char) -> bool {
    forall|i: int| 0 <= i < text.len() ==> #[trigger] text[i] != c
}

/// Whether `c` occurs in none of the parts.
pub open spec fn all_free_of(parts: Seq<Seq<char>>, c: char) -> bool {
    forall|i: int| 0 <= i < parts.len() ==> free_of(#[trigger] parts[i], c)
}

/// Joining one more part appends a separator and the part, unless it is
/// the first.
pub proof fn lemma_joined_push(parts: Seq<Seq<char>>, part: Seq<char>, sep: char)
    ensures
        joined(parts.push(part), sep) == if parts.len() == 0 {
            part
        } else {
            joined(parts, sep) + seq![sep] + part
        },
{
    assert(parts.push(part).drop_last() =~= parts);
}

/// Joining two runs of parts joins each and puts a separator between them.
pub proof fn lemma_joined_concat(a: Seq<Seq<char>>, b: Seq<Seq<char>>, sep: char)
    requires
        a.len() >= 1,
        b.len() >= 1,
    ensures
        joined(a + b, sep) == joined(a, sep) + seq![sep] + joined(b, sep),
    decreases b.len(),
{
    if b.len() == 1 {
        assert(a + b =~= a.push(b[0]));
        lemma_joined_push(a, b[0], sep);
    } else {
        assert((a + b).drop_last() =~= a + b.drop_last());
        lemma_joined_concat(a, b.drop_last(), sep);
        assert(joined(a + b, sep) =~= joined(a, sep) + seq![sep] + joined(b, sep));
    }
}

/// A character that is neither the separator nor in any part is not in
/// the joined text.
pub proof fn lemma_joined_free_of(parts: Seq<Seq<char>>, sep: char, c: char)
    requires
        all_free_of(parts, c),
        sep != c,
    ensures
        free_of(joined(parts, sep), c),
    decreases parts.len(),
{
    if parts.len() >= 2 {
        assert(all_free_of(parts.drop_last(), c)) by {
            assert forall|i: int| 0 <= i < parts.drop_last().len() implies free_of(
                #[trigger] parts.drop_last()[i],
                c,
            ) by {
                assert(parts.drop_last()[i] == parts[i]);
            }
        }
        lemma_joined_free_of(parts.drop_last(), sep, c);
        assert(free_of(parts.last(), c));
    } else if parts.len() == 1 {
        assert(free_of(parts[0], c));
    }
}

/// A joined text ends as its last part ends.
pub proof fn lemma_joined_last(parts: Seq<Seq<char>>, sep: char)
    requires
        parts.len() >= 1,
        parts.last().len() >= 1,
    ensures
        joined(parts, sep).len() >= 1,
        joined(parts, sep).last() == parts.last().last(),
{
}

/// There is always at least one piece.
pub proof fn lemma_pieces_nonempty(text: Seq<char>, sep: char)
    ensures
        pieces(text, sep).len() >= 1,
    decreases text.len(),
{
    if text.len() > 0 {
        lemma_pieces_nonempty(text.drop_last(), sep);
    }
}

/// Text without a separator, appended, lengthens the last piece.
pub proof fn lemma_pieces_append(text: Seq<char>, tail: Seq<char>, sep: char)
    requires
        free_of(tail, sep),
    ensures
        pieces(text, sep).len() >= 1,
        pieces(text + tail, sep) == pieces(text, sep).drop_last().push(
            pieces(text, sep).last() + tail,
        ),
    decreases tail.len(),
{
    let whole = pieces(text, sep);
    lemma_pieces_nonempty(text, sep);
    if tail.len() == 0 {
        assert(text + tail =~= text);
        assert(whole.drop_last().push(whole.last() + tail) =~= whole);
    } else {
        let shorter = tail.drop_last();
        assert((text + tail).drop_last() =~= text + shorter);
        assert((text + tail).last() == tail.last());
        assert(tail.last() == tail[tail.len() - 1]);
        assert(free_of(shorter, sep)) by {
            assert forall|i: int| 0 <= i < shorter.len() implies #[trigger] shorter[i] != sep by {
                assert(shorter[i] == tail[i]);
            }
        }
        lemma_pieces_append(text, shorter, sep);
        let before = pieces(text + shorter, sep);
        assert(before.drop_last() =~= whole.drop_last());
        assert(before.last().push(tail.last()) =~= whole.last() + tail);
    }
}

/// Splitting undoes joining, as long as no part holds the separator.
pub proof fn lemma_pieces_of_joined(parts: Seq<Seq<char>>, sep: char)
    requires
        parts.len() >= 1,
        all_free_of(parts, sep),
    ensures
        pieces(joined(parts, sep), sep) == parts,
    decreases parts.len(),
{
    let empty = Seq::<char>::empty();
    if parts.len() == 1 {
        assert(free_of(parts[0], sep));
        lemma_pieces_append(empty, parts[0], sep);
        assert(empty + parts[0] =~= parts[0]);
        assert(pieces(empty, sep) =~= seq![empty]);
        assert(seq![empty].drop_last().push(empty + parts[0]) =~= parts);
    } else {
        let init = parts.drop_last();
        assert(all_free_of(init, sep)) by {
            assert forall|i: int| 0 <= i < init.len() implies free_of(#[trigger] init[i], sep) by {
                assert(init[i] == parts[i]);
            }
        }
        lemma_pieces_of_joined(init, sep);
        let start = joined(init, sep).push(sep);
        assert(start.drop_last() =~= joined(init, sep));
        assert(pieces(start, sep) == init.push(empty));
        assert(free_of(parts.last(), sep));
        lemma_pieces_append(start, parts.last(), sep);
        assert(joined(parts, sep) =~= start + parts.last());
        assert(init.push(empty).drop_last().push(empty + parts.last()) =~= parts);
    }
}

/// Joining undoes splitting.
pub proof fn lemma_joined_pieces(text: Seq<char>, sep: char)
    ensures
        pieces(text, sep).len() >= 1,
        all_free_of(pieces(text, sep), sep),
        joined(pieces(text, sep), sep) == text,
    decreases text.len(),
{
    let parts = pieces(text, sep);
    if text.len() == 0 {
        assert(joined(parts, sep) =~= text);
        assert(all_free_of(parts, sep));
    } else {
        let before = pieces(text.drop_last(), sep);
        lemma_joined_pieces(text.drop_last(), sep);
        if text.last() == sep {
            lemma_joined_push(before, Seq::empty(), sep);
            assert(joined(parts, sep) =~= text.drop_last().push(sep));
            assert(text.drop_last().push(text.last()) =~= text);
            assert forall|i: int| 0 <= i < parts.len() implies free_of(#[trigger] parts[i], sep) by {
                if i < before.len() {
                    assert(parts[i] == before[i]);
                }
            }
        } else {
            let last = before.last().push(text.last());
            lemma_joined_push(before.drop_last(), last, sep);
            lemma_joined_push(before.drop_last(), before.last(), sep);
            assert(before.drop_last().push(before.last()) =~= before);
            assert(joined(parts, sep) =~= text.drop_last().push(text.last()));
            assert(text.drop_last().push(text.last()) =~= text);
            assert forall|i: int| 0 <= i < parts.len() implies free_of(#[trigger] parts[i], sep) by {
                if i < before.len() - 1 {
                    assert(parts[i] == before[i]);
                } else {
                    assert(free_of(before.last(), sep));
                    assert(parts[i] == last);
                }
            }
        }
    }
}

/// Whitespace appended to a text is trimmed away again.
pub proof fn lemma_trimmed_end_push(text: Seq<char>, c: char)
    requires
        is_whitespace(c),
    ensures
        trimmed_end(text.push(c)) == trimmed_end(text),
{
    assert(text.push(c).drop_last() =~= text);
}

/// A digit stands for its value.
pub proof fn lemma_digit_char(d: nat)
    requires
        d < 10,
    ensures
        is_digit(digit_char(d)),
        digit_value(digit_char(d)) == d,
{
}

/// The decimal text of a number is made of digits and denotes the number.
pub proof fn lemma_decimal(n: nat)
    ensures
        decimal(n).len() >= 1,
        all_digits(decimal(n)),
        digits_value(decimal(n)) == n,
    decreases n,
{
    if n < 10 {
        lemma_digit_char(n);
        assert(decimal(n).drop_last() =~= Seq::<char>::empty());
        assert(digits_value(decimal(n).drop_last()) == 0);
    } else {
        lemma_decimal(n / 10);
        lemma_digit_char(n % 10);
        assert(decimal(n).drop_last() =~= decimal(n / 10));
    }
}

/// Reading the decimal text of a number gives the number back.
pub proof fn lemma_parse_decimal(n: nat, max: nat)
    requires
        n <= max,
    ensures
        parse_number(decimal(n), max) == Some(n),
{
    lemma_decimal(n);
    assert(is_digit(decimal(n)[0]));
}

/// Text made of digits holds no space, no newline and no whitespace.
pub proof fn lemma_digits_are_plain(text: Seq<char>)
    requires
        all_digits(text),
    ensures
        free_of(text, ' '),
        free_of(text, '\n'),
        forall|i: int| 0 <= i < text.len() ==> !is_whitespace(#[trigger] text[i]),
{
    assert forall|i: int| 0 <= i < text.len() implies #[trigger] text[i] != ' ' && text[i] != '\n'
        && !is_whitespace(text[i]) by {
        assert(is_digit(text[i]));
    }
}

/// The characters of `s`, in order.
pub fn chars_of(s: &str) -> (chars: Vec<char>)
    ensures
        chars@ == s@,
{
    let mut chars: Vec<char> = Vec::new();
    for c in it: s.chars()
        invariant
            it.seq() == s@,
            chars@ == s@.take(it.index()),
    {
        chars.push(c);
    }
    chars
}

/// Splits `text` at every `sep`.
pub fn split(text: &Vec<char>, sep: char) -> (parts: Vec<Vec<char>>)
    ensures
        views(parts@) == pieces(text@, sep),
{
    let mut parts: Vec<Vec<char>> = Vec::new();
    let mut current: Vec<char> = Vec::new();
    let mut i: usize = 0;
    proof {
        assert(text@.take(0) =~= Seq::<char>::empty());
        assert(views(parts@).push(current@) =~= pieces(text@.take(0), sep));
    }
    while i < text.len()
        invariant
            i <= text.len(),
            views(parts@).push(current@) == pieces(text@.take(i as int), sep),
        decreases text.len() - i,
    {
        let c = text[i];
        let ghost before = views(parts@).push(current@);
        proof {
            assert(text@.take(i + 1).drop_last() =~= text@.take(i as int));
            assert(text@.take(i + 1).last() == c);
        }
        if c == sep {
            parts.push(current);
            current = Vec::new();
            assert(views(parts@).push(current@) =~= before.push(Seq::empty()));
        } else {
            current.push(c);
            assert(views(parts@).push(current@) =~= before.drop_last().push(
                before.last().push(c),
            ));
        }
        i += 1;
    }
    proof {
        assert(text@.take(i as int) =~= text@);
    }
    let ghost before = views(parts@).push(current@);
    parts.push(current);
    assert(views(parts@) =~= before);
    parts
}

/// Joins the parts from index `start` on, with `sep` between neighbours.
pub fn join(parts: &Vec<Vec<char>>, start: usize, sep: char) -> (text: Vec<char>)
    requires
        start <= parts.len(),
    ensures
        text@ == joined(views(parts@).skip(start as int), sep),
{
    let mut text: Vec<char> = Vec::new();
    let mut i: usize = start;
    proof {
        assert(views(parts@).subrange(start as int, start as int) =~= Seq::empty());
    }
    while i < parts.len()
        invariant
            start <= i <= parts.len(),
            text@ == joined(views(parts@).subrange(start as int, i as int), sep),
        decreases parts.len() - i,
    {
        let ghost done = views(parts@).subrange(start as int, i as int);
        let ghost next = views(parts@).subrange(start as int, i + 1);
        proof {
            assert(next.drop_last() =~= done);
            assert(next.last() == parts@[i as int]@);
        }
        if i > start {
            text.push(sep);
        }
        let ghost head = text@;
        let part = &parts[i];
        let mut j: usize = 0;
        while j < part.len()
            invariant
                j <= part.len(),
                text@ == head + part@.take(j as int),
            decreases part.len() - j,
        {
            text.push(part[j]);
            proof {
                assert(part@.take(j + 1) =~= part@.take(j as int).push(part@[j as int]));
            }
            j += 1;
        }
        proof {
            assert(part@.take(j as int) =~= part@);
            if i > start {
                assert(text@ =~= joined(done, sep) + seq![sep] + part@);
            } else {
                assert(text@ =~= part@);
            }
        }
        i += 1;
    }
    proof {
        assert(views(parts@).subrange(start as int, i as int) =~= views(parts@).skip(
            start as int,
        ));
    }
    text
}

/// Whether `c` is whitespace.
pub fn char_is_whitespace(c: char) -> (yes: bool)
    ensures
        yes == is_whitespace(c),
{
    let n: u32 = c as u32;
    (0x09 <= n && n <= 0x0D) || n == 0x20 || n == 0x85 || n == 0xA0 || n == 0x1680 || (0x2000 <= n
        && n <= 0x200A) || n == 0x2028 || n == 0x2029 || n == 0x202F || n == 0x205F || n == 0x3000
}

/// Removes the whitespace at the end of `text`.
pub fn trim_end(text: &mut Vec<char>)
    ensures
        final(text)@ == trimmed_end(old(text)@),
{
    while text.len() > 0 && char_is_whitespace(text[text.len() - 1])
        invariant
            trimmed_end(text@) == trimmed_end(old(text)@),
        decreases text.len(),
    {
        let ghost before = text@;
        text.pop();
        assert(text@ =~= before.drop_last());
    }
}

/// Reads `token` as a number no larger than `max`.
pub fn read_number(token: &Vec<char>, max: u64) -> (value: Option<u64>)
    ensures
        match value {
            Some(n) => parse_number(token@, max as nat) == Some(n as nat),
            None => parse_number(token@, max as nat) is None,
        },
{
    let start: usize = if token.len() > 0 && token[0] == '+' {
        1
    } else {
        0
    };
    let ghost digits = unsigned_part(token@);
    if start == token.len() {
        return None;
    }
    let mut value: u64 = 0;
    let mut i: usize = start;
    proof {
        assert(digits.take(0) =~= Seq::<char>::empty());
    }
    while i < token.len()
        invariant
            start <= i <= token.len(),
            digits == token@.skip(start as int),
            digits == unsigned_part(token@),
            all_digits(digits.take(i - start)),
            value == digits_value(digits.take(i - start)),
            value <= max,
        decreases token.len() - i,
    {
        let c = token[i];
        let n: u32 = c as u32;
        let ghost k = i - start;
        proof {
            assert(digits[k] == c);
            assert(digits.take(k + 1).drop_last() =~= digits.take(k));
            assert(digits.take(k + 1).last() == c);
        }
        if n < 0x30 || n > 0x39 {
            assert(!is_digit(digits[k]));
            return None;
        }
        let d: u64 = (n - 0x30) as u64;
        assert(digits_value(digits.take(k + 1)) == 10 * value + d);
        if d > max || value > (max - d) / 10 {
            proof {
                lemma_digits_value_prefix(digits, k + 1);
            }
            return None;
        }
        value = 10 * value + d;
        i += 1;
    }
    proof {
        assert(digits.take(i - start) =~= digits);
    }
    Some(value)
}

/// The one-character text of the digit `d`.
fn digit_str(d: u8) -> (s: &'static str)
    requires
        d < 10,
    ensures
        s@ == seq![digit_char(d as nat)],
{
    proof {
        reveal_strlit("0");
        reveal_strlit("1");
        reveal_strlit("2");
        reveal_strlit("3");
        reveal_strlit("4");
        reveal_strlit("5");
        reveal_strlit("6");
        reveal_strlit("7");
        reveal_strlit("8");
        reveal_strlit("9");
    }
    let s = match d {
        0 => "0",
        1 => "1",
        2 => "2",
        3 => "3",
        4 => "4",
        5 => "5",
        6 => "6",
        7 => "7",
        8 => "8",
        _ => "9",
    };
    assert(s@ =~= seq![digit_char(d as nat)]);
    s
}

/// Appends `n` in base ten to `out`.
pub fn push_decimal(out: &mut String, n: u64)
    ensures
        final(out)@ == old(out)@ + decimal(n as nat),
    decreases n,
{
    if n >= 10 {
        push_decimal(out, n / 10);
    }
    out.append(digit_str((n % 10) as u8));
    assert(out@ =~= old(out)@ + decimal(n as nat));
}

} // verus!
