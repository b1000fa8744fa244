//! Text: characters, lines, white space and decimal numbers.

use vstd::prelude::*;

verus! {

/// `String::push` appends the character at the end of the string.
pub assume_specification[ String::push ](text: &mut String, c: char)
    ensures
        final(text)@ == old(text)@.push(c),
;

/// What a list of strings stands for.
pub open spec fn texts(strings: Seq<String>) -> Seq<Seq<char>> {
    strings.map_values(|s: String| s@)
}

/// The characters of a text.
pub fn chars_of(text: &str) -> (chars: Vec<char>)
    ensures
        chars@ == text@,
{
    let mut chars: Vec<char> = Vec::new();
    for c in it: text.chars()
        invariant
            it.seq() == text@,
            chars@ == text@.take(it.index()),
    {
        chars.push(c);
        proof {
            assert(text@.take(it.index() + 1) =~= text@.take(it.index()).push(c));
        }
    }
    proof {
        assert(text@.take(text@.len() as int) =~= text@);
    }
    chars
}

/// The text made of the characters from `from` up to `to`.
pub fn text_of(chars: &Vec<char>, from: usize, to: usize) -> (text: String)
    requires
        from <= to <= chars@.len(),
    ensures
        text@ == chars@.subrange(from as int, to as int),
{
    let mut text = String::new();
    let mut i: usize = from;
    while i < to
        invariant
            from <= i <= to <= chars@.len(),
            text@ == chars@.subrange(from as int, i as int),
        decreases to - i,
    {
        text.push(chars[i]);
        proof {
            assert(chars@.subrange(from as int, i + 1) =~= chars@.subrange(
                from as int,
                i as int,
            ).push(chars@[i as int]));
        }
        i += 1;
    }
    text
}

/// One text after the other.
pub fn join(a: &str, b: &str) -> (joined: String)
    ensures
        joined@ == a@ + b@,
{
    let mut joined = a.to_string();
    joined.append(b);
    joined
}

/// Whether the two texts are the same.
pub fn same_text(a: &str, b: &str) -> (same: bool)
    ensures
        same == (a@ == b@),
{
    a.to_string() == b.to_string()
}

/// Whether the character has the Unicode property `White_Space`.
pub open spec fn white_space(c: char) -> bool {
    ||| 0x9 <= c as u32 <= 0xd
    ||| c as u32 == 0x20
    ||| c as u32 == 0x85
    ||| c as u32 == 0xa0
    ||| c as u32 == 0x1680
    ||| 0x2000 <= c as u32 <= 0x200a
    ||| c as u32 == 0x2028
    ||| c as u32 == 0x2029
    ||| c as u32 == 0x202f
    ||| c as u32 == 0x205f
    ||| c as u32 == 0x3000
}

/// Whether the character is white space.
pub fn is_white_space(c: char) -> (r: bool)
    ensures
        r == white_space(c),
{
    let n: u32 = c as u32;
    (0x9 <= n && n <= 0xd) || n == 0x20 || n == 0x85 || n == 0xa0 || n == 0x1680 || (0x2000 <= n && n
        <= 0x200a) || n == 0x2028 || n == 0x2029 || n == 0x202f || n == 0x205f || n == 0x3000
}

/// The text without the white space at its start.
pub open spec fn trimmed_start(text: Seq<char>) -> Seq<char>
    decreases text.len(),
{
    if text.len() > 0 && white_space(text[0]) {
        trimmed_start(text.drop_first())
    } else {
        text
    }
}

/// The text without the white space at its end.
pub open spec fn trimmed_end(text: Seq<char>) -> Seq<char>
    decreases text.len(),
{
    if text.len() > 0 && white_space(text.last()) {
        trimmed_end(text.drop_last())
    } else {
        text
    }
}

/// The text without the white space at both its ends.
pub open spec fn trimmed(text: Seq<char>) -> Seq<char> {
    trimmed_end(trimmed_start(text))
}

/// Whether the text holds nothing but white space.
pub open spec fn blank(text: Seq<char>) -> bool {
    forall|i: int| 0 <= i < text.len() ==> white_space(#[trigger] text[i])
}

/// Nothing is left of a text that holds nothing but white space, and of no other.
pub proof fn law_blank_trims_to_nothing(text: Seq<char>)
    ensures
        trimmed(text).len() == 0 <==> blank(text),
    decreases text.len(),
{
    if text.len() > 0 && white_space(text[0]) {
        let rest = text.drop_first();
        law_blank_trims_to_nothing(rest);
        assert forall|i: int| 0 <= i < rest.len() implies #[trigger] rest[i] == text[i + 1] by {}
        assert forall|i: int| 1 <= i < text.len() implies #[trigger] text[i] == rest[i - 1] by {}
    } else if text.len() > 0 {
        assert(!white_space(text[0]));
        lemma_trimmed_end_keeps_first(text);
    }
}

proof fn lemma_trimmed_end_keeps_first(text: Seq<char>)
    requires
        text.len() > 0,
        !white_space(text[0]),
    ensures
        trimmed_end(text).len() > 0,
    decreases text.len(),
{
    if white_space(text.last()) {
        lemma_trimmed_end_keeps_first(text.drop_last());
    }
}

/// Removes the white space at both ends of a text.
pub fn trim(text: &str) -> (r: String)
    ensures
        r@ == trimmed(text@),
{
    let chars = chars_of(text);
    let mut from: usize = 0;
    proof {
        assert(text@.skip(0) =~= text@);
    }
    while from < chars.len() && is_white_space(chars[from])
        invariant
            chars@ == text@,
            from <= chars.len(),
            trimmed_start(text@) == trimmed_start(text@.skip(from as int)),
        decreases chars.len() - from,
    {
        proof {
            assert(text@.skip(from as int).drop_first() =~= text@.skip(from + 1));
        }
        from += 1;
    }
    let mut to: usize = chars.len();
    proof {
        assert(text@.subrange(from as int, to as int) =~= text@.skip(from as int));
    }
    while from < to && is_white_space(chars[to - 1])
        invariant
            chars@ == text@,
            from <= to <= chars.len(),
            trimmed(text@) == trimmed_end(text@.subrange(from as int, to as int)),
        decreases to,
    {
        proof {
            assert(text@.subrange(from as int, to as int).drop_last() =~= text@.subrange(
                from as int,
                to - 1,
            ));
        }
        to -= 1;
    }
    text_of(&chars, from, to)
}

/// Whether a text holds nothing but white space.
pub fn is_blank(text: &str) -> (r: bool)
    ensures
        r == blank(text@),
{
    let chars = chars_of(text);
    let mut i: usize = 0;
    while i < chars.len()
        invariant
            chars@ == text@,
            i <= chars.len(),
            forall|k: int| 0 <= k < i ==> white_space(#[trigger] text@[k]),
        decreases chars.len() - i,
    {
        if !is_white_space(chars[i]) {
            return false;
        }
        i += 1;
    }
    true
}

/// Whether the text starts with another.
pub open spec fn has_prefix(text: Seq<char>, prefix: Seq<char>) -> bool {
    prefix.len() <= text.len() && text.take(prefix.len() as int) == prefix
}

/// Whether a text starts with another.
pub fn starts_with(text: &str, prefix: &str) -> (r: bool)
    ensures
        r == has_prefix(text@, prefix@),
{
    let chars = chars_of(text);
    let wanted = chars_of(prefix);
    if wanted.len() > chars.len() {
        return false;
    }
    let mut i: usize = 0;
    while i < wanted.len()
        invariant
            chars@ == text@,
            wanted@ == prefix@,
            i <= wanted.len() <= chars.len(),
            forall|k: int| 0 <= k < i ==> #[trigger] text@[k] == prefix@[k],
        decreases wanted.len() - i,
    {
        if chars[i] != wanted[i] {
            assert(text@.take(prefix@.len() as int)[i as int] != prefix@[i as int]);
            return false;
        }
        i += 1;
    }
    proof {
        assert(text@.take(prefix@.len() as int) =~= prefix@);
    }
    true
}

/// The decimal digit of a number below ten.
pub open spec fn digit(n: int) -> char {
    ('0' as int + n) as char
}

/// A number in decimal.
pub open spec fn decimal(n: nat) -> Seq<char>
    decreases n,
{
    if n < 10 {
        seq![digit(n as int)]
    } else {
        decimal(n / 10).push(digit((n % 10) as int))
    }
}

/// A number in decimal, with its sign if it is negative.
pub open spec fn signed_decimal(n: int) -> Seq<char> {
    if n < 0 {
        seq!['-'] + decimal((-n) as nat)
    } else {
        decimal(n as nat)
    }
}

fn digit_of(n: u8) -> (c: char)
    requires
        n < 10,
    ensures
        c == digit(n as int),
{
    (0x30u8 + n) as char
}

/// Writes a number in decimal.
pub fn decimal_text(n: u128) -> (text: String)
    ensures
        text@ == decimal(n as nat),
    decreases n,
{
    if n < 10 {
        let mut text = String::new();
        text.push(digit_of(n as u8));
        proof {
            assert(text@ =~= decimal(n as nat));
        }
        text
    } else {
        let mut text = decimal_text(n / 10);
        text.push(digit_of((n % 10) as u8));
        text
    }
}

/// Writes a number in decimal, with its sign if it is negative.
pub fn signed_decimal_text(n: i128) -> (text: String)
    requires
        n > i128::MIN,
    ensures
        text@ == signed_decimal(n as int),
{
    if n < 0 {
        let digits = decimal_text((-n) as u128);
        let text = join("-", digits.as_str());
        proof {
            reveal_strlit("-");
            assert("-"@ =~= seq!['-']);
        }
        text
    } else {
        decimal_text(n as u128)
    }
}

pub open spec fn is_digit(c: char) -> bool {
    '0' as int <= c as int <= '9' as int
}

pub open spec fn all_digits(text: Seq<char>) -> bool {
    forall|i: int| 0 <= i < text.len() ==> is_digit(#[trigger] text[i])
}

/// The number that the digits stand for.
pub open spec fn digits_value(text: Seq<char>) -> nat
    decreases text.len(),
{
    if text.len() == 0 {
        0
    } else {
        (digits_value(text.drop_last()) * 10 + (text.last() as int - '0' as int)) as nat
    }
}

/// The text without a plus sign at its start.
pub open spec fn without_plus(text: Seq<char>) -> Seq<char> {
    if text.len() > 0 && text[0] == '+' {
        text.drop_first()
    } else {
        text
    }
}

/// The number up to `max` that the text stands for: at least one digit, after a plus sign or
/// none.
pub open spec fn natural_value(text: Seq<char>, max: nat) -> Option<nat> {
    let digits = without_plus(text);
    if digits.len() > 0 && all_digits(digits) && digits_value(digits) <= max {
        Some(digits_value(digits))
    } else {
        None
    }
}

proof fn lemma_decimal_digits(n: nat)
    ensures
        decimal(n).len() > 0,
        all_digits(decimal(n)),
        digits_value(decimal(n)) == n,
    decreases n,
{
    reveal_with_fuel(digits_value, 2);
    if n < 10 {
        assert(seq![digit(n as int)].drop_last() =~= Seq::<char>::empty());
        assert(seq![digit(n as int)].last() == digit(n as int));
    } else {
        lemma_decimal_digits(n / 10);
        let head = decimal(n / 10);
        let all = head.push(digit((n % 10) as int));
        assert(all.drop_last() =~= head);
        assert forall|i: int| 0 <= i < all.len() implies is_digit(#[trigger] all[i]) by {
            if i < head.len() {
                assert(all[i] == head[i]);
            }
        }
    }
}

/// A number written in decimal reads as that number.
pub proof fn law_decimal_reads_back(n: nat, max: nat)
    requires
        n <= max,
    ensures
        natural_value(decimal(n), max) == Some(n),
{
    lemma_decimal_digits(n);
    assert(is_digit(decimal(n)[0]));
}

proof fn lemma_digits_value_prefix(text: Seq<char>, k: int)
    requires
        0 <= k <= text.len(),
        all_digits(text),
    ensures
        digits_value(text.take(k)) <= digits_value(text),
    decreases text.len(),
{
    if k < text.len() {
        let shorter = text.drop_last();
        assert forall|i: int| 0 <= i < shorter.len() implies is_digit(#[trigger] shorter[i]) by {
            assert(shorter[i] == text[i]);
        }
        lemma_digits_value_prefix(shorter, k);
        assert(shorter.take(k) =~= text.take(k));
        assert(is_digit(text[text.len() - 1]));
    } else {
        assert(text.take(k) =~= text);
    }
}

/// What is written of a decimal number, up to any point, reads as a number that is no larger,
/// or as none.
pub proof fn law_decimal_prefix_is_no_larger(n: nat, k: int, max: nat)
    requires
        0 <= k <= decimal(n).len(),
    ensures
        match natural_value(decimal(n).take(k), max) {
            Some(value) => value <= n,
            None => true,
        },
{
    lemma_decimal_digits(n);
    lemma_digits_value_prefix(decimal(n), k);
    let part = decimal(n).take(k);
    if part.len() > 0 {
        assert(is_digit(decimal(n)[0]));
        assert(part[0] == decimal(n)[0]);
    }
}

/// Reads a number up to `max`: at least one digit, after a plus sign or none.
pub fn parse_natural(text: &str, max: u64) -> (r: Option<u64>)
    ensures
        match r {
            Some(n) => natural_value(text@, max as nat) == Some(n as nat),
            None => natural_value(text@, max as nat) is None,
        },
{
    let chars = chars_of(text);
    let mut from: usize = 0;
    if chars.len() > 0 && chars[0] == '+' {
        from = 1;
    }
    let ghost digits = without_plus(text@);
    proof {
        assert(digits =~= chars@.skip(from as int));
    }
    if from == chars.len() {
        return None;
    }
    let mut value: u64 = 0;
    let mut fits = true;
    let mut i: usize = from;
    while i < chars.len()
        invariant
            from <= i <= chars.len(),
            from < chars.len(),
            chars@ == text@,
            digits == without_plus(text@),
            digits == chars@.skip(from as int),
            forall|k: int| 0 <= k < i - from ==> is_digit(#[trigger] digits[k]),
            fits ==> value == digits_value(digits.take(i - from)) && value <= max,
            !fits ==> digits_value(digits.take(i - from)) > max,
        decreases chars.len() - i,
    {
        let c = chars[i];
        let ghost k = i - from;
        assert(digits[k] == c);
        if c < '0' || c > '9' {
            assert(!is_digit(digits[k]));
            return None;
        }
        let d: u64 = c as u64 - '0' as u64;
        proof {
            let part = digits.take(k + 1);
            assert(part.drop_last() =~= digits.take(k));
            assert(part.last() == c);
        }
        if fits {
            if value > max / 10 || (value * 10) > max - d.min(max) || d > max {
                fits = false;
                proof {
                    if value > max / 10 {
                        assert(value * 10 > max) by (nonlinear_arith)
                            requires
                                value > max / 10,
                        ;
                    }
                }
            } else {
                value = value * 10 + d;
            }
        }
        i += 1;
    }
    proof {
        assert(digits.take(digits.len() as int) =~= digits);
    }
    if fits {
        Some(value)
    } else {
        None
    }
}

/// Where the first line of the text ends: at its first line feed, or where the text ends.
pub open spec fn line_end(text: Seq<char>) -> nat
    decreases text.len(),
{
    if text.len() == 0 || text[0] == '\n' {
        0
    } else {
        1 + line_end(text.drop_first())
    }
}

/// The line without a carriage return at its end.
pub open spec fn without_return(line: Seq<char>) -> Seq<char> {
    if line.len() > 0 && line.last() == '\r' {
        line.drop_last()
    } else {
        line
    }
}

/// The lines of the text. A line ends with a line feed, or a carriage return and a line feed,
/// neither of which belongs to it; the last one may lack it.
pub open spec fn lines(text: Seq<char>) -> Seq<Seq<char>>
    decreases text.len(),
{
    if text.len() == 0 {
        Seq::empty()
    } else {
        let end = line_end(text) as int;
        if end < text.len() {
            seq![without_return(text.take(end))] + lines(text.skip(end + 1))
        } else {
            seq![text]
        }
    }
}

/// The first line feed of a text.
pub proof fn lemma_line_end(text: Seq<char>)
    ensures
        line_end(text) <= text.len(),
        line_end(text) < text.len() ==> text[line_end(text) as int] == '\n',
        forall|i: int| 0 <= i < line_end(text) ==> #[trigger] text[i] != '\n',
    decreases text.len(),
{
    if text.len() > 0 && text[0] != '\n' {
        let rest = text.drop_first();
        lemma_line_end(rest);
        assert forall|i: int| 0 <= i < line_end(text) implies #[trigger] text[i] != '\n' by {
            if i > 0 {
                assert(rest[i - 1] == text[i]);
            }
        }
    }
}

/// A line feed that no other comes before is the first one.
pub proof fn lemma_line_end_is(text: Seq<char>, end: int)
    requires
        0 <= end <= text.len(),
        end < text.len() ==> text[end] == '\n',
        forall|i: int| 0 <= i < end ==> #[trigger] text[i] != '\n',
    ensures
        line_end(text) == end,
{
    lemma_line_end(text);
    let found = line_end(text) as int;
    if found < end {
        assert(text[found] != '\n');
    }
    if end < found {
        assert(text[end] != '\n');
    }
}

/// Splits a text into its lines.
pub fn split_lines(text: &str) -> (r: Vec<String>)
    ensures
        texts(r@) == lines(text@),
{
    let chars = chars_of(text);
    let mut r: Vec<String> = Vec::new();
    let mut from: usize = 0;
    proof {
        assert(text@.skip(0) =~= text@);
        assert(texts(r@) + lines(text@) =~= lines(text@));
    }
    while from < chars.len()
        invariant
            chars@ == text@,
            from <= chars.len(),
            texts(r@) + lines(text@.skip(from as int)) == lines(text@),
        decreases chars.len() - from,
    {
        let ghost rest = text@.skip(from as int);
        let ghost before = texts(r@);
        let mut end: usize = from;
        while end < chars.len() && chars[end] != '\n'
            invariant
                chars@ == text@,
                from <= end <= chars.len(),
                rest == text@.skip(from as int),
                forall|i: int| 0 <= i < end - from ==> #[trigger] rest[i] != '\n',
            decreases chars.len() - end,
        {
            end += 1;
        }
        proof {
            lemma_line_end_is(rest, end - from);
            assert(rest.take(end - from) =~= text@.subrange(from as int, end as int));
        }
        if end < chars.len() {
            let mut to: usize = end;
            if from < end && chars[end - 1] == '\r' {
                to = end - 1;
            }
            r.push(text_of(&chars, from, to));
            proof {
                let line = rest.take(end - from);
                assert(without_return(line) =~= text@.subrange(from as int, to as int));
                assert(texts(r@) =~= before.push(without_return(line)));
                assert(rest.skip(end - from + 1) =~= text@.skip(end + 1));
                let later = lines(text@.skip(end + 1));
                assert(before + (seq![without_return(line)] + later) =~= texts(r@) + later);
            }
            from = end + 1;
        } else {
            r.push(text_of(&chars, from, end));
            proof {
                assert(rest =~= text@.subrange(from as int, end as int));
                assert(texts(r@) =~= before.push(rest));
                assert(text@.skip(end as int) =~= Seq::<char>::empty());
                assert(before + seq![rest] =~= texts(r@) + lines(text@.skip(end as int)));
            }
            from = end;
        }
    }
    proof {
        assert(text@.skip(from as int) =~= Seq::<char>::empty());
        assert(texts(r@) + Seq::<Seq<char>>::empty() =~= texts(r@));
    }
    r
}

/// Whether all characters of a text are white space.
pub open spec fn all_white(text: Seq<char>) -> bool {
    forall|i: int| 0 <= i < text.len() ==> white_space(#[trigger] text[i])
}

proof fn lemma_trimmed_start_takes_white(text: Seq<char>) -> (n: int)
    ensures
        0 <= n <= text.len(),
        all_white(text.take(n)),
        trimmed_start(text) == text.skip(n),
        n < text.len() ==> !white_space(text[n]),
    decreases text.len(),
{
    if text.len() > 0 && white_space(text[0]) {
        let rest = text.drop_first();
        let m = lemma_trimmed_start_takes_white(rest);
        assert forall|i: int| 0 <= i < m + 1 implies white_space(#[trigger] text.take(m + 1)[i]) by {
            if i > 0 {
                assert(rest.take(m)[i - 1] == text[i]);
            }
        }
        assert(rest.skip(m) =~= text.skip(m + 1));
        m + 1
    } else {
        assert(text.skip(0) =~= text);
        0
    }
}

pub(crate) proof fn lemma_trimmed_end_takes_white(text: Seq<char>) -> (n: int)
    ensures
        0 <= n <= text.len(),
        all_white(text.skip(n)),
        trimmed_end(text) == text.take(n),
        n > 0 ==> !white_space(text[n - 1]),
    decreases text.len(),
{
    if text.len() > 0 && white_space(text.last()) {
        let rest = text.drop_last();
        let m = lemma_trimmed_end_takes_white(rest);
        assert forall|i: int| 0 <= i < text.len() - m implies white_space(#[trigger] text.skip(m)[i]) by {
            if i < rest.len() - m {
                assert(rest.skip(m)[i] == text[m + i]);
            }
        }
        assert(rest.take(m) =~= text.take(m));
        m
    } else {
        assert(text.take(text.len() as int) =~= text);
        text.len() as int
    }
}

/// Trimming a text takes away nothing but white space at its ends, and all of it: what is left
/// neither starts nor ends with white space.
pub proof fn law_trimming_takes_only_white_space(text: Seq<char>) -> (ends: (Seq<char>, Seq<char>))
    ensures
        text == ends.0 + trimmed(text) + ends.1,
        all_white(ends.0),
        all_white(ends.1),
        trimmed(text).len() > 0 ==> !white_space(trimmed(text)[0]) && !white_space(
            trimmed(text).last(),
        ),
{
    let n = lemma_trimmed_start_takes_white(text);
    let rest = text.skip(n);
    let m = lemma_trimmed_end_takes_white(rest);
    let ends = (text.take(n), rest.skip(m));
    assert(text =~= ends.0 + rest.take(m) + ends.1);
    if m > 0 {
        assert(rest.take(m)[0] == text[n]);
        assert(rest.take(m).last() == rest[m - 1]);
    }
    ends
}

/// Lines, each with a line feed behind it.
pub open spec fn fed_lines(list: Seq<Seq<char>>) -> Seq<char>
    decreases list.len(),
{
    if list.len() == 0 {
        Seq::empty()
    } else {
        list[0].push('\n') + fed_lines(list.drop_first())
    }
}

/// Whether a text can be a line: it holds no line feed, and does not end with a carriage return.
pub open spec fn is_line(text: Seq<char>) -> bool {
    &&& forall|i: int| 0 <= i < text.len() ==> (#[trigger] text[i]) != '\n'
    &&& text.len() > 0 ==> text.last() != '\r'
}

/// Lines that are written one after the other, each with a line feed behind it, are read again as
/// they were, one for one and in order.
pub proof fn law_written_lines_read_back(list: Seq<Seq<char>>)
    requires
        forall|i: int| 0 <= i < list.len() ==> is_line(#[trigger] list[i]),
    ensures
        lines(fed_lines(list)) == list,
    decreases list.len(),
{
    let text = fed_lines(list);
    if list.len() > 0 {
        let first = list[0];
        let rest = list.drop_first();
        assert(is_line(list[0]));
        assert forall|i: int| 0 <= i < rest.len() implies is_line(#[trigger] rest[i]) by {
            assert(rest[i] == list[i + 1]);
        }
        law_written_lines_read_back(rest);
        let n = first.len() as int;
        assert forall|i: int| 0 <= i < n implies #[trigger] text[i] != '\n' by {
            assert(text[i] == first[i]);
        }
        assert(text[n] == '\n');
        lemma_line_end_is(text, n);
        assert(text.take(n) =~= first);
        assert(text.skip(n + 1) =~= fed_lines(rest));
        assert(seq![first] + rest =~= list);
    } else {
        assert(lines(text) =~= list);
    }
}

/// A text starts with another one if and only if it is that one with something behind it.
pub proof fn law_prefix_is_what_a_text_starts_with(text: Seq<char>, start: Seq<char>, rest: Seq<char>)
    ensures
        has_prefix(start + rest, start),
        has_prefix(text, start) ==> text == start + text.skip(start.len() as int),
{
    assert((start + rest).take(start.len() as int) =~= start);
    if has_prefix(text, start) {
        assert(text =~= start + text.skip(start.len() as int));
    }
}

/// A number is written as that of its size, behind a minus sign if it is negative and only then.
pub proof fn law_sign_stands_in_front(n: nat)
    ensures
        signed_decimal(n as int) == decimal(n),
        n > 0 ==> signed_decimal(-(n as int)) == seq!['-'] + decimal(n),
{
}

pub proof fn lemma_fed_lines_push(list: Seq<Seq<char>>, line: Seq<char>)
    ensures
        fed_lines(list.push(line)) == fed_lines(list) + line.push('\n'),
    decreases list.len(),
{
    let longer = list.push(line);
    if list.len() > 0 {
        lemma_fed_lines_push(list.drop_first(), line);
        assert(longer.drop_first() =~= list.drop_first().push(line));
        assert(fed_lines(longer) =~= fed_lines(list) + line.push('\n'));
    } else {
        assert(longer.drop_first() =~= list);
        assert(fed_lines(longer) =~= fed_lines(list) + line.push('\n'));
    }
}

} // verus!
