//! Text as sequences of characters: the characters of a string, parts of a
//! text by position, splitting into fields and lines, and decimal numbers.
use vstd::prelude::*;
use vstd::string::{is_ascii, StrSliceExecFns, StringExecFns};

verus! {

/// The character sequences held by a sequence of strings.
pub open spec fn texts(v: Seq<String>) -> Seq<Seq<char>> {
    v.map_values(|s: String| s@)
}

/// The character sequences held by a sequence of character vectors.
pub open spec fn views(v: Seq<Vec<char>>) -> Seq<Seq<char>> {
    v.map_values(|x: Vec<char>| x@)
}

/// The characters of a string, in order.
pub fn chars_of(s: &str) -> (v: Vec<char>)
    ensures
        v@ == s@,
{
    let mut v: Vec<char> = Vec::new();
    for c in it: s.chars()
        invariant
            it.seq() == s@,
            v@ == it.seq().take(it.index() as int),
    {
        v.push(c);
    }
    v
}

/// A part of a text: the positions from `start` up to, not including, `end`.
#[derive(Debug, Clone, Copy)]
pub struct Span {
    pub start: usize,
    pub end: usize,
}

impl Span {
    /// The span lies inside a text of `len` characters.
    pub open spec fn within(self, len: nat) -> bool {
        self.start <= self.end <= len
    }

    /// The characters of `s` that the span covers.
    pub open spec fn of(self, s: Seq<char>) -> Seq<char> {
        s.subrange(self.start as int, self.end as int)
    }
}

/// Every span lies inside a text of `len` characters.
pub open spec fn spans_within(spans: Seq<Span>, len: nat) -> bool {
    forall|i: int| 0 <= i < spans.len() ==> (#[trigger] spans[i]).within(len)
}

/// The parts of `s` that the spans cover, in the order of the spans.
pub open spec fn cut(s: Seq<char>, spans: Seq<Span>) -> Seq<Seq<char>> {
    spans.map_values(|span: Span| span.of(s))
}

/// The part of `s` that the span covers.
///
/// `ascii` says that `s` is known to hold ASCII characters only: the part is
/// then found in constant time. Otherwise it is found by walking through the
/// text from its start.
pub fn slice<'a>(s: &'a str, ascii: bool, span: Span) -> (part: &'a str)
    requires
        ascii ==> is_ascii(s),
        span.within(s@.len()),
    ensures
        part@ == span.of(s@),
        ascii ==> is_ascii(part),
{
    if ascii {
        s.substring_ascii(span.start, span.end)
    } else {
        s.substring_char(span.start, span.end)
    }
}

/// The fields of `s` between occurrences of `sep`.
///
/// Read from the left one character at a time: a separator closes the field
/// in progress and opens an empty one, any other character extends the field
/// in progress. The empty text has one empty field, and `n` separators always
/// give `n + 1` fields.
pub open spec fn fields(s: Seq<char>, sep: char) -> Seq<Seq<char>>
    decreases s.len(),
{
    if s.len() == 0 {
        seq![Seq::empty()]
    } else {
        let before = fields(s.drop_last(), sep);
        if s.last() == sep {
            before.push(Seq::empty())
        } else {
            before.drop_last().push(before.last().push(s.last()))
        }
    }
}

/// A text always has at least one field.
pub proof fn lemma_fields_nonempty(s: Seq<char>, sep: char)
    ensures
        fields(s, sep).len() >= 1,
    decreases s.len(),
{
    if s.len() > 0 {
        lemma_fields_nonempty(s.drop_last(), sep);
    }
}

/// No field holds the separator.
pub proof fn lemma_fields_free_of_separator(s: Seq<char>, sep: char)
    ensures
        forall|i: int, j: int|
            0 <= i < fields(s, sep).len() && 0 <= j < fields(s, sep)[i].len()
                ==> #[trigger] fields(s, sep)[i][j] != sep,
    decreases s.len(),
{
    if s.len() > 0 {
        lemma_fields_nonempty(s.drop_last(), sep);
        lemma_fields_free_of_separator(s.drop_last(), sep);
    }
}

/// The fields written one after the other, with `sep` between neighbours.
pub open spec fn joined(parts: Seq<Seq<char>>, sep: char) -> Seq<char>
    decreases parts.len(),
{
    if parts.len() == 0 {
        Seq::empty()
    } else if parts.len() == 1 {
        parts[0]
    } else {
        joined(parts.drop_last(), sep).push(sep) + parts.last()
    }
}

/// Joining the fields of a text with the separator gives the text back.
pub proof fn lemma_fields_joined(s: Seq<char>, sep: char)
    ensures
        joined(fields(s, sep), sep) == s,
    decreases s.len(),
{
    if s.len() == 0 {
        assert(joined(fields(s, sep), sep) =~= s);
    } else {
        let t = s.drop_last();
        let before = fields(t, sep);
        lemma_fields_nonempty(t, sep);
        lemma_fields_joined(t, sep);
        if s.last() == sep {
            let all = before.push(Seq::empty());
            assert(all.drop_last() =~= before);
            assert(joined(all, sep) =~= s);
        } else {
            let all = before.drop_last().push(before.last().push(s.last()));
            if before.len() == 1 {
                assert(joined(all, sep) =~= s);
            } else {
                assert(all.drop_last() =~= before.drop_last());
                assert(joined(before, sep) == joined(before.drop_last(), sep).push(sep)
                    + before.last());
                assert(joined(all, sep) == joined(before.drop_last(), sep).push(sep)
                    + before.last().push(s.last()));
                assert(joined(all, sep) =~= joined(before, sep).push(s.last()));
                assert(s =~= t.push(s.last()));
            }
        }
    }
}

/// Splits `s` at every occurrence of `sep`, and gives the place of each field.
pub fn split(s: &Vec<char>, sep: char) -> (out: Vec<Span>)
    ensures
        spans_within(out@, s@.len()),
        cut(s@, out@) == fields(s@, sep),
{
    let mut out: Vec<Span> = Vec::new();
    let mut start: usize = 0;
    let mut i: usize = 0;
    assert(s@.subrange(0, 0) =~= Seq::<char>::empty());
    assert(cut(s@, out@).push(s@.subrange(0, 0)) =~= fields(s@.take(0), sep));
    while i < s.len()
        invariant
            start <= i <= s.len(),
            spans_within(out@, s@.len()),
            cut(s@, out@).push(s@.subrange(start as int, i as int)) == fields(
                s@.take(i as int),
                sep,
            ),
        decreases s.len() - i,
    {
        let ghost closed = cut(s@, out@);
        let ghost open = s@.subrange(start as int, i as int);
        proof {
            assert(s@.take(i + 1).drop_last() =~= s@.take(i as int));
            assert(closed.push(open).drop_last() =~= closed);
        }
        if s[i] == sep {
            out.push(Span { start, end: i });
            start = i + 1;
            assert(cut(s@, out@) =~= closed.push(open));
            assert(s@.subrange(start as int, i + 1) =~= Seq::<char>::empty());
        } else {
            assert(s@.subrange(start as int, i + 1) =~= open.push(s@[i as int]));
        }
        i += 1;
    }
    let ghost closed = cut(s@, out@);
    out.push(Span { start, end: i });
    assert(s@.take(s.len() as int) =~= s@);
    assert(cut(s@, out@) =~= closed.push(s@.subrange(start as int, i as int)));
    out
}

/// `l` without one trailing carriage return, if it ends in one.
pub open spec fn strip_cr(l: Seq<char>) -> Seq<char> {
    if l.len() > 0 && l.last() == '\r' {
        l.drop_last()
    } else {
        l
    }
}

/// The lines of a text.
///
/// A line ends at a line feed; a carriage return directly before that line
/// feed belongs to the line ending too. What follows the last line feed is a
/// line of its own unless it is empty, and keeps a trailing carriage return.
pub open spec fn lines(s: Seq<char>) -> Seq<Seq<char>> {
    let pieces = fields(s, '\n');
    let ended = pieces.drop_last().map_values(|l: Seq<char>| strip_cr(l));
    if pieces.last().len() == 0 {
        ended
    } else {
        ended.push(pieces.last())
    }
}

/// A text has no more lines than characters.
pub proof fn lemma_lines_len(s: Seq<char>)
    ensures
        lines(s).len() <= s.len(),
{
    lemma_fields_len(s, '\n');
}

/// A text of `n` characters has at least one field and at most `n + 1`, and
/// at most `n` when its last field is not empty.
pub proof fn lemma_fields_len(s: Seq<char>, sep: char)
    ensures
        1 <= fields(s, sep).len() <= s.len() + 1,
        fields(s, sep).last().len() > 0 ==> fields(s, sep).len() <= s.len(),
    decreases s.len(),
{
    if s.len() > 0 {
        lemma_fields_len(s.drop_last(), sep);
    }
}

/// Splits a text into its lines, and gives the place of each line.
pub fn split_lines(text: &Vec<char>) -> (out: Vec<Span>)
    ensures
        spans_within(out@, text@.len()),
        cut(text@, out@) == lines(text@),
{
    let mut out = split(text, '\n');
    proof {
        lemma_fields_nonempty(text@, '\n');
    }
    let ghost pieces = cut(text@, out@);
    let last = out.pop().unwrap();
    assert(cut(text@, out@) =~= pieces.drop_last());
    let n = out.len();
    let mut i: usize = 0;
    while i < n
        invariant
            i <= n,
            out.len() == n,
            n == pieces.len() - 1,
            spans_within(out@, text@.len()),
            forall|k: int| 0 <= k < i ==> (#[trigger] out@[k]).of(text@) == strip_cr(pieces[k]),
            forall|k: int| i <= k < n ==> (#[trigger] out@[k]).of(text@) == pieces[k],
        decreases n - i,
    {
        let span = out[i];
        if span.end > span.start && text[span.end - 1] == '\r' {
            out.set(i, Span { start: span.start, end: (span.end - 1) as usize });
            assert(out@[i as int].of(text@) =~= strip_cr(pieces[i as int]));
        }
        i += 1;
    }
    let ghost ended = pieces.drop_last().map_values(|l: Seq<char>| strip_cr(l));
    assert(cut(text@, out@) =~= ended);
    if last.end > last.start {
        out.push(last);
        assert(cut(text@, out@) =~= ended.push(pieces.last()));
    }
    out
}

/// Whether `c` is one of the ten decimal digits.
pub open spec fn is_digit(c: char) -> bool {
    '0' <= c <= '9'
}

/// The value of a decimal digit, and zero for any other character.
pub open spec fn digit_value(c: char) -> nat {
    if is_digit(c) {
        (c as u32 - '0' as u32) as nat
    } else {
        0
    }
}

/// The number that a run of decimal digits denotes, most significant first.
pub open spec fn decimal_value(s: Seq<char>) -> nat
    decreases s.len(),
{
    if s.len() == 0 {
        0
    } else {
        10 * decimal_value(s.drop_last()) + digit_value(s.last())
    }
}

/// The digits of a number token: the token without one leading plus sign.
pub open spec fn unsigned_part(s: Seq<char>) -> Seq<char> {
    if s.len() > 0 && s[0] == '+' {
        s.skip(1)
    } else {
        s
    }
}

/// The 32-bit number that a token denotes, if it denotes one: an optional
/// plus sign, then at least one decimal digit and nothing else, with a value
/// of at most `u32::MAX`. Leading zeros are accepted.
pub open spec fn number(s: Seq<char>) -> Option<u32> {
    let digits = unsigned_part(s);
    if digits.len() > 0 && (forall|i: int| 0 <= i < digits.len() ==> is_digit(#[trigger] digits[i]))
        && decimal_value(digits) <= u32::MAX {
        Some(decimal_value(digits) as u32)
    } else {
        None
    }
}

/// A longer run of characters denotes no smaller a value than its prefixes.
pub proof fn lemma_decimal_value_prefix(s: Seq<char>, k: int)
    requires
        0 <= k <= s.len(),
    ensures
        decimal_value(s.take(k)) <= decimal_value(s),
    decreases s.len() - k,
{
    if k < s.len() {
        assert(s.take(k + 1).drop_last() =~= s.take(k));
        lemma_decimal_value_prefix(s, k + 1);
    } else {
        assert(s.take(k) =~= s);
    }
}

/// Reads a 32-bit number from the part of `s` that the span covers.
pub fn parse_u32(s: &Vec<char>, span: Span) -> (r: Option<u32>)
    requires
        span.within(s@.len()),
    ensures
        r == number(span.of(s@)),
{
    let ghost token = span.of(s@);
    let first: usize = if span.start < span.end && s[span.start] == '+' {
        span.start + 1
    } else {
        span.start
    };
    let ghost digits = unsigned_part(token);
    assert(digits =~= s@.subrange(first as int, span.end as int));
    if first == span.end {
        return None;
    }
    let mut value: u32 = 0;
    let mut i: usize = first;
    while i < span.end
        invariant
            first <= i <= span.end <= s.len(),
            digits == s@.subrange(first as int, span.end as int),
            digits == unsigned_part(span.of(s@)),
            forall|k: int| 0 <= k < i - first ==> is_digit(#[trigger] digits[k]),
            value == decimal_value(digits.take(i - first)),
        decreases span.end - i,
    {
        let c = s[i];
        if !(c >= '0' && c <= '9') {
            assert(!is_digit(digits[i - first]));
            return None;
        }
        let d: u32 = c as u32 - '0' as u32;
        proof {
            assert(digits.take(i - first + 1).drop_last() =~= digits.take(i - first));
            assert(digits.take(i - first + 1).last() == c);
            lemma_decimal_value_prefix(digits, i - first + 1);
        }
        let shifted = match value.checked_mul(10) {
            Some(v) => v,
            None => {
                return None;
            },
        };
        value = match shifted.checked_add(d) {
            Some(v) => v,
            None => {
                return None;
            },
        };
        i += 1;
    }
    assert(digits.take(i - first) =~= digits);
    Some(value)
}

/// The character for a digit value below ten.
pub open spec fn digit_char(d: nat) -> char {
    ((48 + d) as u8) as char
}

/// A number in decimal notation, without leading zeros.
pub open spec fn decimal(n: nat) -> Seq<char>
    decreases n,
{
    if n < 10 {
        seq![digit_char(n)]
    } else {
        decimal(n / 10).push(digit_char(n % 10))
    }
}

/// The character for a digit value is a digit with that value.
pub proof fn lemma_digit_char(d: nat)
    requires
        d < 10,
    ensures
        is_digit(digit_char(d)),
        digit_value(digit_char(d)) == d,
{
    let c = digit_char(d);
    assert(c as u32 == 48 + d);
    assert('0' as u32 == 48);
    assert('9' as u32 == 57);
}

/// Decimal notation is made of digits only, starts with no plus sign, and
/// denotes the number it was made from: reading what was written gives the
/// number back.
pub proof fn lemma_number_of_decimal(n: nat)
    ensures
        decimal(n).len() >= 1,
        forall|i: int| 0 <= i < decimal(n).len() ==> is_digit(#[trigger] decimal(n)[i]),
        decimal_value(decimal(n)) == n,
        n <= u32::MAX ==> number(decimal(n)) == Some(n as u32),
    decreases n,
{
    let text = decimal(n);
    lemma_digit_char(n % 10);
    if n >= 10 {
        lemma_number_of_decimal(n / 10);
        assert(text.drop_last() =~= decimal(n / 10));
        assert(text.last() == digit_char(n % 10));
    } else {
        assert(text.drop_last() =~= Seq::<char>::empty());
        assert(text.last() == digit_char(n));
        assert(decimal_value(text.drop_last()) == 0);
    }
    assert(decimal_value(text) == 10 * decimal_value(text.drop_last()) + digit_value(
        text.last(),
    ));
    assert(is_digit(text[0]));
    assert(text[0] != '+');
    assert(unsigned_part(text) == text);
}

/// The one-character text for a digit value below ten.
fn digit_str(d: u32) -> (r: &'static str)
    requires
        d < 10,
    ensures
        r@ == seq![digit_char(d as nat)],
{
    proof {
        reveal_strlit("0");
        reveal_strlit("1");
        reveal_strlit("2");
        reveal_strlit("3");
        reveal_strlit("4");
        reveal_strlit("5");
        reveal_strlit("6");
        reveal_strlit("7");
        reveal_strlit("8");
        reveal_strlit("9");
    }
    let r = match d {
        0 => "0",
        1 => "1",
        2 => "2",
        3 => "3",
        4 => "4",
        5 => "5",
        6 => "6",
        7 => "7",
        8 => "8",
        _ => "9",
    };
    assert(r@ =~= seq![digit_char(d as nat)]);
    r
}

/// Appends `n` in decimal notation to `out`.
pub fn push_decimal(out: &mut String, n: u32)
    ensures
        final(out)@ == old(out)@ + decimal(n as nat),
    decreases n,
{
    if n >= 10 {
        push_decimal(out, n / 10);
    }
    out.append(digit_str(n % 10));
    assert(out@ =~= old(out)@ + decimal(n as nat));
}

} // verus!
