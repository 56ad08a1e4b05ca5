//! Characters and strings.

use vstd::prelude::*;
use vstd::string::*;

verus! {

/// `String::push`: the character is appended.
pub assume_specification[ String::push ](s: &mut String, c: char)
    ensures
        final(s)@ == old(s)@.push(c),
;

/// `String::push_str`: the text is appended.
pub assume_specification[ String::push_str ](s: &mut String, other: &str)
    ensures
        final(s)@ == old(s)@ + other@,
;

/// The character that writes the digit `d`.
pub open spec fn digit_char(d: int) -> char {
    if d == 0 {
        '0'
    } else if d == 1 {
        '1'
    } else if d == 2 {
        '2'
    } else if d == 3 {
        '3'
    } else if d == 4 {
        '4'
    } else if d == 5 {
        '5'
    } else if d == 6 {
        '6'
    } else if d == 7 {
        '7'
    } else if d == 8 {
        '8'
    } else {
        '9'
    }
}

/// `n` written in base ten, without leading zeros.
pub open spec fn digits(n: nat) -> Seq<char>
    decreases n,
{
    if n < 10 {
        seq![digit_char(n as int)]
    } else {
        digits(n / 10).push(digit_char((n % 10) as int))
    }
}

/// An integer written in base ten, with a minus sign where it is negative.
pub open spec fn signed_digits(n: int) -> Seq<char> {
    if n < 0 {
        seq!['-'] + digits((-n) as nat)
    } else {
        digits(n as nat)
    }
}

pub fn digit(d: u64) -> (c: char)
    requires
        d < 10,
    ensures
        c == digit_char(d as int),
{
    match d {
        0 => '0',
        1 => '1',
        2 => '2',
        3 => '3',
        4 => '4',
        5 => '5',
        6 => '6',
        7 => '7',
        8 => '8',
        _ => '9',
    }
}

/// Append `n` in base ten.
pub fn push_decimal(out: &mut String, n: u128)
    ensures
        final(out)@ == old(out)@ + digits(n as nat),
    decreases n,
{
    if n < 10 {
        out.push(digit(n as u64));
    } else {
        push_decimal(out, n / 10);
        out.push(digit((n % 10) as u64));
    }
}

/// Append a signed number in base ten.
pub fn push_signed(out: &mut String, n: i64)
    ensures
        final(out)@ == old(out)@ + signed_digits(n as int),
{
    if n < 0 {
        out.push('-');
        let below: u64 = (-(n + 1)) as u64;
        push_decimal(out, below as u128 + 1);
    } else {
        push_decimal(out, n as u128);
    }
}

/// The value of a run of decimal digits, or `None` where another character
/// occurs in it.
pub open spec fn digits_value(s: Seq<char>) -> Option<nat>
    decreases s.len(),
{
    if s.len() == 0 {
        Some(0)
    } else {
        match (digits_value(s.drop_last()), digit_value(s.last())) {
            (Some(front), Some(d)) => Some(front * 10 + d as nat),
            _ => None,
        }
    }
}

/// The digit a character stands for.
pub open spec fn digit_value(c: char) -> Option<int> {
    if '0' <= c && c <= '9' {
        Some(c as int - '0' as int)
    } else {
        None
    }
}

pub fn digit_of(c: char) -> (r: Option<u32>)
    ensures
        r matches Some(d) ==> digit_value(c) == Some(d as int) && d < 10,
        r is None ==> digit_value(c) is None,
{
    if '0' <= c && c <= '9' {
        Some(c as u32 - '0' as u32)
    } else {
        None
    }
}

/// What a `u32` written as text reads as: an optional `+`, then at least one
/// digit, and nothing that a `u32` cannot hold.
pub open spec fn u32_value(s: Seq<char>) -> Option<nat> {
    let body = if s.len() > 0 && s[0] == '+' {
        s.skip(1)
    } else {
        s
    };
    match digits_value(body) {
        Some(v) => if body.len() > 0 && v <= u32::MAX {
            Some(v)
        } else {
            None
        },
        None => None,
    }
}

/// A longer run of digits never reads as less than its front.
proof fn lemma_digits_value_grows(s: Seq<char>, n: int)
    requires
        0 <= n <= s.len(),
        digits_value(s) is Some,
    ensures
        digits_value(s.take(n)) is Some,
        digits_value(s.take(n))->0 <= digits_value(s)->0,
    decreases s.len(),
{
    if n == s.len() {
        assert(s.take(n) =~= s);
    } else {
        lemma_digits_value_grows(s.drop_last(), n);
        assert(s.drop_last().take(n) =~= s.take(n));
    }
}

/// A run of digits that starts with something unreadable is unreadable.
proof fn lemma_digits_value_needs_front(s: Seq<char>, n: int)
    requires
        0 <= n <= s.len(),
        digits_value(s.take(n)) is None,
    ensures
        digits_value(s) is None,
{
    if digits_value(s) is Some {
        lemma_digits_value_grows(s, n);
    }
}

/// Read a `u32` from text.
pub fn parse_u32(s: &Vec<char>) -> (r: Option<u32>)
    ensures
        match r {
            Some(v) => u32_value(s@) == Some(v as nat),
            None => u32_value(s@) is None,
        },
{
    let start: usize = if s.len() > 0 && s[0] == '+' {
        1
    } else {
        0
    };
    let ghost body = s@.skip(start as int);
    assert(start == 0 ==> body =~= s@);
    if start == s.len() {
        return None;
    }
    let mut value: u64 = 0;
    let mut i: usize = start;
    while i < s.len()
        invariant
            start <= i <= s.len(),
            start < s.len(),
            body == s@.skip(start as int),
            value <= u32::MAX,
            digits_value(body.take(i - start)) == Some(value as nat),
            u32_value(s@) == (match digits_value(body) {
                Some(v) => if body.len() > 0 && v <= u32::MAX {
                    Some(v)
                } else {
                    None
                },
                None => None,
            }),
        decreases s.len() - i,
    {
        let ghost next = body.take(i + 1 - start);
        assert(next.drop_last() =~= body.take(i - start));
        assert(next.last() == s@[i as int]);
        match digit_of(s[i]) {
            None => {
                proof {
                    lemma_digits_value_needs_front(body, i + 1 - start);
                }
                return None;
            },
            Some(d) => {
                value = value * 10 + d as u64;
                if value > u32::MAX as u64 {
                    proof {
                        if digits_value(body) is Some {
                            lemma_digits_value_grows(body, i + 1 - start);
                        }
                    }
                    return None;
                }
            },
        }
        i = i + 1;
    }
    assert(body.take(s.len() - start) =~= body);
    Some(value as u32)
}

/// Reading back what `digits` wrote.
pub proof fn lemma_digits_read_back(n: nat)
    ensures
        digits_value(digits(n)) == Some(n),
        digits(n).len() > 0,
        forall|i: int| 0 <= i < digits(n).len() ==> '0' <= #[trigger] digits(n)[i] && digits(n)[i] <= '9',
    decreases n,
{
    reveal_with_fuel(digits_value, 2);
    if n < 10 {
        assert(digits(n).drop_last() =~= Seq::<char>::empty());
    } else {
        lemma_digits_read_back(n / 10);
        assert(digits(n).drop_last() =~= digits(n / 10));
    }
}

/// A number written in base ten reads back as itself.
pub proof fn lemma_u32_reads_back(n: nat)
    requires
        n <= u32::MAX,
    ensures
        u32_value(digits(n)) == Some(n),
{
    lemma_digits_read_back(n);
}

/// The characters of a text.
pub fn chars_of(s: &str) -> (r: Vec<char>)
    ensures
        r@ == s@,
{
    let mut out: Vec<char> = Vec::new();
    let n = s.unicode_len();
    for c in it: s.chars()
        invariant
            it.seq() == s@,
            out@ == s@.take(it.index()),
    {
        out.push(c);
        assert(s@.take(it.index() + 1) =~= s@.take(it.index()).push(c));
    }
    assert(s@.take(s@.len() as int) =~= s@);
    out
}

/// The text that the characters from `from` up to `to` write.
pub fn text_between(s: &Vec<char>, from: usize, to: usize) -> (r: String)
    requires
        from <= to <= s.len(),
    ensures
        r@ == s@.subrange(from as int, to as int),
{
    let mut out = String::new();
    let mut i: usize = from;
    while i < to
        invariant
            from <= i <= to <= s.len(),
            out@ == s@.subrange(from as int, i as int),
        decreases to - i,
    {
        out.push(s[i]);
        i = i + 1;
        assert(s@.subrange(from as int, i as int) =~= s@.subrange(from as int, i - 1).push(
            s@[i - 1],
        ));
    }
    out
}

/// The Unicode property White_Space.
pub open spec fn white_space(c: char) -> bool {
    let n = c as u32;
    ||| 9 <= n <= 13
    ||| n == 0x20
    ||| n == 0x85
    ||| n == 0xA0
    ||| n == 0x1680
    ||| 0x2000 <= n <= 0x200A
    ||| n == 0x2028
    ||| n == 0x2029
    ||| n == 0x202F
    ||| n == 0x205F
    ||| n == 0x3000
}

pub fn is_white_space(c: char) -> (r: bool)
    ensures
        r == white_space(c),
{
    let n: u32 = c as u32;
    (9 <= n && n <= 13) || n == 0x20 || n == 0x85 || n == 0xA0 || n == 0x1680 || (0x2000 <= n && n
        <= 0x200A) || n == 0x2028 || n == 0x2029 || n == 0x202F || n == 0x205F || n == 0x3000
}

/// The Unicode general category of control characters.
pub open spec fn control(c: char) -> bool {
    let n = c as u32;
    n <= 0x1F || 0x7F <= n <= 0x9F
}

pub fn is_control(c: char) -> (r: bool)
    ensures
        r == control(c),
{
    let n: u32 = c as u32;
    n <= 0x1F || (0x7F <= n && n <= 0x9F)
}

/// The length of the part of a text before its first white space.
pub open spec fn word_len(s: Seq<char>) -> nat
    decreases s.len(),
{
    if s.len() == 0 || white_space(s[0]) {
        0
    } else {
        1 + word_len(s.skip(1))
    }
}

proof fn lemma_word_len_bounded(s: Seq<char>)
    ensures
        word_len(s) <= s.len(),
        s.len() > 0 && !white_space(s[0]) ==> word_len(s) > 0,
    decreases s.len(),
{
    if s.len() > 0 && !white_space(s[0]) {
        lemma_word_len_bounded(s.skip(1));
    }
}

/// The words of a text: the longest parts of it without white space.
pub open spec fn words(s: Seq<char>) -> Seq<Seq<char>>
    decreases s.len(),
    via words_decreases
{
    if s.len() == 0 {
        Seq::empty()
    } else if white_space(s[0]) {
        words(s.skip(1))
    } else {
        seq![s.take(word_len(s) as int)] + words(s.skip(word_len(s) as int))
    }
}

#[via_fn]
proof fn words_decreases(s: Seq<char>) {
    lemma_word_len_bounded(s);
}

/// A copy of the characters from `from` up to `to`.
pub fn chars_between(s: &Vec<char>, from: usize, to: usize) -> (r: Vec<char>)
    requires
        from <= to <= s.len(),
    ensures
        r@ == s@.subrange(from as int, to as int),
{
    let mut out: Vec<char> = Vec::new();
    let mut i: usize = from;
    while i < to
        invariant
            from <= i <= to <= s.len(),
            out@ == s@.subrange(from as int, i as int),
        decreases to - i,
    {
        out.push(s[i]);
        i = i + 1;
        assert(out@ =~= s@.subrange(from as int, i as int));
    }
    out
}

/// What a list of texts holds.
pub open spec fn views(v: Seq<Vec<char>>) -> Seq<Seq<char>> {
    Seq::new(v.len(), |i: int| v[i]@)
}

pub fn split_words(s: &Vec<char>) -> (r: Vec<Vec<char>>)
    ensures
        views(r@) == words(s@),
{
    let mut out: Vec<Vec<char>> = Vec::new();
    let mut pos: usize = 0;
    assert(s@.skip(0) =~= s@);
    assert(views(out@) + words(s@) =~= words(s@));
    while pos < s.len()
        invariant
            pos <= s.len(),
            views(out@) + words(s@.skip(pos as int)) == words(s@),
        decreases s.len() - pos,
    {
        let ghost rest = s@.skip(pos as int);
        if is_white_space(s[pos]) {
            assert(rest.skip(1) =~= s@.skip(pos + 1));
            pos = pos + 1;
        } else {
            let mut end: usize = pos;
            while end < s.len() && !is_white_space(s[end])
                invariant
                    pos <= end <= s.len(),
                    rest == s@.skip(pos as int),
                    word_len(rest) == end - pos + word_len(s@.skip(end as int)),
                decreases s.len() - end,
            {
                assert(s@.skip(end as int).skip(1) =~= s@.skip(end + 1));
                end = end + 1;
            }
            assert(word_len(rest) == end - pos);
            let word = chars_between(s, pos, end);
            assert(rest.take(end - pos) =~= word@);
            assert(rest.skip(end - pos) =~= s@.skip(end as int));
            let ghost before = views(out@);
            out.push(word);
            assert(views(out@) =~= before.push(word@));
            assert(views(out@) + words(s@.skip(end as int)) =~= before + words(rest));
            proof {
                lemma_word_len_bounded(rest);
            }
            pos = end;
        }
    }
    assert(s@.skip(pos as int) =~= Seq::<char>::empty());
    assert(views(out@) =~= words(s@));
    out
}

/// How far the first `sep` of a text is from its start.
pub open spec fn before_sep(s: Seq<char>, sep: char) -> nat
    decreases s.len(),
{
    if s.len() == 0 || s[0] == sep {
        0
    } else {
        1 + before_sep(s.skip(1), sep)
    }
}

pub proof fn lemma_before_sep_bounded(s: Seq<char>, sep: char)
    ensures
        before_sep(s, sep) <= s.len(),
    decreases s.len(),
{
    if s.len() > 0 && s[0] != sep {
        lemma_before_sep_bounded(s.skip(1), sep);
    }
}

/// The parts of a text between the separators, empty ones included.
pub open spec fn parts(s: Seq<char>, sep: char) -> Seq<Seq<char>>
    decreases s.len(),
{
    let n = before_sep(s, sep) as int;
    if n >= s.len() {
        seq![s]
    } else {
        seq![s.take(n)] + parts(s.skip(n + 1), sep)
    }
}

pub fn split_parts(s: &Vec<char>, sep: char) -> (r: Vec<Vec<char>>)
    ensures
        views(r@) == parts(s@, sep),
{
    let mut out: Vec<Vec<char>> = Vec::new();
    let mut pos: usize = 0;
    assert(s@.skip(0) =~= s@);
    assert(views(out@) + parts(s@, sep) =~= parts(s@, sep));
    loop
        invariant
            pos <= s.len(),
            views(out@) + parts(s@.skip(pos as int), sep) == parts(s@, sep),
        decreases s.len() - pos,
    {
        let ghost rest = s@.skip(pos as int);
        let mut end: usize = pos;
        while end < s.len() && s[end] != sep
            invariant
                pos <= end <= s.len(),
                rest == s@.skip(pos as int),
                before_sep(rest, sep) == end - pos + before_sep(s@.skip(end as int), sep),
            decreases s.len() - end,
        {
            assert(s@.skip(end as int).skip(1) =~= s@.skip(end + 1));
            end = end + 1;
        }
        assert(before_sep(rest, sep) == end - pos);
        let part = chars_between(s, pos, end);
        assert(rest.take(end - pos) =~= part@);
        let ghost before = views(out@);
        out.push(part);
        assert(views(out@) =~= before.push(part@));
        if end == s.len() {
            assert(rest =~= part@);
            assert(views(out@) =~= parts(s@, sep));
            return out;
        }
        assert(rest.skip(end - pos + 1) =~= s@.skip(end + 1));
        assert(views(out@) + parts(s@.skip(end + 1), sep) =~= before + parts(rest, sep));
        pos = end + 1;
    }
}

/// A text without the white space at its end.
pub open spec fn trimmed_end(s: Seq<char>) -> Seq<char>
    decreases s.len(),
{
    if s.len() > 0 && white_space(s.last()) {
        trimmed_end(s.drop_last())
    } else {
        s
    }
}

/// A text without the white space at its start.
pub open spec fn trimmed_start(s: Seq<char>) -> Seq<char>
    decreases s.len(),
{
    if s.len() > 0 && white_space(s[0]) {
        trimmed_start(s.skip(1))
    } else {
        s
    }
}

/// A text without the white space at either end.
pub open spec fn trimmed(s: Seq<char>) -> Seq<char> {
    trimmed_end(trimmed_start(s))
}

/// Where the text that starts at `from` ends, but for white space.
pub fn end_of_text(s: &Vec<char>, from: usize) -> (end: usize)
    requires
        from <= s.len(),
    ensures
        from <= end <= s.len(),
        s@.subrange(from as int, end as int) == trimmed_end(
            s@.subrange(from as int, s@.len() as int),
        ),
{
    let mut end: usize = s.len();
    while end > from && is_white_space(s[end - 1])
        invariant
            from <= end <= s.len(),
            trimmed_end(s@.subrange(from as int, end as int)) == trimmed_end(
                s@.subrange(from as int, s@.len() as int),
            ),
        decreases end,
    {
        assert(s@.subrange(from as int, end as int).drop_last() =~= s@.subrange(
            from as int,
            end - 1,
        ));
        end = end - 1;
    }
    end
}

/// Where the white space at the start of a text ends.
pub fn start_of_text(s: &Vec<char>) -> (start: usize)
    ensures
        start <= s.len(),
        s@.skip(start as int) == trimmed_start(s@),
{
    let mut start: usize = 0;
    assert(s@.skip(0) =~= s@);
    while start < s.len() && is_white_space(s[start])
        invariant
            start <= s.len(),
            trimmed_start(s@.skip(start as int)) == trimmed_start(s@),
        decreases s.len() - start,
    {
        assert(s@.skip(start as int).skip(1) =~= s@.skip(start + 1));
        start = start + 1;
    }
    start
}

/// The characters of a text without the white space at either end.
pub fn trim_chars(s: &Vec<char>) -> (r: Vec<char>)
    ensures
        r@ == trimmed(s@),
{
    let start = start_of_text(s);
    let end = end_of_text(s, start);
    assert(s@.subrange(start as int, s@.len() as int) =~= s@.skip(start as int));
    chars_between(s, start, end)
}

/// Whether two runs of characters are the same.
pub fn same_chars(a: &Vec<char>, b: &Vec<char>) -> (r: bool)
    ensures
        r == (a@ == b@),
{
    if a.len() != b.len() {
        return false;
    }
    let mut i: usize = 0;
    while i < a.len()
        invariant
            a@.len() == b@.len(),
            i <= a.len(),
            forall|j: int| 0 <= j < i ==> a@[j] == b@[j],
        decreases a.len() - i,
    {
        if a[i] != b[i] {
            assert(a@[i as int] != b@[i as int]);
            return false;
        }
        i = i + 1;
    }
    assert(a@ =~= b@);
    true
}

/// Append characters.
pub fn push_chars(out: &mut String, s: &Vec<char>)
    ensures
        final(out)@ == old(out)@ + s@,
{
    let ghost start = out@;
    let mut i: usize = 0;
    while i < s.len()
        invariant
            i <= s.len(),
            out@ == start + s@.take(i as int),
        decreases s.len() - i,
    {
        out.push(s[i]);
        assert(out@ =~= start + s@.take(i + 1));
        i = i + 1;
    }
    assert(s@.take(s@.len() as int) =~= s@);
}

/// A word followed by white space is the first word.
pub proof fn lemma_words_cons(a: Seq<char>, sep: char, rest: Seq<char>)
    requires
        a.len() > 0,
        forall|i: int| 0 <= i < a.len() ==> !white_space(#[trigger] a[i]),
        white_space(sep),
    ensures
        words(a + seq![sep] + rest) == seq![a] + words(rest),
{
    let s = a + seq![sep] + rest;
    lemma_word_len_of_prefix(a, seq![sep] + rest);
    assert(a + (seq![sep] + rest) =~= s);
    assert(s.take(a.len() as int) =~= a);
    let tail = s.skip(a.len() as int);
    assert(tail =~= seq![sep] + rest);
    assert(tail.skip(1) =~= rest);
    assert(tail[0] == sep);
    assert(words(tail) == words(rest));
    assert(s[0] == a[0]);
}

/// A text without white space is its own only word.
pub proof fn lemma_words_single(a: Seq<char>)
    requires
        a.len() > 0,
        forall|i: int| 0 <= i < a.len() ==> !white_space(#[trigger] a[i]),
    ensures
        words(a) == seq![a],
{
    lemma_word_len_of_prefix(a, Seq::empty());
    assert(a + Seq::<char>::empty() =~= a);
    assert(a.take(a.len() as int) =~= a);
    assert(a.skip(a.len() as int) =~= Seq::<char>::empty());
    assert(words(Seq::<char>::empty()) =~= Seq::<Seq<char>>::empty());
    assert(words(a) =~= seq![a]);
}

proof fn lemma_word_len_of_prefix(a: Seq<char>, rest: Seq<char>)
    requires
        forall|i: int| 0 <= i < a.len() ==> !white_space(#[trigger] a[i]),
        rest.len() == 0 || white_space(rest[0]),
    ensures
        word_len(a + rest) == a.len(),
    decreases a.len(),
{
    if a.len() == 0 {
        assert(a + rest =~= rest);
    } else {
        assert((a + rest).skip(1) =~= a.skip(1) + rest);
        assert forall|i: int| 0 <= i < a.skip(1).len() implies !white_space(
            #[trigger] a.skip(1)[i],
        ) by {
            assert(a.skip(1)[i] == a[i + 1]);
        }
        lemma_word_len_of_prefix(a.skip(1), rest);
    }
}

proof fn lemma_before_sep_of_prefix(a: Seq<char>, sep: char, rest: Seq<char>)
    requires
        forall|i: int| 0 <= i < a.len() ==> #[trigger] a[i] != sep,
        rest.len() == 0 || rest[0] == sep,
    ensures
        before_sep(a + rest, sep) == a.len(),
    decreases a.len(),
{
    if a.len() == 0 {
        assert(a + rest =~= rest);
    } else {
        assert((a + rest).skip(1) =~= a.skip(1) + rest);
        assert forall|i: int| 0 <= i < a.skip(1).len() implies #[trigger] a.skip(1)[i] != sep by {
            assert(a.skip(1)[i] == a[i + 1]);
        }
        lemma_before_sep_of_prefix(a.skip(1), sep, rest);
    }
}

/// What stands before a separator is the first part.
pub proof fn lemma_parts_cons(a: Seq<char>, sep: char, rest: Seq<char>)
    requires
        forall|i: int| 0 <= i < a.len() ==> #[trigger] a[i] != sep,
    ensures
        parts(a + seq![sep] + rest, sep) == seq![a] + parts(rest, sep),
{
    let s = a + seq![sep] + rest;
    lemma_before_sep_of_prefix(a, sep, seq![sep] + rest);
    assert(a + (seq![sep] + rest) =~= s);
    assert(s.take(a.len() as int) =~= a);
    assert(s.skip(a.len() as int + 1) =~= rest);
}

/// A text without the separator is its own only part.
pub proof fn lemma_parts_single(a: Seq<char>, sep: char)
    requires
        forall|i: int| 0 <= i < a.len() ==> #[trigger] a[i] != sep,
    ensures
        parts(a, sep) == seq![a],
{
    lemma_before_sep_of_prefix(a, sep, Seq::empty());
    assert(a + Seq::<char>::empty() =~= a);
}

/// What is wrong, in the words of the error, or `None` where all is well.
pub open spec fn fault(r: Result<(), String>) -> Option<Seq<char>> {
    match r {
        Ok(()) => None,
        Err(text) => Some(text@),
    }
}

/// Two texts as one.
pub fn join2(a: &str, b: &str) -> (r: String)
    ensures
        r@ == a@ + b@,
{
    let mut out = a.to_string();
    out.push_str(b);
    out
}

/// Three texts as one.
pub fn join3(a: &str, b: &str, c: &str) -> (r: String)
    ensures
        r@ == a@ + b@ + c@,
{
    let mut out = a.to_string();
    out.push_str(b);
    out.push_str(c);
    out
}

/// A text, a number and a text as one.
pub fn with_number(a: &str, n: u128, b: &str) -> (r: String)
    ensures
        r@ == a@ + digits(n as nat) + b@,
{
    let mut out = a.to_string();
    push_decimal(&mut out, n);
    out.push_str(b);
    out
}

/// A text and a number as one.
pub fn number_after(a: &str, n: u128) -> (r: String)
    ensures
        r@ == a@ + digits(n as nat),
{
    let mut out = a.to_string();
    push_decimal(&mut out, n);
    out
}

/// The first fault among `n` things.
pub open spec fn first_fault(faults: spec_fn(int) -> Option<Seq<char>>, n: nat) -> Option<Seq<char>>
    decreases n,
{
    if n == 0 {
        None
    } else {
        match first_fault(faults, (n - 1) as nat) {
            Some(e) => Some(e),
            None => faults(n - 1),
        }
    }
}

/// A fault among the first things is the first fault of all.
pub proof fn lemma_first_fault_stays(
    faults: spec_fn(int) -> Option<Seq<char>>,
    m: nat,
    n: nat,
)
    requires
        m <= n,
        first_fault(faults, m) is Some,
    ensures
        first_fault(faults, n) == first_fault(faults, m),
    decreases n,
{
    if m < n {
        lemma_first_fault_stays(faults, m, (n - 1) as nat);
    }
}

/// There is no first fault exactly where there is none.
pub proof fn lemma_no_fault(faults: spec_fn(int) -> Option<Seq<char>>, n: nat)
    ensures
        first_fault(faults, n) is None <==> forall|i: int| 0 <= i < n ==> (#[trigger] faults(i)) is None,
    decreases n,
{
    if n > 0 {
        lemma_no_fault(faults, (n - 1) as nat);
        if first_fault(faults, n) is None {
            assert(faults(n - 1) is None);
        } else if first_fault(faults, (n - 1) as nat) is None {
            assert(faults(n - 1) is Some);
        }
    }
}

/// Trimming drops white space from both ends and nothing else.
pub proof fn law_trimming_drops_what_is_around(s: Seq<char>, c: char)
    ensures
        white_space(c) ==> trimmed(s.push(c)) == trimmed(s),
        white_space(c) ==> trimmed(seq![c] + s) == trimmed(s),
        trimmed(s).len() <= s.len(),
        trimmed(s).len() > 0 ==> !white_space(trimmed(s)[0]) && !white_space(trimmed(s).last()),
        s.len() > 0 && !white_space(s[0]) ==> trimmed(s).len() > 0,
        s.len() > 0 && !white_space(s[0]) && !white_space(s.last()) ==> trimmed(s) == s,
        trimmed(trimmed(s)) == trimmed(s),
{
    lemma_trimmed_start(s);
    lemma_trimmed_end(trimmed_start(s));
    let t = trimmed(s);
    lemma_trimmed_start(t);
    if white_space(c) {
        lemma_start_pushed(s, c);
        assert((seq![c] + s).skip(1) =~= s);
        let front = trimmed_start(s);
        assert(front.push(c).drop_last() =~= front);
    }
}

proof fn lemma_trimmed_start(s: Seq<char>)
    ensures
        trimmed_start(s).len() <= s.len(),
        trimmed_start(s).len() > 0 ==> !white_space(trimmed_start(s)[0]),
        trimmed_start(s).len() > 0 ==> s.len() > 0 && trimmed_start(s).last() == s.last(),
    decreases s.len(),
{
    if s.len() > 0 && white_space(s[0]) {
        lemma_trimmed_start(s.skip(1));
    }
}

proof fn lemma_trimmed_end(s: Seq<char>)
    ensures
        trimmed_end(s).len() <= s.len(),
        trimmed_end(s).len() > 0 ==> !white_space(trimmed_end(s).last()),
        trimmed_end(s).len() > 0 ==> s.len() > 0 && trimmed_end(s)[0] == s[0],
        s.len() > 0 && !white_space(s[0]) ==> trimmed_end(s).len() > 0,
    decreases s.len(),
{
    if s.len() > 0 && white_space(s.last()) {
        lemma_trimmed_end(s.drop_last());
    }
}

/// White space at the end does not stand in the way of what is dropped in front.
proof fn lemma_start_pushed(s: Seq<char>, c: char)
    requires
        white_space(c),
    ensures
        trimmed_end(trimmed_start(s.push(c))) == trimmed_end(trimmed_start(s)),
    decreases s.len(),
{
    if s.len() == 0 {
        assert(s.push(c).skip(1) =~= Seq::<char>::empty());
        assert(s =~= Seq::<char>::empty());
    } else if white_space(s[0]) {
        assert(s.push(c)[0] == s[0]);
        assert(s.push(c).skip(1) =~= s.skip(1).push(c));
        lemma_start_pushed(s.skip(1), c);
    } else {
        assert(s.push(c)[0] == s[0]);
        assert(s.push(c).drop_last() =~= s);
    }
}

} // verus!
