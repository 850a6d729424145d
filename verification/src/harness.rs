//! What a measurement of memory use has to read and to compute.
use vstd::prelude::*;

use crate::budget::MemoryBudget;

verus! {

/// Whether the character separates words: those with the Unicode property
/// `White_Space`.
pub open spec fn is_space(c: char) -> bool {
    let n = c as u32;
    ||| 0x09 <= n <= 0x0d
    ||| n == 0x20
    ||| n == 0x85
    ||| n == 0xa0
    ||| n == 0x1680
    ||| 0x2000 <= n <= 0x200a
    ||| n == 0x2028
    ||| n == 0x2029
    ||| n == 0x202f
    ||| n == 0x205f
    ||| n == 0x3000
}

/// Whether the character is a decimal digit.
pub open spec fn is_digit(c: char) -> bool {
    0x30 <= c as u32 <= 0x39
}

/// The characters up to the first that `stop` holds of.
pub open spec fn up_to(s: Seq<char>, stop: spec_fn(char) -> bool) -> Seq<char>
    decreases s.len(),
{
    if s.len() == 0 || stop(s[0]) {
        Seq::empty()
    } else {
        seq![s[0]] + up_to(s.skip(1), stop)
    }
}

/// The number that digits stand for.
pub open spec fn digits_value(s: Seq<char>) -> nat
    decreases s.len(),
{
    if s.len() == 0 {
        0
    } else {
        (digits_value(s.drop_last()) * 10 + (s.last() as u32 - 0x30)) as nat
    }
}

/// There is nothing but digits.
pub open spec fn all_digits(s: Seq<char>) -> bool {
    forall|i: int| 0 <= i < s.len() ==> is_digit(#[trigger] s[i])
}

/// The number that a word stands for, if it is one that can be held: digits,
/// with or without a plus sign in front.
pub open spec fn number(word: Seq<char>) -> Option<u64> {
    let digits = if word.len() > 0 && word[0] == '+' {
        word.skip(1)
    } else {
        word
    };
    if digits.len() > 0 && all_digits(digits) && digits_value(digits) <= u64::MAX {
        Some(digits_value(digits) as u64)
    } else {
        None
    }
}

/// The first word of a text, which is empty if there is none.
pub open spec fn first_word(s: Seq<char>) -> Seq<char>
    decreases s.len(),
{
    if s.len() > 0 && is_space(s[0]) {
        first_word(s.skip(1))
    } else {
        up_to(s, |c: char| is_space(c))
    }
}

/// The value of the first line of the text with the name in front.
pub open spec fn field(s: Seq<char>, name: Seq<char>) -> Option<u64>
    decreases s.len(),
{
    let line = up_to(s, |c: char| c == '\n');
    if s.len() == 0 {
        None
    } else if line.len() >= name.len() && line.take(name.len() as int) == name {
        number(first_word(line.skip(name.len() as int)))
    } else if s.len() <= line.len() + 1 {
        None
    } else {
        field(s.skip(line.len() as int + 1), name)
    }
}

/// The name in front of the amount of anonymous memory.
pub open spec fn rss_anon_name() -> Seq<char> {
    seq!['R', 's', 's', 'A', 'n', 'o', 'n', ':']
}

proof fn lemma_up_to(s: Seq<char>, stop: spec_fn(char) -> bool, n: int)
    requires
        0 <= n <= s.len(),
        forall|i: int| 0 <= i < n ==> !stop(#[trigger] s[i]),
        n < s.len() ==> stop(s[n]),
    ensures
        up_to(s, stop) == s.take(n),
    decreases n,
{
    if n > 0 {
        assert(!stop(s[0]));
        assert forall|i: int| 0 <= i < n - 1 implies !stop(#[trigger] s.skip(1)[i]) by {
            assert(s.skip(1)[i] == s[i + 1]);
        }
        lemma_up_to(s.skip(1), stop, n - 1);
        assert(seq![s[0]] + s.skip(1).take(n - 1) =~= s.take(n));
    } else {
        assert(s.take(0) =~= Seq::<char>::empty());
    }
}

fn exec_is_space(c: char) -> (r: bool)
    ensures
        r == is_space(c),
{
    let n: u32 = c as u32;
    (0x09 <= n && n <= 0x0d) || n == 0x20 || n == 0x85 || n == 0xa0 || n == 0x1680 || (0x2000 <= n
        && n <= 0x200a) || n == 0x2028 || n == 0x2029 || n == 0x202f || n == 0x205f || n == 0x3000
}

/// The number that the characters from `start` to `end` stand for.
fn parse_number(text: &Vec<char>, start: usize, end: usize) -> (r: Option<u64>)
    requires
        start <= end <= text@.len(),
    ensures
        r == number(text@.subrange(start as int, end as int)),
{
    let ghost word = text@.subrange(start as int, end as int);
    let mut first: usize = start;
    if start < end && text[start] == '+' {
        first = start + 1;
    }
    let ghost digits = text@.subrange(first as int, end as int);
    proof {
        assert(word.len() > 0 && word[0] == '+' ==> word.skip(1) =~= digits);
        assert(first == start ==> digits =~= word);
    }
    assert(digits == if word.len() > 0 && word[0] == '+' {
        word.skip(1)
    } else {
        word
    });
    if first == end {
        return None;
    }
    let mut value: u64 = 0;
    let mut i: usize = first;
    while i < end
        invariant
            first <= i <= end <= text@.len(),
            start <= end,
            word == text@.subrange(start as int, end as int),
            digits == text@.subrange(first as int, end as int),
            digits == if word.len() > 0 && word[0] == '+' {
                word.skip(1)
            } else {
                word
            },
            forall|j: int| 0 <= j < i - first ==> is_digit(#[trigger] digits[j]),
            value == digits_value(digits.take(i - first)),
        ensures
            i == end,
        decreases end - i,
    {
        let c: char = text[i];
        assert(c == digits[i - first]);
        let n: u32 = c as u32;
        if n < 0x30 || 0x39 < n {
            assert(!is_digit(digits[i - first]));
            return None;
        }
        let d: u64 = (n - 0x30) as u64;
        proof {
            let more = digits.take(i + 1 - first);
            assert(more.drop_last() =~= digits.take(i - first));
            assert(digits_value(more) == value * 10 + d);
            lemma_digits_grow(digits, i + 1 - first);
        }
        if value > (u64::MAX - d) / 10 {
            return None;
        }
        value = value * 10 + d;
        i = i + 1;
    }
    assert(digits.take(end - first) =~= digits);
    Some(value)
}

/// A number only grows with more digits.
proof fn lemma_digits_grow(digits: Seq<char>, n: int)
    requires
        0 <= n <= digits.len(),
    ensures
        all_digits(digits) ==> digits_value(digits.take(n)) <= digits_value(digits),
    decreases digits.len() - n,
{
    if all_digits(digits) {
        if n == digits.len() {
            assert(digits.take(n) =~= digits);
        } else {
            lemma_digits_grow(digits, n + 1);
            let more = digits.take(n + 1);
            assert(more.drop_last() =~= digits.take(n));
            assert(more.last() == digits[n]);
            assert(is_digit(digits[n]));
        }
    }
}

/// Whether `name` stands in `text` at `start`.
fn stands_at(text: &Vec<char>, start: usize, end: usize, name: &Vec<char>) -> (r: bool)
    requires
        start <= end <= text@.len(),
    ensures
        r == (end - start >= name@.len() && text@.subrange(start as int, start + name@.len())
            == name@),
{
    if end - start < name.len() {
        return false;
    }
    let mut i: usize = 0;
    while i < name.len()
        invariant
            i <= name@.len(),
            start <= end <= text@.len(),
            end - start >= name@.len(),
            text@.subrange(start as int, start + i) == name@.take(i as int),
        decreases name@.len() - i,
    {
        let ghost part = text@.subrange(start as int, start + name@.len());
        if text[start + i] != name[i] {
            assert(part[i as int] != name@[i as int]);
            return false;
        }
        proof {
            assert(text@.subrange(start as int, start + i + 1) =~= text@.subrange(
                start as int,
                start + i,
            ).push(name@[i as int]));
            assert(name@.take(i + 1) =~= name@.take(i as int).push(name@[i as int]));
        }
        i = i + 1;
    }
    assert(name@.take(i as int) =~= name@);
    true
}

/// The number that the first word between `start` and `end` stands for.
fn first_number(text: &Vec<char>, start: usize, end: usize) -> (r: Option<u64>)
    requires
        start <= end <= text@.len(),
    ensures
        r == number(first_word(text@.subrange(start as int, end as int))),
{
    let mut i: usize = start;
    while i < end && exec_is_space(text[i])
        invariant
            start <= i <= end <= text@.len(),
            first_word(text@.subrange(start as int, end as int)) == first_word(
                text@.subrange(i as int, end as int),
            ),
        decreases end - i,
    {
        assert(text@.subrange(i as int, end as int).skip(1) =~= text@.subrange(
            i + 1,
            end as int,
        ));
        i = i + 1;
    }
    let mut j: usize = i;
    let ghost rest = text@.subrange(i as int, end as int);
    while j < end && !exec_is_space(text[j])
        invariant
            i <= j <= end <= text@.len(),
            rest == text@.subrange(i as int, end as int),
            forall|k: int| 0 <= k < j - i ==> !is_space(#[trigger] rest[k]),
        decreases end - j,
    {
        assert(rest[j - i] == text@[j as int]);
        j = j + 1;
    }
    proof {
        let stop = |c: char| is_space(c);
        assert(j < end ==> stop(rest[j - i]));
        lemma_up_to(rest, stop, j - i);
        assert(rest.take(j - i) =~= text@.subrange(i as int, j as int));
    }
    parse_number(text, i, j)
}

/// The amount of anonymous memory, in KiB, that the text of a process's status
/// tells of. That is what cannot be written back to a file, so what counts
/// against the memory of the machine.
pub fn rss_anon_kb(status: &Vec<char>) -> (kb: Option<u64>)
    ensures
        kb == field(status@, rss_anon_name()),
{
    let name: Vec<char> = vec!['R', 's', 's', 'A', 'n', 'o', 'n', ':'];
    assert(name@ =~= rss_anon_name());
    let mut start: usize = 0;
    assert(status@.skip(0) =~= status@);
    while start < status.len()
        invariant
            start <= status@.len(),
            name@ == rss_anon_name(),
            field(status@, rss_anon_name()) == field(status@.skip(start as int), rss_anon_name()),
        decreases status@.len() - start,
    {
        let ghost rest = status@.skip(start as int);
        let mut end: usize = start;
        while end < status.len() && status[end] != '\n'
            invariant
                start <= end <= status@.len(),
                rest == status@.skip(start as int),
                forall|k: int| 0 <= k < end - start ==> (#[trigger] rest[k]) != '\n',
            decreases status@.len() - end,
        {
            assert(rest[end - start] == status@[end as int]);
            end = end + 1;
        }
        proof {
            let stop = |c: char| c == '\n';
            assert(end < status@.len() ==> stop(rest[end - start]));
            lemma_up_to(rest, stop, end - start);
            let line = rest.take(end - start);
            if line.len() >= 8 {
                assert(line.take(8) =~= status@.subrange(start as int, start + 8));
                assert(line.skip(8) =~= status@.subrange(start + 8, end as int));
            }
        }
        if stands_at(status, start, end, &name) {
            return first_number(status, start + 8, end);
        }
        if status.len() - end <= 1 {
            return None;
        }
        assert(rest.skip(end - start + 1) =~= status@.skip(end + 1));
        start = end + 1;
    }
    None
}

/// The sum of all numbers.
pub open spec fn sum(sizes: Seq<u64>) -> nat
    decreases sizes.len(),
{
    if sizes.len() == 0 {
        0
    } else {
        sum(sizes.drop_last()) + sizes.last() as nat
    }
}

/// The size of all files together, or the largest number there is if it is more
/// than that.
pub fn total_size(sizes: &Vec<u64>) -> (total: u64)
    ensures
        total == if sum(sizes@) <= u64::MAX {
            sum(sizes@)
        } else {
            u64::MAX as nat
        },
{
    let mut total: u64 = 0;
    let mut i: usize = 0;
    while i < sizes.len()
        invariant
            i <= sizes@.len(),
            total == if sum(sizes@.take(i as int)) <= u64::MAX {
                sum(sizes@.take(i as int))
            } else {
                u64::MAX as nat
            },
        decreases sizes@.len() - i,
    {
        assert(sizes@.take(i + 1).drop_last() =~= sizes@.take(i as int));
        total = total.saturating_add(sizes[i]);
        i = i + 1;
    }
    assert(sizes@.take(i as int) =~= sizes@);
    total
}

/// The budget for a limit in MiB, which is unlimited if there is none.
pub fn budget_of_mb(mb: Option<u64>) -> (budget: MemoryBudget)
    requires
        mb matches Some(n) ==> n * 1_048_576 <= u64::MAX,
    ensures
        budget.limit() == match mb {
            Some(n) => (n * 1_048_576) as u64,
            None => u64::MAX,
        },
{
    match mb {
        Some(n) => MemoryBudget::bytes(n * 1_048_576),
        None => MemoryBudget::unlimited(),
    }
}

/// The text on one line.
pub fn one_line(text: &Vec<char>) -> (line: Vec<char>)
    ensures
        line@ == text@.map_values(
            |c: char|
                if c == '\n' {
                    ' '
                } else {
                    c
                },
        ),
{
    let mut line: Vec<char> = Vec::new();
    let mut i: usize = 0;
    while i < text.len()
        invariant
            i <= text@.len(),
            line@.len() == i,
            forall|j: int|
                0 <= j < i ==> #[trigger] line@[j] == if text@[j] == '\n' {
                    ' '
                } else {
                    text@[j]
                },
        decreases text@.len() - i,
    {
        let c: char = text[i];
        line.push(
            if c == '\n' {
                ' '
            } else {
                c
            },
        );
        i = i + 1;
    }
    line
}

/// Digits stand for a number as written in decimal: one more digit makes it ten
/// times as large and adds its own value.
pub proof fn law_digits_are_decimal(s: Seq<char>, c: char)
    requires
        is_digit(c),
    ensures
        digits_value(Seq::<char>::empty()) == 0,
        digits_value(s.push(c)) == 10 * digits_value(s) + (c as int - '0' as int),
{
    assert(s.push(c).drop_last() =~= s);
}

/// Every number that can be held is read as itself from its decimal digits, with
/// or without a plus sign in front.
pub proof fn law_numbers_are_read(n: u64)
    ensures
        number(crate::budget::decimal(n as nat)) == Some(n),
        number(seq!['+'] + crate::budget::decimal(n as nat)) == Some(n),
{
    let digits = crate::budget::decimal(n as nat);
    crate::budget::law_decimal_reads_back(n as nat);
    assert((seq!['+'] + digits).skip(1) =~= digits);
    assert(is_digit(digits[0]));
}

/// A word is a number only if it is made of digits, at least one, behind a plus
/// sign or nothing, and the number is one that can be held.
pub proof fn law_only_digits_are_numbers(word: Seq<char>)
    ensures
        number(word) is Some ==> word.len() > 0 && is_digit(word.last()) && forall|i: int|
            0 < i < word.len() ==> is_digit(#[trigger] word[i]),
        number(word) is Some ==> is_digit(word[0]) || word[0] == '+',
        all_digits(word) && word.len() > 0 ==> number(word) == if digits_value(word) <= u64::MAX {
            Some(digits_value(word) as u64)
        } else {
            None
        },
{
    let digits = if word.len() > 0 && word[0] == '+' {
        word.skip(1)
    } else {
        word
    };
    if number(word) is Some {
        assert forall|i: int| 0 < i < word.len() implies is_digit(#[trigger] word[i]) by {
            if word[0] == '+' {
                assert(is_digit(digits[i - 1]));
            } else {
                assert(is_digit(digits[i]));
            }
        }
        assert(is_digit(digits[digits.len() - 1]));
        if word[0] != '+' {
            assert(is_digit(digits[0]));
        }
    }
    if all_digits(word) && word.len() > 0 {
        assert(is_digit(word[0]));
    }
}

/// The line with the name in front gives its value: the number that the first word
/// behind the name stands for. What follows that word plays no part.
pub proof fn law_value_is_the_first_word(
    name: Seq<char>,
    gap: Seq<char>,
    word: Seq<char>,
    rest: Seq<char>,
)
    requires
        forall|i: int| 0 <= i < name.len() ==> (#[trigger] name[i]) != '\n',
        forall|i: int| 0 <= i < gap.len() ==> is_space(#[trigger] gap[i]) && gap[i] != '\n',
        word.len() > 0,
        forall|i: int| 0 <= i < word.len() ==> !is_space(#[trigger] word[i]),
        rest.len() > 0 ==> is_space(rest[0]),
    ensures
        field(name + gap + word + rest, name) == number(word),
{
    let text = name + gap + word + rest;
    let stop = |c: char| c == '\n';
    let front = name + gap + word;
    assert forall|i: int| 0 <= i < front.len() implies !stop(#[trigger] text[i]) by {
        if i < name.len() {
            assert(text[i] == name[i]);
        } else if i < name.len() + gap.len() {
            assert(text[i] == gap[i - name.len()]);
        } else {
            assert(text[i] == word[i - name.len() - gap.len()]);
            assert(!is_space(word[i - name.len() - gap.len()]));
        }
    }
    let n = lemma_line_end(text, front.len() as int);
    lemma_up_to(text, stop, n);
    let line = text.take(n);
    let tail = rest.take(n - front.len());
    assert(line.take(name.len() as int) =~= name);
    assert(line.skip(name.len() as int) =~= gap + word + tail);
    assert(tail.len() > 0 ==> tail[0] == rest[0]);
    lemma_first_word(gap, word, tail);
}

/// Where the line of which `from` characters are known ends.
proof fn lemma_line_end(text: Seq<char>, from: int) -> (n: int)
    requires
        0 <= from <= text.len(),
        forall|i: int| 0 <= i < from ==> (#[trigger] text[i]) != '\n',
    ensures
        from <= n <= text.len(),
        forall|i: int| 0 <= i < n ==> (#[trigger] text[i]) != '\n',
        n < text.len() ==> text[n] == '\n',
    decreases text.len() - from,
{
    if from < text.len() && text[from] != '\n' {
        lemma_line_end(text, from + 1)
    } else {
        from
    }
}

proof fn lemma_first_word(gap: Seq<char>, word: Seq<char>, tail: Seq<char>)
    requires
        forall|i: int| 0 <= i < gap.len() ==> is_space(#[trigger] gap[i]),
        word.len() > 0,
        forall|i: int| 0 <= i < word.len() ==> !is_space(#[trigger] word[i]),
        tail.len() > 0 ==> is_space(tail[0]),
    ensures
        first_word(gap + word + tail) == word,
    decreases gap.len(),
{
    let s = gap + word + tail;
    if gap.len() > 0 {
        assert(s[0] == gap[0]);
        let less = gap.skip(1);
        assert forall|i: int| 0 <= i < less.len() implies is_space(#[trigger] less[i]) by {
            assert(less[i] == gap[i + 1]);
        }
        lemma_first_word(less, word, tail);
        assert(s.skip(1) =~= less + word + tail);
    } else {
        let stop = |c: char| is_space(c);
        assert(s =~= word + tail);
        assert forall|i: int| 0 <= i < word.len() implies !stop(#[trigger] s[i]) by {
            assert(s[i] == word[i]);
        }
        assert(!is_space(word[0]));
        lemma_up_to(s, stop, word.len() as int);
        assert(s.take(word.len() as int) =~= word);
    }
}

/// A line that does not begin with the name is passed over, and a text without any
/// line has no value.
pub proof fn law_other_lines_are_passed_over(line: Seq<char>, rest: Seq<char>, name: Seq<char>)
    requires
        forall|i: int| 0 <= i < line.len() ==> (#[trigger] line[i]) != '\n',
        line.len() < name.len() || line.take(name.len() as int) != name,
    ensures
        field(line.push('\n') + rest, name) == field(rest, name),
        field(Seq::<char>::empty(), name) is None,
{
    let text = line.push('\n') + rest;
    let stop = |c: char| c == '\n';
    let n = line.len() as int;
    assert forall|i: int| 0 <= i < n implies !stop(#[trigger] text[i]) by {
        assert(text[i] == line[i]);
    }
    lemma_up_to(text, stop, n);
    assert(text.take(n) =~= line);
    assert(text.skip(n + 1) =~= rest);
}

/// The name in front of the amount of anonymous memory, as it is spelled.
pub proof fn law_name_of_anonymous_memory()
    ensures
        rss_anon_name() == "RssAnon:"@,
{
    reveal_strlit("RssAnon:");
    assert(rss_anon_name() =~= "RssAnon:"@);
}

/// Sums add up: nothing is zero, and of two lists the sums together are that of
/// both.
pub proof fn law_sizes_add_up(a: Seq<u64>, b: Seq<u64>, x: u64)
    ensures
        sum(Seq::<u64>::empty()) == 0,
        sum(seq![x]) == x,
        sum(a + b) == sum(a) + sum(b),
    decreases b.len(),
{
    reveal_with_fuel(sum, 2);
    assert(seq![x].drop_last() =~= Seq::<u64>::empty());
    if b.len() > 0 {
        law_sizes_add_up(a, b.drop_last(), x);
        assert((a + b).drop_last() =~= a + b.drop_last());
    } else {
        assert(a + b =~= a);
    }
}

/// Of the characters up to 127, words are separated by tab, line feed, vertical tab,
/// form feed, carriage return and space. Beyond those it takes a next-line
/// character or one of the spaces and separators that Unicode has.
pub proof fn law_words_are_separated_by_white_space(c: char)
    ensures
        c as u32 <= 127 ==> (is_space(c) <==> (c == '\t' || c == '\n' || c == '\u{b}' || c == '\u{c}'
            || c == '\r' || c == ' ')),
        c as u32 > 127 ==> (is_space(c) <==> (c == '\u{85}' || c == '\u{a0}' || c == '\u{1680}' || (
        '\u{2000}' <= c && c <= '\u{200a}') || c == '\u{2028}' || c == '\u{2029}' || c
            == '\u{202f}' || c == '\u{205f}' || c == '\u{3000}')),
{
}

} // verus!
