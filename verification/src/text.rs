//! Text as sequences of characters: the string operations that the rest of
//! the library is built from.

use vstd::prelude::*;

verus! {

// ---------------------------------------------------------------------------
// Strings and character vectors
// ---------------------------------------------------------------------------

/// `String::push` appends one character to the end of a string.
pub assume_specification[ String::push ](s: &mut String, c: char)
    ensures
        final(s)@ == old(s)@.push(c),
;

/// The characters of a string, in order.
pub fn chars_of(s: &str) -> (out: Vec<char>)
    ensures
        out@ == s@,
{
    let mut out: Vec<char> = Vec::new();
    for c in it: s.chars()
        invariant
            out@ == it.seq().take(it.index()),
            it.seq() == s@,
    {
        out.push(c);
    }
    out
}

/// The string made of `chars[from..to]`.
pub fn string_of_range(chars: &[char], from: usize, to: usize) -> (out: String)
    requires
        from <= to <= chars@.len(),
    ensures
        out@ == chars@.subrange(from as int, to as int),
{
    let mut out = String::new();
    let mut i: usize = from;
    while i < to
        invariant
            from <= i <= to <= chars@.len(),
            out@ == chars@.subrange(from as int, i as int),
        decreases to - i,
    {
        out.push(chars[i]);
        i += 1;
    }
    out
}

/// Whether two strings hold the same characters.
pub fn same_text(a: &str, b: &str) -> (same: bool)
    ensures
        same == (a@ == b@),
{
    let left = a.to_owned();
    let right = b.to_owned();
    left == right
}

/// The texts that a sequence of strings holds.
pub open spec fn texts(strings: Seq<String>) -> Seq<Seq<char>> {
    strings.map_values(|s: String| s@)
}

/// The texts that a sequence of string slices holds.
pub open spec fn str_texts(strings: Seq<&str>) -> Seq<Seq<char>> {
    strings.map_values(|s: &str| s@)
}

/// Appends copies of `items`.
pub fn push_all(out: &mut Vec<String>, items: &[&str])
    ensures
        texts(final(out)@) == texts(old(out)@) + str_texts(items@),
{
    let mut i: usize = 0;
    while i < items.len()
        invariant
            i <= items@.len(),
            texts(out@) == texts(old(out)@) + str_texts(items@).take(i as int),
        decreases items@.len() - i,
    {
        let item = items[i].to_owned();
        let ghost before = out@;
        out.push(item);
        proof {
            assert(texts(out@) =~= texts(before).push(item@));
            assert(str_texts(items@).take(i + 1) =~= str_texts(items@).take(i as int).push(
                items@[i as int]@,
            ));
        }
        i += 1;
    }
    assert(str_texts(items@).take(i as int) =~= str_texts(items@));
}

// ---------------------------------------------------------------------------
// Character classes and letter case
// ---------------------------------------------------------------------------

/// The characters that Unicode gives the `White_Space` property.
pub open spec fn whitespace(c: char) -> bool {
    ||| 0x09 <= c as u32 <= 0x0d
    ||| c as u32 == 0x20
    ||| c as u32 == 0x85
    ||| c as u32 == 0xa0
    ||| c as u32 == 0x1680
    ||| 0x2000 <= c as u32 <= 0x200a
    ||| 0x2028 <= c as u32 <= 0x2029
    ||| c as u32 == 0x202f
    ||| c as u32 == 0x205f
    ||| c as u32 == 0x3000
}

/// Whether `c` has the `White_Space` property.
pub fn is_whitespace(c: char) -> (r: bool)
    ensures
        r == whitespace(c),
{
    let n: u32 = c as u32;
    (0x09 <= n && n <= 0x0d) || n == 0x20 || n == 0x85 || n == 0xa0 || n == 0x1680 || (0x2000
        <= n && n <= 0x200a) || (0x2028 <= n && n <= 0x2029) || n == 0x202f || n == 0x205f || n
        == 0x3000
}

/// The digits and letters of ASCII.
pub open spec fn ascii_alphanumeric(c: char) -> bool {
    ||| '0' <= c <= '9'
    ||| 'A' <= c <= 'Z'
    ||| 'a' <= c <= 'z'
}

/// What `char::is_alphanumeric` answers for a character.
pub uninterp spec fn alphanumeric(c: char) -> bool;

/// `char::is_alphanumeric` asks the Unicode tables whether a character is
/// alphabetic or numeric. The answer depends on the character alone, and
/// among the ASCII characters it holds of the digits and letters only.
pub assume_specification[ char::is_alphanumeric ](c: char) -> (r: bool)
    ensures
        r == alphanumeric(c),
        (c as u32) < 128 ==> r == ascii_alphanumeric(c),
;

/// An ASCII letter in lower case, any other character as it is.
pub open spec fn ascii_lower(c: char) -> char {
    if 'A' <= c <= 'Z' {
        (c as u32 + 32) as char
    } else {
        c
    }
}

/// An ASCII letter in upper case, any other character as it is.
pub open spec fn ascii_upper(c: char) -> char {
    if 'a' <= c <= 'z' {
        (c as u32 - 32) as char
    } else {
        c
    }
}

/// A text with its ASCII letters in lower case.
pub open spec fn ascii_lower_text(s: Seq<char>) -> Seq<char> {
    s.map_values(|c: char| ascii_lower(c))
}

/// A text with its ASCII letters in upper case.
pub open spec fn ascii_upper_text(s: Seq<char>) -> Seq<char> {
    s.map_values(|c: char| ascii_upper(c))
}

/// What `str::to_lowercase` makes of a text.
pub uninterp spec fn lowercase(s: Seq<char>) -> Seq<char>;

/// What `str::to_uppercase` makes of a text.
pub uninterp spec fn uppercase(s: Seq<char>) -> Seq<char>;

/// `str::to_lowercase` maps a text to lower case by the Unicode tables. The
/// result depends on the text alone, and ASCII text is mapped letter by
/// letter.
pub assume_specification[ str::to_lowercase ](s: &str) -> (out: String)
    ensures
        out@ == lowercase(s@),
        vstd::utf8::is_ascii_chars(s@) ==> out@ == ascii_lower_text(s@),
;

/// `str::to_uppercase` maps a text to upper case by the Unicode tables. The
/// result depends on the text alone, and ASCII text is mapped letter by
/// letter.
pub assume_specification[ str::to_uppercase ](s: &str) -> (out: String)
    ensures
        out@ == uppercase(s@),
        vstd::utf8::is_ascii_chars(s@) ==> out@ == ascii_upper_text(s@),
;

// ---------------------------------------------------------------------------
// Prefixes, suffixes, searching
// ---------------------------------------------------------------------------

/// Whether `p` stands in `s` from position `at` on.
pub open spec fn stands_at(s: Seq<char>, p: Seq<char>, at: int) -> bool {
    0 <= at && at + p.len() <= s.len() && s.subrange(at, at + p.len()) == p
}

/// Whether `part` stands in `chars` from position `at` on.
pub fn is_at(chars: &[char], part: &[char], at: usize) -> (r: bool)
    ensures
        r == stands_at(chars@, part@, at as int),
{
    if at > chars.len() || part.len() > chars.len() - at {
        return false;
    }
    let mut i: usize = 0;
    while i < part.len()
        invariant
            at + part@.len() <= chars@.len() <= usize::MAX,
            i <= part@.len(),
            forall|k: int| 0 <= k < i ==> chars@[at + k] == part@[k],
        decreases part@.len() - i,
    {
        if chars[at + i] != part[i] {
            assert(chars@.subrange(at as int, at + part@.len())[i as int] != part@[i as int]);
            return false;
        }
        i += 1;
    }
    assert(chars@.subrange(at as int, at + part@.len()) =~= part@);
    true
}

/// Whether `s` begins with `prefix`.
pub fn has_prefix(s: &str, prefix: &str) -> (r: bool)
    ensures
        r == prefix@.is_prefix_of(s@),
{
    let r = is_at(&chars_of(s), &chars_of(prefix), 0);
    assert(prefix@.len() <= s@.len() ==> s@.subrange(0, prefix@.len() as int) =~= s@.take(
        prefix@.len() as int,
    ));
    r
}

/// Whether `s` ends with `suffix`.
pub fn has_suffix(s: &str, suffix: &str) -> (r: bool)
    ensures
        r == suffix@.is_suffix_of(s@),
{
    let chars = chars_of(s);
    let part = chars_of(suffix);
    if part.len() > chars.len() {
        return false;
    }
    let r = is_at(&chars, &part, chars.len() - part.len());
    assert(s@.subrange(s@.len() - suffix@.len(), s@.len() as int) =~= s@.skip(
        s@.len() - suffix@.len(),
    ));
    r
}

/// The first position from `from` on at which `c` stands in `s`, or the end
/// of `s` where there is none.
pub open spec fn next_position(s: Seq<char>, c: char, from: int) -> int
    decreases s.len() - from,
{
    if from < 0 || from >= s.len() {
        s.len() as int
    } else if s[from] == c {
        from
    } else {
        next_position(s, c, from + 1)
    }
}

/// The first position from `from` on at which `c` stands, or the end.
pub fn position_from(chars: &[char], c: char, from: usize) -> (at: usize)
    requires
        from <= chars@.len(),
    ensures
        at == next_position(chars@, c, from as int),
        from <= at <= chars@.len(),
{
    let mut i: usize = from;
    while i < chars.len() && chars[i] != c
        invariant
            from <= i <= chars@.len(),
            next_position(chars@, c, from as int) == next_position(chars@, c, i as int),
        decreases chars@.len() - i,
    {
        i += 1;
    }
    i
}

/// Where `c` does not stand in `s` from `from` on and before `to`, and stands
/// at `to` or `to` is the end, `to` is the next position of `c`.
pub proof fn lemma_next_position(s: Seq<char>, c: char, from: int, to: int)
    requires
        0 <= from <= to <= s.len(),
        forall|k: int| from <= k < to ==> s[k] != c,
        to < s.len() ==> s[to] == c,
    ensures
        next_position(s, c, from) == to,
    decreases to - from,
{
    if from < to {
        lemma_next_position(s, c, from + 1, to);
    }
}

/// What `next_position` finds: nothing before it is `c`, and it is `c` unless
/// it is the end.
pub proof fn lemma_next_position_is(s: Seq<char>, c: char, from: int)
    requires
        0 <= from <= s.len(),
    ensures
        from <= next_position(s, c, from) <= s.len(),
        forall|k: int| from <= k < next_position(s, c, from) ==> s[k] != c,
        next_position(s, c, from) < s.len() ==> s[next_position(s, c, from)] == c,
    decreases s.len() - from,
{
    if from < s.len() && s[from] != c {
        lemma_next_position_is(s, c, from + 1);
    }
}

/// A position of `c` in `s` and in the rest of `s` after `skip` characters.
pub proof fn lemma_position_in_suffix(s: Seq<char>, c: char, skip: int, from: int)
    requires
        0 <= skip <= from <= s.len(),
    ensures
        next_position(s, c, from) == skip + next_position(s.skip(skip), c, from - skip),
    decreases s.len() - from,
{
    if from < s.len() {
        lemma_position_in_suffix(s, c, skip, from + 1);
    }
}

/// The first position from `from` on at which `p` stands in `s`.
pub open spec fn part_position(s: Seq<char>, p: Seq<char>, from: int) -> Option<int>
    decreases s.len() + 1 - from,
{
    if from < 0 || from + p.len() > s.len() {
        None
    } else if stands_at(s, p, from) {
        Some(from)
    } else {
        part_position(s, p, from + 1)
    }
}

/// The first position at which `part` stands in `chars`.
pub fn find_part(chars: &[char], part: &[char]) -> (found: Option<usize>)
    ensures
        match found {
            Some(at) => part_position(chars@, part@, 0) == Some(at as int) && at + part@.len()
                <= chars@.len(),
            None => part_position(chars@, part@, 0) is None,
        },
{
    if part.len() > chars.len() {
        return None;
    }
    let last: usize = chars.len() - part.len();
    let mut i: usize = 0;
    while i <= last
        invariant
            last == chars@.len() - part@.len(),
            i <= last + 1,
            part_position(chars@, part@, 0) == part_position(chars@, part@, i as int),
        decreases last + 1 - i,
    {
        if is_at(chars, part, i) {
            return Some(i);
        }
        if i == last {
            assert(part_position(chars@, part@, i + 1) is None);
            return None;
        }
        i += 1;
    }
    None
}

// ---------------------------------------------------------------------------
// Trimming and replacing
// ---------------------------------------------------------------------------

/// `s` without the whitespace at its start.
pub open spec fn trimmed_start(s: Seq<char>) -> Seq<char>
    decreases s.len(),
{
    if s.len() > 0 && whitespace(s[0]) {
        trimmed_start(s.skip(1))
    } else {
        s
    }
}

/// `s` without the whitespace at its end.
pub open spec fn trimmed_end(s: Seq<char>) -> Seq<char>
    decreases s.len(),
{
    if s.len() > 0 && whitespace(s.last()) {
        trimmed_end(s.drop_last())
    } else {
        s
    }
}

/// `s` without the whitespace at its start and end.
pub open spec fn trimmed(s: Seq<char>) -> Seq<char> {
    trimmed_end(trimmed_start(s))
}

/// Trimming makes no text longer.
pub proof fn lemma_trimmed_start(s: Seq<char>)
    ensures
        trimmed_start(s).len() <= s.len(),
        trimmed_start(s) == s.skip(s.len() - trimmed_start(s).len()),
        trimmed_start(s).len() > 0 ==> !whitespace(trimmed_start(s)[0]),
    decreases s.len(),
{
    if s.len() > 0 && whitespace(s[0]) {
        lemma_trimmed_start(s.skip(1));
        assert(s.skip(1).skip(s.len() - 1 - trimmed_start(s).len()) =~= s.skip(
            s.len() - trimmed_start(s).len(),
        ));
    } else {
        assert(s.skip(0) =~= s);
    }
}

/// Trimming cuts a text at both ends and nowhere else.
pub proof fn lemma_trimmed(s: Seq<char>)
    ensures
        exists|cut: (int, int)|
            0 <= cut.0 <= cut.1 <= s.len() && trimmed(s) == #[trigger] s.subrange(cut.0, cut.1),
{
    lemma_trimmed_start(s);
    let start = trimmed_start(s);
    let from = s.len() - start.len();
    lemma_trimmed_end(start);
    let to = from + trimmed_end(start).len();
    assert(trimmed(s) =~= s.subrange(from, to));
    let cut = (from, to);
    assert(trimmed(s) == s.subrange(cut.0, cut.1));
}

/// Trimming the end leaves the front.
proof fn lemma_trimmed_end(s: Seq<char>)
    ensures
        trimmed_end(s).len() <= s.len(),
        trimmed_end(s) == s.take(trimmed_end(s).len() as int),
    decreases s.len(),
{
    if s.len() > 0 && whitespace(s.last()) {
        lemma_trimmed_end(s.drop_last());
    }
    assert(trimmed_end(s) =~= s.take(trimmed_end(s).len() as int));
}

/// The text of `chars` without the whitespace at its start and end.
pub fn trim(chars: &[char]) -> (out: String)
    ensures
        out@ == trimmed(chars@),
{
    let mut from: usize = 0;
    assert(chars@.skip(0) =~= chars@);
    while from < chars.len() && is_whitespace(chars[from])
        invariant
            from <= chars@.len(),
            trimmed_start(chars@) == trimmed_start(chars@.skip(from as int)),
        decreases chars@.len() - from,
    {
        assert(chars@.skip(from as int).skip(1) =~= chars@.skip(from + 1));
        from += 1;
    }
    let mut to: usize = chars.len();
    assert(chars@.skip(from as int) =~= chars@.subrange(from as int, to as int));
    while to > from && is_whitespace(chars[to - 1])
        invariant
            from <= to <= chars@.len(),
            trimmed(chars@) == trimmed_end(chars@.subrange(from as int, to as int)),
        decreases to,
    {
        assert(chars@.subrange(from as int, to as int).drop_last() =~= chars@.subrange(
            from as int,
            to - 1,
        ));
        to -= 1;
    }
    string_of_range(chars, from, to)
}

/// The text of `chars` without the whitespace at its end.
pub fn trim_end(chars: &[char]) -> (out: String)
    ensures
        out@ == trimmed_end(chars@),
{
    let mut to: usize = chars.len();
    assert(chars@.take(to as int) =~= chars@);
    while to > 0 && is_whitespace(chars[to - 1])
        invariant
            to <= chars@.len(),
            trimmed_end(chars@) == trimmed_end(chars@.take(to as int)),
        decreases to,
    {
        assert(chars@.take(to as int).drop_last() =~= chars@.take(to - 1));
        to -= 1;
    }
    assert(chars@.take(to as int) =~= chars@.subrange(0, to as int));
    string_of_range(chars, 0, to)
}

/// `s` with every `old_char` made a `new_char`.
pub open spec fn replaced(s: Seq<char>, old_char: char, new_char: char) -> Seq<char> {
    s.map_values(
        |c: char|
            if c == old_char {
                new_char
            } else {
                c
            },
    )
}

/// `s` with every `old_char` made a `new_char`.
pub fn replace_char(s: &str, old_char: char, new_char: char) -> (out: String)
    ensures
        out@ == replaced(s@, old_char, new_char),
{
    let chars = chars_of(s);
    let mut out = String::new();
    let mut i: usize = 0;
    while i < chars.len()
        invariant
            chars@ == s@,
            i <= chars@.len(),
            out@ == replaced(s@, old_char, new_char).take(i as int),
        decreases chars@.len() - i,
    {
        if chars[i] == old_char {
            out.push(new_char);
        } else {
            out.push(chars[i]);
        }
        i += 1;
    }
    assert(replaced(s@, old_char, new_char).take(i as int) =~= replaced(s@, old_char, new_char));
    out
}

// ---------------------------------------------------------------------------
// Numbers in decimal
// ---------------------------------------------------------------------------

/// The digit of a number below ten.
pub open spec fn digit(d: nat) -> char {
    (48 + d) as char
}

/// A number in decimal, without leading zeros.
pub open spec fn decimal(n: nat) -> Seq<char>
    decreases n,
{
    if n < 10 {
        seq![digit(n)]
    } else {
        decimal(n / 10).push(digit(n % 10))
    }
}

/// Appends a number in decimal.
pub fn push_decimal(out: &mut String, n: u64)
    ensures
        final(out)@ == old(out)@ + decimal(n as nat),
    decreases n,
{
    if n >= 10 {
        push_decimal(out, n / 10);
    }
    out.push((48 + (n % 10) as u8) as char);
    assert(out@ =~= old(out)@ + decimal(n as nat));
}

/// A number in decimal.
pub fn decimal_text(n: u64) -> (out: String)
    ensures
        out@ == decimal(n as nat),
{
    let mut out = String::new();
    push_decimal(&mut out, n);
    assert(Seq::<char>::empty() + decimal(n as nat) =~= decimal(n as nat));
    out
}

/// Whether `s` is made of one or more decimal digits.
pub open spec fn all_digits(s: Seq<char>) -> bool {
    s.len() > 0 && forall|i: int| 0 <= i < s.len() ==> '0' <= #[trigger] s[i] <= '9'
}

/// The number that a sequence of digits writes in decimal.
pub open spec fn digits_value(s: Seq<char>) -> nat
    decreases s.len(),
{
    if s.len() == 0 {
        0
    } else {
        (digits_value(s.drop_last()) * 10 + (s.last() as int - 48)) as nat
    }
}

/// The number up to `max` that `s` writes: an optional `+`, then digits.
pub open spec fn parsed_unsigned(s: Seq<char>, max: nat) -> Option<nat> {
    let digits = if s.len() > 0 && s[0] == '+' {
        s.skip(1)
    } else {
        s
    };
    if all_digits(digits) && digits_value(digits) <= max {
        Some(digits_value(digits))
    } else {
        None
    }
}

/// The 32-bit signed number that `s` writes: an optional `+` or `-`, then
/// digits.
pub open spec fn parsed_i32(s: Seq<char>) -> Option<int> {
    if s.len() > 0 && s[0] == '-' {
        if all_digits(s.skip(1)) && digits_value(s.skip(1)) <= 0x8000_0000 {
            Some(-(digits_value(s.skip(1)) as int))
        } else {
            None
        }
    } else {
        match parsed_unsigned(s, 0x7fff_ffff) {
            Some(n) => Some(n as int),
            None => None,
        }
    }
}

/// The value of a prefix of digits is no more than that of all of them.
proof fn lemma_digits_value_grows(s: Seq<char>, i: int)
    requires
        0 <= i <= s.len(),
        forall|k: int| 0 <= k < s.len() ==> '0' <= #[trigger] s[k] <= '9',
    ensures
        digits_value(s.take(i)) <= digits_value(s),
    decreases s.len() - i,
{
    if i < s.len() {
        lemma_digits_value_grows(s, i + 1);
        assert(s.take(i + 1).drop_last() =~= s.take(i));
        assert(digits_value(s.take(i + 1)) == digits_value(s.take(i)) * 10 + (s[i] as int - 48));
    } else {
        assert(s.take(i) =~= s);
    }
}

/// The number up to `max` that the digits of `chars` from `from` on write.
fn parse_digits(chars: &[char], from: usize, max: u64) -> (out: Option<u64>)
    requires
        from <= chars@.len(),
    ensures
        match out {
            Some(n) => all_digits(chars@.skip(from as int)) && n <= max && n == digits_value(
                chars@.skip(from as int),
            ),
            None => !(all_digits(chars@.skip(from as int)) && digits_value(chars@.skip(from as int))
                <= max),
        },
{
    let ghost s = chars@.skip(from as int);
    if from == chars.len() {
        return None;
    }
    let mut value: u64 = 0;
    let mut i: usize = from;
    while i < chars.len()
        invariant
            from <= i <= chars@.len(),
            s == chars@.skip(from as int),
            value <= max,
            value == digits_value(s.take(i - from)),
            forall|k: int| 0 <= k < i - from ==> '0' <= #[trigger] s[k] <= '9',
        decreases chars@.len() - i,
    {
        let c: char = chars[i];
        assert(c == s[i - from]);
        if c < '0' || c > '9' {
            return None;
        }
        assert(s.take(i + 1 - from).drop_last() =~= s.take(i - from));
        let next: u128 = value as u128 * 10 + (c as u32 - 48) as u128;
        if next > max as u128 {
            proof {
                if all_digits(s) {
                    lemma_digits_value_grows(s, i + 1 - from);
                }
            }
            return None;
        }
        value = next as u64;
        i += 1;
    }
    assert(s.take(i - from) =~= s);
    Some(value)
}

/// Reads a number up to `max`: an optional `+`, then digits.
fn parse_unsigned(chars: &[char], max: u64) -> (out: Option<u64>)
    ensures
        match out {
            Some(n) => parsed_unsigned(chars@, max as nat) == Some(n as nat),
            None => parsed_unsigned(chars@, max as nat) is None,
        },
{
    assert(chars@.skip(0) =~= chars@);
    if chars.len() > 0 && chars[0] == '+' {
        parse_digits(chars, 1, max)
    } else {
        parse_digits(chars, 0, max)
    }
}

/// Reads a `u32`: an optional `+`, then digits.
pub fn parse_u32(s: &str) -> (out: Option<u32>)
    ensures
        match out {
            Some(n) => parsed_unsigned(s@, u32::MAX as nat) == Some(n as nat),
            None => parsed_unsigned(s@, u32::MAX as nat) is None,
        },
{
    match parse_unsigned(&chars_of(s), u32::MAX as u64) {
        Some(n) => Some(n as u32),
        None => None,
    }
}

/// Reads a `usize`: an optional `+`, then digits.
pub fn parse_usize(s: &str) -> (out: Option<usize>)
    ensures
        match out {
            Some(n) => parsed_unsigned(s@, usize::MAX as nat) == Some(n as nat),
            None => parsed_unsigned(s@, usize::MAX as nat) is None,
        },
{
    match parse_unsigned(&chars_of(s), usize::MAX as u64) {
        Some(n) => Some(n as usize),
        None => None,
    }
}

/// Reads an `i32`: an optional `+` or `-`, then digits.
pub fn parse_i32(s: &str) -> (out: Option<i32>)
    ensures
        match out {
            Some(n) => parsed_i32(s@) == Some(n as int),
            None => parsed_i32(s@) is None,
        },
{
    let chars = chars_of(s);
    if chars.len() > 0 && chars[0] == '-' {
        match parse_digits(&chars, 1, 0x8000_0000) {
            Some(n) => Some((-(n as i64)) as i32),
            None => None,
        }
    } else {
        match parse_unsigned(&chars, 0x7fff_ffff) {
            Some(n) => Some(n as i32),
            None => None,
        }
    }
}

// ---------------------------------------------------------------------------
// Laws
// ---------------------------------------------------------------------------

/// The texts of strings are those of the strings, one for one.
pub proof fn law_texts_are_those_of_the_strings(strings: Seq<String>, slices: Seq<&str>)
    ensures
        texts(strings).len() == strings.len(),
        forall|i: int| 0 <= i < strings.len() ==> #[trigger] texts(strings)[i] == strings[i]@,
        str_texts(slices).len() == slices.len(),
        forall|i: int| 0 <= i < slices.len() ==> #[trigger] str_texts(slices)[i] == slices[i]@,
{
}

/// Lower and upper case undo each other on letters, and leave all else alone.
pub proof fn law_case_is_changed_on_letters_alone(c: char)
    ensures
        'A' <= c <= 'Z' ==> 'a' <= ascii_lower(c) <= 'z' && ascii_lower(c) as u32 - 'a' as u32 == c
            as u32 - 'A' as u32 && ascii_upper(ascii_lower(c)) == c,
        'a' <= c <= 'z' ==> 'A' <= ascii_upper(c) <= 'Z' && ascii_lower(ascii_upper(c)) == c,
        !('A' <= c <= 'Z') ==> ascii_lower(c) == c,
        !('a' <= c <= 'z') ==> ascii_upper(c) == c,
{
}

/// Case is changed letter by letter.
pub proof fn law_case_is_changed_letter_by_letter(s: Seq<char>)
    ensures
        ascii_lower_text(s).len() == s.len(),
        ascii_upper_text(s).len() == s.len(),
        forall|i: int| 0 <= i < s.len() ==> #[trigger] ascii_lower_text(s)[i] == ascii_lower(s[i]),
        forall|i: int| 0 <= i < s.len() ==> #[trigger] ascii_upper_text(s)[i] == ascii_upper(s[i]),
{
}

/// The part that is found stands where it is found, and nowhere before; where
/// none is found it stands nowhere.
pub proof fn law_first_part_is_found(s: Seq<char>, p: Seq<char>, from: int)
    requires
        0 <= from,
    ensures
        match part_position(s, p, from) {
            Some(at) => {
                &&& from <= at && at + p.len() <= s.len()
                &&& forall|k: int| 0 <= k < p.len() ==> s[at + k] == #[trigger] p[k]
                &&& forall|i: int|
                    from <= i < at ==> #[trigger] s.subrange(i, i + p.len()) != p
            },
            None => forall|i: int|
                from <= i && i + p.len() <= s.len() ==> #[trigger] s.subrange(i, i + p.len()) != p,
        },
    decreases s.len() + 1 - from,
{
    if from + p.len() <= s.len() {
        if stands_at(s, p, from) {
            assert forall|k: int| 0 <= k < p.len() implies s[from + k] == #[trigger] p[k] by {
                assert(s.subrange(from, from + p.len())[k] == s[from + k]);
            }
        } else {
            law_first_part_is_found(s, p, from + 1);
        }
    }
}

/// Trimming cuts off whitespace at both ends, all of it, and nothing else.
pub proof fn law_trimming_cuts_whitespace(s: Seq<char>) -> (cut: (int, int))
    ensures
        0 <= cut.0 <= cut.1 <= s.len(),
        trimmed(s) == s.subrange(cut.0, cut.1),
        forall|i: int| 0 <= i < cut.0 ==> whitespace(#[trigger] s[i]),
        forall|i: int| cut.1 <= i < s.len() ==> whitespace(#[trigger] s[i]),
        cut.0 < cut.1 ==> !whitespace(s[cut.0]) && !whitespace(s[cut.1 - 1]),
{
    let start = trimmed_start(s);
    let from = law_start_is_trimmed(s);
    let n = law_end_is_trimmed(start);
    assert(trimmed(s) =~= s.subrange(from, from + n));
    assert forall|i: int| from + n <= i < s.len() implies whitespace(#[trigger] s[i]) by {
        assert(start[i - from] == s[i]);
    }
    if n > 0 {
        assert(start[n - 1] == s[from + n - 1]);
        assert(start[0] == s[from]);
    }
    (from, from + n)
}

/// Trimming the start cuts off the whitespace there, all of it, and nothing
/// else.
pub proof fn law_start_is_trimmed(s: Seq<char>) -> (from: int)
    ensures
        0 <= from <= s.len(),
        trimmed_start(s) == s.skip(from),
        forall|i: int| 0 <= i < from ==> whitespace(#[trigger] s[i]),
        from < s.len() ==> !whitespace(s[from]),
    decreases s.len(),
{
    if s.len() > 0 && whitespace(s[0]) {
        let rest = s.skip(1);
        let from = law_start_is_trimmed(rest);
        assert(rest.skip(from) =~= s.skip(from + 1));
        assert forall|i: int| 0 <= i < from + 1 implies whitespace(#[trigger] s[i]) by {
            if i > 0 {
                assert(rest[i - 1] == s[i]);
            }
        }
        if from < rest.len() {
            assert(rest[from] == s[from + 1]);
        }
        from + 1
    } else {
        assert(s.skip(0) =~= s);
        0
    }
}

/// Trimming the end cuts off the whitespace there, all of it, and nothing else.
pub proof fn law_end_is_trimmed(s: Seq<char>) -> (n: int)
    ensures
        0 <= n <= s.len(),
        trimmed_end(s) == s.take(n),
        forall|i: int| n <= i < s.len() ==> whitespace(#[trigger] s[i]),
        n > 0 ==> !whitespace(s[n - 1]),
    decreases s.len(),
{
    if s.len() > 0 && whitespace(s.last()) {
        let front = s.drop_last();
        let n = law_end_is_trimmed(front);
        assert(front.take(n) =~= s.take(n));
        assert forall|i: int| n <= i < s.len() implies whitespace(#[trigger] s[i]) by {
            if i < front.len() {
                assert(front[i] == s[i]);
            }
        }
        n
    } else {
        assert(s.take(s.len() as int) =~= s);
        s.len() as int
    }
}

/// Replacing changes the character that is replaced, wherever it stands, and no
/// other.
pub proof fn law_replacing_changes_one_character(s: Seq<char>, old_char: char, new_char: char)
    ensures
        replaced(s, old_char, new_char).len() == s.len(),
        forall|i: int|
            0 <= i < s.len() && s[i] == old_char ==> #[trigger] replaced(s, old_char, new_char)[i]
                == new_char,
        forall|i: int|
            0 <= i < s.len() && s[i] != old_char ==> #[trigger] replaced(s, old_char, new_char)[i]
                == s[i],
{
}

/// A further digit multiplies a number by ten and adds the digit.
pub proof fn law_digits_count_in_tens(s: Seq<char>, c: char)
    requires
        '0' <= c <= '9',
    ensures
        digits_value(Seq::<char>::empty()) == 0,
        digits_value(s.push(c)) == digits_value(s) * 10 + (c as int - '0' as int),
{
    assert(s.push(c).drop_last() =~= s);
}

/// A number in decimal is made of digits, and they write that number.
pub proof fn law_decimal_writes_the_number(n: nat)
    ensures
        decimal(n).len() > 0,
        forall|i: int| 0 <= i < decimal(n).len() ==> '0' <= #[trigger] decimal(n)[i] <= '9',
        digits_value(decimal(n)) == n,
    decreases n,
{
    if n < 10 {
        assert(decimal(n) =~= Seq::<char>::empty().push(digit(n)));
        law_digits_count_in_tens(Seq::empty(), digit(n));
    } else {
        law_decimal_writes_the_number(n / 10);
        let front = decimal(n / 10);
        law_digits_count_in_tens(front, digit(n % 10));
        assert(decimal(n).drop_last() =~= front);
        assert forall|i: int| 0 <= i < decimal(n).len() implies '0' <= #[trigger] decimal(n)[i]
            <= '9' by {
            if i < front.len() {
                assert(decimal(n)[i] == front[i]);
            }
        }
    }
}

/// A number in decimal begins with a zero only where it is zero, and then has
/// no other digit.
pub proof fn law_decimal_has_no_leading_zero(n: nat)
    ensures
        decimal(n).len() > 0,
        '0' <= decimal(n)[0] <= '9',
        decimal(n)[0] == '0' ==> n == 0 && decimal(n).len() == 1,
    decreases n,
{
    if n >= 10 {
        law_decimal_has_no_leading_zero(n / 10);
        assert(decimal(n)[0] == decimal(n / 10)[0]);
    }
}

/// A number that is written in decimal, with or without a sign, is read back
/// where it is no larger than what can be held.
pub proof fn law_number_is_read_back(n: nat, max: nat)
    ensures
        parsed_unsigned(decimal(n), max) == if n <= max {
            Some(n)
        } else {
            None
        },
        parsed_unsigned(seq!['+'] + decimal(n), max) == if n <= max {
            Some(n)
        } else {
            None
        },
        parsed_i32(decimal(n)) == if n <= i32::MAX {
            Some(n as int)
        } else {
            None
        },
        parsed_i32(seq!['-'] + decimal(n)) == if -(n as int) >= i32::MIN {
            Some(-(n as int))
        } else {
            None
        },
{
    law_decimal_writes_the_number(n);
    let d = decimal(n);
    assert('0' <= d[0] <= '9');
    assert((seq!['+'] + d).skip(1) =~= d);
    assert((seq!['-'] + d).skip(1) =~= d);
    assert((seq!['+'] + d)[0] == '+');
    assert((seq!['-'] + d)[0] == '-');
}

/// A text that holds anything but digits, after a sign, is no number, and
/// neither is one without digits.
pub proof fn law_only_numbers_are_read(s: Seq<char>, max: nat)
    ensures
        (exists|i: int| 0 <= i < s.len() && s[i] != '+' && !('0' <= #[trigger] s[i] <= '9'))
            ==> parsed_unsigned(s, max) is None,
        (exists|i: int| 1 <= i < s.len() && !('0' <= #[trigger] s[i] <= '9')) ==> parsed_unsigned(
            s,
            max,
        ) is None && parsed_i32(s) is None,
        (s.len() == 0 || s == seq!['+'] || s == seq!['-']) ==> parsed_unsigned(s, max) is None
            && parsed_i32(s) is None,
{
    if exists|i: int| 0 <= i < s.len() && s[i] != '+' && !('0' <= #[trigger] s[i] <= '9') {
        let i = choose|i: int|
            0 <= i < s.len() && s[i] != '+' && !('0' <= #[trigger] s[i] <= '9');
        if s[0] == '+' {
            assert(s.skip(1)[i - 1] == s[i]);
        }
    }
    if exists|i: int| 1 <= i < s.len() && !('0' <= #[trigger] s[i] <= '9') {
        let i = choose|i: int| 1 <= i < s.len() && !('0' <= #[trigger] s[i] <= '9');
        assert(s.skip(1)[i - 1] == s[i]);
    }
}

} // verus!
