//! Text as sequences of characters: lines, fields, prefixes and numbers.
use crate::bytes::{hex_digit, hex_digits};
use vstd::prelude::*;
use vstd::slice::slice_subrange;

verus! {

/// `std::string::String::push` appends a character to the end of the text.
pub assume_specification[ String::push ](s: &mut String, c: char)
    ensures
        final(s)@ == old(s)@.push(c),
;

/// How `std` shows a character with `{:?}`: quoted, with escapes.
pub uninterp spec fn char_debug(c: char) -> Seq<char>;

/// How `std` shows a text with `{:?}`: quoted, with escapes.
pub uninterp spec fn str_debug(s: Seq<char>) -> Seq<char>;

/// Formats a character through `std`'s `Debug` for `char`. The result is named, not
/// described: which characters are escaped depends on Unicode tables.
#[verifier::external_body]
pub(crate) fn debug_char(c: char) -> (s: String)
    ensures
        s@ == char_debug(c),
{
    format!("{:?}", c)
}

/// Formats a text through `std`'s `Debug` for `str`. The result is named, not
/// described: which characters are escaped depends on Unicode tables.
#[verifier::external_body]
pub(crate) fn debug_str(t: &str) -> (s: String)
    ensures
        s@ == str_debug(t@),
{
    format!("{:?}", t)
}

/// The characters of a text.
pub fn to_chars(s: &str) -> (chars: Vec<char>)
    ensures
        chars@ == s@,
{
    let mut chars: Vec<char> = Vec::new();
    for c in it: s.chars()
        invariant
            it.seq() == s@,
            chars@ == s@.take(it.index() as int),
    {
        assert(s@.take(it.index() + 1) =~= s@.take(it.index() as int).push(c));
        chars.push(c);
    }
    assert(s@.take(s@.len() as int) =~= s@);
    chars
}

/// The text of some characters.
pub fn to_text(chars: &[char]) -> (s: String)
    ensures
        s@ == chars@,
{
    let mut s = String::new();
    let mut i: usize = 0;
    while i < chars.len()
        invariant
            i <= chars.len(),
            s@ == chars@.take(i as int),
        decreases chars.len() - i,
    {
        s.push(chars[i]);
        assert(chars@.take(i + 1) =~= chars@.take(i as int).push(chars@[i as int]));
        i += 1;
    }
    assert(chars@.take(i as int) =~= chars@);
    s
}

/// The characters with the Unicode property White_Space.
pub open spec fn is_white(c: char) -> bool {
    let x = c as u32;
    ||| 0x09 <= x <= 0x0d
    ||| x == 0x20
    ||| x == 0x85
    ||| x == 0xa0
    ||| x == 0x1680
    ||| 0x2000 <= x <= 0x200a
    ||| x == 0x2028
    ||| x == 0x2029
    ||| x == 0x202f
    ||| x == 0x205f
    ||| x == 0x3000
}

/// Whether a character is white space.
pub fn white(c: char) -> (r: bool)
    ensures
        r == is_white(c),
{
    let x: u32 = c as u32;
    (0x09 <= x && x <= 0x0d) || x == 0x20 || x == 0x85 || x == 0xa0 || x == 0x1680 || (0x2000 <= x
        && x <= 0x200a) || x == 0x2028 || x == 0x2029 || x == 0x202f || x == 0x205f || x == 0x3000
}

/// `s` without the white space at its start.
pub open spec fn trim_start(s: Seq<char>) -> Seq<char>
    decreases s.len(),
{
    if s.len() > 0 && is_white(s[0]) {
        trim_start(s.drop_first())
    } else {
        s
    }
}

/// `s` without the white space at its end.
pub open spec fn trim_end(s: Seq<char>) -> Seq<char>
    decreases s.len(),
{
    if s.len() > 0 && is_white(s.last()) {
        trim_end(s.drop_last())
    } else {
        s
    }
}

/// `s` without the white space at both ends.
pub open spec fn trim(s: Seq<char>) -> Seq<char> {
    trim_end(trim_start(s))
}

/// `s` without the occurrences of `c` at its end.
pub open spec fn trim_end_of(s: Seq<char>, c: char) -> Seq<char>
    decreases s.len(),
{
    if s.len() > 0 && s.last() == c {
        trim_end_of(s.drop_last(), c)
    } else {
        s
    }
}

/// Drops the white space at the start.
pub fn trimmed_start<'a>(s: &'a [char]) -> (t: &'a [char])
    ensures
        t@ == trim_start(s@),
{
    let n: usize = s.len();
    let mut i: usize = 0;
    assert(s@.skip(0) =~= s@);
    while i < n && white(s[i])
        invariant
            i <= n == s@.len(),
            trim_start(s@) == trim_start(s@.skip(i as int)),
        decreases n - i,
    {
        assert(s@.skip(i as int).drop_first() =~= s@.skip(i + 1));
        i += 1;
    }
    assert(s@.subrange(i as int, n as int) =~= s@.skip(i as int));
    slice_subrange(s, i, n)
}

/// Drops the white space at the end.
pub fn trimmed_end<'a>(s: &'a [char]) -> (t: &'a [char])
    ensures
        t@ == trim_end(s@),
{
    let mut n: usize = s.len();
    assert(s@.take(n as int) =~= s@);
    while n > 0 && white(s[n - 1])
        invariant
            n <= s@.len(),
            trim_end(s@) == trim_end(s@.take(n as int)),
        decreases n,
    {
        assert(s@.take(n as int).drop_last() =~= s@.take(n - 1));
        n -= 1;
    }
    assert(s@.subrange(0, n as int) =~= s@.take(n as int));
    slice_subrange(s, 0, n)
}

/// Drops the occurrences of `c` at the end.
pub fn trimmed_end_of<'a>(s: &'a [char], c: char) -> (t: &'a [char])
    ensures
        t@ == trim_end_of(s@, c),
{
    let mut n: usize = s.len();
    assert(s@.take(n as int) =~= s@);
    while n > 0 && s[n - 1] == c
        invariant
            n <= s@.len(),
            trim_end_of(s@, c) == trim_end_of(s@.take(n as int), c),
        decreases n,
    {
        assert(s@.take(n as int).drop_last() =~= s@.take(n - 1));
        n -= 1;
    }
    assert(s@.subrange(0, n as int) =~= s@.take(n as int));
    slice_subrange(s, 0, n)
}

/// Drops the white space at both ends.
pub fn trimmed<'a>(s: &'a [char]) -> (t: &'a [char])
    ensures
        t@ == trim(s@),
{
    trimmed_end(trimmed_start(s))
}

/// `s` begins with `p`.
pub open spec fn begins(s: Seq<char>, p: Seq<char>) -> bool {
    p.len() <= s.len() && s.take(p.len() as int) == p
}

/// Whether two pieces of text are the same.
pub fn same(a: &[char], b: &[char]) -> (r: bool)
    ensures
        r == (a@ == b@),
{
    if a.len() != b.len() {
        return false;
    }
    let mut i: usize = 0;
    while i < a.len()
        invariant
            i <= a.len(),
            a@.len() == b@.len(),
            forall|j: int| 0 <= j < i ==> a@[j] == b@[j],
        decreases a.len() - i,
    {
        if a[i] != b[i] {
            return false;
        }
        i += 1;
    }
    assert(a@ =~= b@);
    true
}

/// Whether a piece of text is the given text.
pub fn is_text(a: &[char], b: &str) -> (r: bool)
    ensures
        r == (a@ == b@),
{
    let chars = to_chars(b);
    same(a, chars.as_slice())
}

/// What follows the prefix `p`, if the text begins with it.
pub open spec fn after_prefix(s: Seq<char>, p: Seq<char>) -> Option<Seq<char>> {
    if begins(s, p) {
        Some(s.skip(p.len() as int))
    } else {
        None
    }
}

/// What follows the prefix `p`, if the text begins with it.
pub fn strip_prefix<'a>(s: &'a [char], p: &str) -> (r: Option<&'a [char]>)
    ensures
        match r {
            Some(t) => after_prefix(s@, p@) == Some(t@),
            None => after_prefix(s@, p@) is None,
        },
{
    let chars = to_chars(p);
    let n: usize = chars.len();
    if s.len() < n {
        return None;
    }
    let head = slice_subrange(s, 0, n);
    assert(head@ =~= s@.take(n as int));
    if same(head, chars.as_slice()) {
        assert(s@.subrange(n as int, s@.len() as int) =~= s@.skip(n as int));
        Some(slice_subrange(s, n, s.len()))
    } else {
        None
    }
}

/// The first place at or after `from` where `p` occurs in `s`.
pub open spec fn find_from(s: Seq<char>, p: Seq<char>, from: nat) -> Option<nat>
    decreases s.len() - from,
{
    if from >= s.len() || from + p.len() > s.len() {
        None
    } else if s.subrange(from as int, (from + p.len()) as int) == p {
        Some(from)
    } else {
        find_from(s, p, from + 1)
    }
}

/// The first place where `p` occurs in `s`.
pub fn find(s: &[char], p: &str) -> (r: Option<usize>)
    requires
        p@.len() > 0,
    ensures
        match r {
            Some(i) => find_from(s@, p@, 0) == Some(i as nat) && i + p@.len() <= s@.len(),
            None => find_from(s@, p@, 0) is None,
        },
{
    let chars = to_chars(p);
    let n: usize = chars.len();
    let len: usize = s.len();
    let mut i: usize = 0;
    while i < len && n <= len - i
        invariant
            n == chars@.len() > 0,
            chars@ == p@,
            len == s@.len(),
            i <= len,
            find_from(s@, p@, 0) == find_from(s@, p@, i as nat),
        decreases len - i,
    {
        if same(slice_subrange(s, i, i + n), chars.as_slice()) {
            return Some(i);
        }
        i += 1;
    }
    None
}

/// The lower-case form of an ASCII letter; other characters stay as they are.
pub open spec fn lower(c: char) -> char {
    if 'A' <= c <= 'Z' {
        (c as u32 + 32) as char
    } else {
        c
    }
}

/// Whether two characters are the same but for ASCII case.
pub open spec fn alike(a: char, b: char) -> bool {
    lower(a) == lower(b)
}

/// Two pieces of text are the same but for ASCII case.
pub open spec fn alike_text(a: Seq<char>, b: Seq<char>) -> bool {
    a.len() == b.len() && forall|i: int| 0 <= i < a.len() ==> alike(#[trigger] a[i], b[i])
}

/// The number that stands for a letter whatever its case.
fn folded(c: char) -> (x: u32)
    ensures
        x == lower(c) as u32,
{
    let x: u32 = c as u32;
    if x >= 65 && x <= 90 {
        x + 32
    } else {
        x
    }
}

/// Whether two pieces of text are the same but for ASCII case.
pub fn alike_texts(a: &[char], b: &[char]) -> (r: bool)
    ensures
        r == alike_text(a@, b@),
{
    if a.len() != b.len() {
        return false;
    }
    let mut i: usize = 0;
    while i < a.len()
        invariant
            i <= a.len(),
            a@.len() == b@.len(),
            forall|j: int| 0 <= j < i ==> alike(#[trigger] a@[j], b@[j]),
        decreases a.len() - i,
    {
        if folded(a[i]) != folded(b[i]) {
            assert(!alike(a@[i as int], b@[i as int]));
            return false;
        }
        i += 1;
    }
    true
}

/// `p` occurs somewhere in `s`, whatever the ASCII case.
pub open spec fn holds_alike(s: Seq<char>, p: Seq<char>) -> bool {
    exists|i: int|
        0 <= i <= s.len() - p.len() && alike_text(#[trigger] s.subrange(i, i + p.len()), p)
}

/// Whether `p` occurs somewhere in `s`, whatever the ASCII case.
pub fn contains_ci(s: &[char], p: &str) -> (r: bool)
    ensures
        r == holds_alike(s@, p@),
{
    let chars = to_chars(p);
    let n: usize = chars.len();
    let len: usize = s.len();
    if len < n {
        return false;
    }
    let mut i: usize = 0;
    while i <= len - n
        invariant
            n == chars@.len(),
            chars@ == p@,
            len == s@.len(),
            n <= len,
            i <= len - n + 1,
            forall|j: int|
                0 <= j < i ==> !alike_text(#[trigger] s@.subrange(j, j + p@.len()), p@),
        decreases len - n + 1 - i,
    {
        if alike_texts(slice_subrange(s, i, i + n), chars.as_slice()) {
            return true;
        }
        if i == len - n {
            assert forall|j: int| 0 <= j <= s@.len() - p@.len() implies !alike_text(
                #[trigger] s@.subrange(j, j + p@.len()),
                p@,
            ) by {}
            return false;
        }
        i += 1;
    }
    false
}

/// The first place at or after `from` where `c` occurs in `s`.
pub open spec fn find_char(s: Seq<char>, c: char, from: nat) -> Option<nat>
    decreases s.len() - from,
{
    if from >= s.len() {
        None
    } else if s[from as int] == c {
        Some(from)
    } else {
        find_char(s, c, from + 1)
    }
}

/// The first place where `c` occurs.
pub fn position(s: &[char], c: char) -> (r: Option<usize>)
    ensures
        match r {
            Some(i) => find_char(s@, c, 0) == Some(i as nat) && i < s@.len() && s@[i as int] == c,
            None => find_char(s@, c, 0) is None && !s@.contains(c),
        },
{
    let mut i: usize = 0;
    while i < s.len()
        invariant
            i <= s@.len(),
            find_char(s@, c, 0) == find_char(s@, c, i as nat),
            forall|j: int| 0 <= j < i ==> s@[j] != c,
        decreases s.len() - i,
    {
        if s[i] == c {
            return Some(i);
        }
        i += 1;
    }
    None
}

/// `s` without a carriage return at its end.
pub open spec fn strip_return(s: Seq<char>) -> Seq<char> {
    if s.len() > 0 && s.last() == '\r' {
        s.drop_last()
    } else {
        s
    }
}

/// The lines of a text from the place `from` on. A line ends before a newline, with
/// or without a carriage return before it, or at the end of the text.
pub open spec fn lines_from(s: Seq<char>, from: nat) -> Seq<Seq<char>>
    decreases s.len() - from,
{
    if from >= s.len() {
        Seq::empty()
    } else {
        match find_char(s, '\n', from) {
            Some(end) => if from <= end < s.len() {
                seq![strip_return(s.subrange(from as int, end as int))] + lines_from(s, end + 1)
            } else {
                Seq::empty()
            },
            None => seq![s.skip(from as int)],
        }
    }
}

proof fn lemma_find_char(s: Seq<char>, c: char, from: nat)
    ensures
        match find_char(s, c, from) {
            Some(i) => from <= i < s.len() && s[i as int] == c && forall|j: int|
                from <= j < i ==> s[j] != c,
            None => forall|j: int| from <= j < s.len() ==> s[j] != c,
        },
    decreases s.len() - from,
{
    if from < s.len() && s[from as int] != c {
        lemma_find_char(s, c, from + 1);
    }
}

/// The contents of a list of pieces of text.
pub open spec fn pieces(v: Seq<&[char]>) -> Seq<Seq<char>> {
    Seq::new(v.len(), |i: int| v[i]@)
}

/// Splits a text into lines.
pub fn lines<'a>(s: &'a [char]) -> (v: Vec<&'a [char]>)
    ensures
        pieces(v@) == lines_from(s@, 0),
        v@.len() <= s@.len(),
{
    let mut v: Vec<&'a [char]> = Vec::new();
    let n: usize = s.len();
    let mut from: usize = 0;
    assert(pieces(v@) + lines_from(s@, 0) =~= lines_from(s@, 0));
    while from < n
        invariant
            n == s@.len(),
            from <= n,
            v@.len() <= from,
            pieces(v@) + lines_from(s@, from as nat) == lines_from(s@, 0),
        decreases n - from,
    {
        let mut end: usize = from;
        while end < n && s[end] != '\n'
            invariant
                from <= end <= n == s@.len(),
                find_char(s@, '\n', from as nat) == find_char(s@, '\n', end as nat),
            decreases n - end,
        {
            end += 1;
        }
        let ghost before = v@;
        if end == n {
            v.push(slice_subrange(s, from, n));
            proof {
                assert(s@.subrange(from as int, n as int) =~= s@.skip(from as int));
                assert(pieces(v@) =~= pieces(before).push(s@.skip(from as int)));
                assert(pieces(v@) =~= pieces(before) + lines_from(s@, from as nat));
            }
            return v;
        }
        let stop: usize = if end > from && s[end - 1] == '\r' {
            end - 1
        } else {
            end
        };
        v.push(slice_subrange(s, from, stop));
        proof {
            let line = strip_return(s@.subrange(from as int, end as int));
            assert(s@.subrange(from as int, stop as int) =~= line);
            assert(pieces(v@) =~= pieces(before).push(line));
            assert(pieces(before) + (seq![line] + lines_from(s@, (end + 1) as nat)) =~= pieces(v@)
                + lines_from(s@, (end + 1) as nat));
        }
        from = end + 1;
    }
    assert(pieces(v@) + lines_from(s@, from as nat) =~= pieces(v@));
    v
}

/// The number of characters before the first white space at or after `from`.
pub open spec fn word_end(s: Seq<char>, from: nat) -> nat
    decreases s.len() - from,
{
    if from < s.len() && !is_white(s[from as int]) {
        word_end(s, from + 1)
    } else {
        from
    }
}

/// The fields of a text from the place `from` on: its runs of characters other than
/// white space.
pub open spec fn fields_from(s: Seq<char>, from: nat) -> Seq<Seq<char>>
    decreases s.len() - from,
{
    if from >= s.len() {
        Seq::empty()
    } else if is_white(s[from as int]) {
        fields_from(s, from + 1)
    } else {
        let end = word_end(s, from);
        if from < end <= s.len() {
            seq![s.subrange(from as int, end as int)] + fields_from(s, end)
        } else {
            Seq::empty()
        }
    }
}

/// Splits a text into fields.
pub fn fields<'a>(s: &'a [char]) -> (v: Vec<&'a [char]>)
    ensures
        pieces(v@) == fields_from(s@, 0),
{
    let mut v: Vec<&'a [char]> = Vec::new();
    let n: usize = s.len();
    let mut from: usize = 0;
    assert(pieces(v@) + fields_from(s@, 0) =~= fields_from(s@, 0));
    while from < n
        invariant
            n == s@.len(),
            from <= n,
            pieces(v@) + fields_from(s@, from as nat) == fields_from(s@, 0),
        decreases n - from,
    {
        if white(s[from]) {
            from += 1;
        } else {
            let mut end: usize = from + 1;
            while end < n && !white(s[end])
                invariant
                    from < end <= n == s@.len(),
                    word_end(s@, from as nat) == word_end(s@, end as nat),
                decreases n - end,
            {
                end += 1;
            }
            let ghost before = v@;
            v.push(slice_subrange(s, from, end));
            proof {
                let word = s@.subrange(from as int, end as int);
                assert(pieces(v@) =~= pieces(before).push(word));
                assert(pieces(before) + (seq![word] + fields_from(s@, end as nat)) =~= pieces(v@)
                    + fields_from(s@, end as nat));
            }
            from = end;
        }
    }
    assert(pieces(v@) + fields_from(s@, from as nat) =~= pieces(v@));
    v
}

/// The value of an ASCII digit.
pub open spec fn digit_value(c: char) -> nat {
    (c as u32 - 48) as nat
}

/// An ASCII digit.
pub open spec fn is_digit(c: char) -> bool {
    '0' <= c <= '9'
}

/// The number that decimal digits denote.
pub open spec fn digits_value(s: Seq<char>) -> nat
    decreases s.len(),
{
    if s.len() == 0 {
        0
    } else {
        digits_value(s.drop_last()) * 10 + digit_value(s.last())
    }
}

/// `s` is one or more ASCII digits.
pub open spec fn all_digits(s: Seq<char>) -> bool {
    s.len() > 0 && forall|i: int| 0 <= i < s.len() ==> is_digit(#[trigger] s[i])
}

/// The number that digits denote, if it does not exceed `max`.
pub open spec fn bounded_value(s: Seq<char>, max: nat) -> Option<nat> {
    if all_digits(s) && digits_value(s) <= max {
        Some(digits_value(s))
    } else {
        None
    }
}

proof fn lemma_digits_prefix(s: Seq<char>, k: int)
    requires
        0 <= k <= s.len(),
    ensures
        digits_value(s.take(k)) <= digits_value(s),
    decreases s.len(),
{
    if k < s.len() {
        lemma_digits_prefix(s.drop_last(), k);
        assert(s.drop_last().take(k) =~= s.take(k));
    } else {
        assert(s.take(k) =~= s);
    }
}

/// The value of a character that is an ASCII digit.
pub fn digit_of(c: char) -> (r: Option<u32>)
    ensures
        r is Some <==> is_digit(c),
        r is Some ==> r->0 == digit_value(c) && r->0 < 10,
{
    let x: u32 = c as u32;
    if x < 48 || x > 57 {
        None
    } else {
        Some(x - 48)
    }
}

/// The number that digits denote, if it does not exceed `max`.
fn bounded(s: &[char], max: u64) -> (r: Option<u64>)
    ensures
        match r {
            Some(x) => bounded_value(s@, max as nat) == Some(x as nat),
            None => bounded_value(s@, max as nat) is None,
        },
{
    if s.len() == 0 {
        return None;
    }
    let mut value: u128 = 0;
    let mut i: usize = 0;
    while i < s.len()
        invariant
            i <= s.len(),
            forall|j: int| 0 <= j < i ==> is_digit(#[trigger] s@[j]),
            value == digits_value(s@.take(i as int)),
            value <= max,
        decreases s.len() - i,
    {
        let d: u32 = match digit_of(s[i]) {
            Some(d) => d,
            None => {
                return None;
            },
        };
        proof {
            assert(s@.take(i + 1).drop_last() =~= s@.take(i as int));
            lemma_digits_prefix(s@, i + 1);
        }
        value = value * 10 + d as u128;
        if value > max as u128 {
            return None;
        }
        i += 1;
    }
    assert(s@.take(i as int) =~= s@);
    Some(value as u64)
}

/// The unsigned number that a text denotes: digits, with or without a plus sign,
/// not above the largest 64-bit number.
pub open spec fn unsigned_value(s: Seq<char>) -> Option<nat> {
    if s.len() > 0 && s[0] == '+' {
        bounded_value(s.skip(1), u64::MAX as nat)
    } else {
        bounded_value(s, u64::MAX as nat)
    }
}

/// Reads an unsigned number.
pub fn parse_unsigned(s: &[char]) -> (r: Option<u64>)
    ensures
        match r {
            Some(x) => unsigned_value(s@) == Some(x as nat),
            None => unsigned_value(s@) is None,
        },
{
    if s.len() > 0 && s[0] == '+' {
        assert(s@.subrange(1, s@.len() as int) =~= s@.skip(1));
        bounded(slice_subrange(s, 1, s.len()), u64::MAX)
    } else {
        bounded(s, u64::MAX)
    }
}

/// The signed number that a text denotes: digits, with or without a sign, within the
/// signed 64-bit numbers.
pub open spec fn signed_value(s: Seq<char>) -> Option<int> {
    if s.len() > 0 && s[0] == '-' {
        match bounded_value(s.skip(1), 0x8000_0000_0000_0000) {
            Some(x) => Some(-(x as int)),
            None => None,
        }
    } else if s.len() > 0 && s[0] == '+' {
        match bounded_value(s.skip(1), 0x7fff_ffff_ffff_ffff) {
            Some(x) => Some(x as int),
            None => None,
        }
    } else {
        match bounded_value(s, 0x7fff_ffff_ffff_ffff) {
            Some(x) => Some(x as int),
            None => None,
        }
    }
}

/// Reads a signed number.
pub fn parse_signed(s: &[char]) -> (r: Option<i64>)
    ensures
        match r {
            Some(x) => signed_value(s@) == Some(x as int),
            None => signed_value(s@) is None,
        },
{
    if s.len() > 0 && (s[0] == '-' || s[0] == '+') {
        assert(s@.subrange(1, s@.len() as int) =~= s@.skip(1));
        let rest = slice_subrange(s, 1, s.len());
        if s[0] == '-' {
            match bounded(rest, 0x8000_0000_0000_0000) {
                Some(x) => Some((0 - (x as i128)) as i64),
                None => None,
            }
        } else {
            match bounded(rest, 0x7fff_ffff_ffff_ffff) {
                Some(x) => Some(x as i64),
                None => None,
            }
        }
    } else {
        match bounded(s, 0x7fff_ffff_ffff_ffff) {
            Some(x) => Some(x as i64),
            None => None,
        }
    }
}

/// The digit for a value below 10.
pub open spec fn digit_char(d: nat) -> char {
    (48 + d) as char
}

/// The decimal digits of a number.
pub open spec fn decimal(n: nat) -> Seq<char>
    decreases n,
{
    if n < 10 {
        seq![digit_char(n)]
    } else {
        decimal(n / 10).push(digit_char(n % 10))
    }
}

/// The decimal text of a signed number.
pub open spec fn signed_decimal(n: int) -> Seq<char> {
    if n < 0 {
        seq!['-'] + decimal((-n) as nat)
    } else {
        decimal(n as nat)
    }
}

/// Appends the decimal digits of a number.
pub fn push_decimal(out: &mut String, n: u64)
    ensures
        final(out)@ == old(out)@ + decimal(n as nat),
    decreases n,
{
    if n >= 10 {
        push_decimal(out, n / 10);
    }
    let d: u8 = (n % 10) as u8;
    out.push((48 + d) as char);
    proof {
        if n >= 10 {
            assert(old(out)@ + decimal((n / 10) as nat) + seq![digit_char((n % 10) as nat)] =~= old(
                out,
            )@ + decimal(n as nat));
        } else {
            assert(old(out)@.push(digit_char(n as nat)) =~= old(out)@ + decimal(n as nat));
        }
    }
}

/// Appends the decimal text of a signed number.
pub fn push_signed(out: &mut String, n: i64)
    ensures
        final(out)@ == old(out)@ + signed_decimal(n as int),
{
    if n < 0 {
        out.push('-');
        push_decimal(out, (0 - (n as i128)) as u64);
        assert(old(out)@.push('-') + decimal((-n) as nat) =~= old(out)@ + (seq!['-'] + decimal(
            (-n) as nat,
        )));
    } else {
        push_decimal(out, n as u64);
    }
}

/// The decimal text of a number.
pub fn decimal_text(n: u64) -> (s: String)
    ensures
        s@ == decimal(n as nat),
{
    let mut s = String::new();
    push_decimal(&mut s, n);
    assert(Seq::<char>::empty() + decimal(n as nat) =~= decimal(n as nat));
    s
}

/// The digit for a value below 16.
fn hex_char(d: u8) -> (c: char)
    requires
        d < 16,
    ensures
        c == hex_digit(d as nat),
{
    if d < 10 {
        (48 + d) as char
    } else {
        (87 + d) as char
    }
}

/// Appends the two hexadecimal digits of a byte.
pub fn push_hex_byte(out: &mut String, x: u8)
    ensures
        final(out)@ == old(out)@ + hex_digits(x as nat, 2),
{
    out.push(hex_char(x / 16));
    out.push(hex_char(x % 16));
    proof {
        reveal_with_fuel(hex_digits, 3);
        assert(out@ =~= old(out)@ + hex_digits(x as nat, 2));
    }
}

/// A copy of a literal text.
pub fn text(s: &str) -> (t: String)
    ensures
        t@ == s@,
{
    s.to_owned()
}

/// `a` comes before `b` in the order of their characters.
pub open spec fn text_before(a: Seq<char>, b: Seq<char>) -> bool
    decreases a.len(),
{
    if b.len() == 0 {
        false
    } else if a.len() == 0 {
        true
    } else if a[0] != b[0] {
        a[0] < b[0]
    } else {
        text_before(a.drop_first(), b.drop_first())
    }
}

/// Of two texts that differ, one comes before the other.
pub proof fn lemma_text_before_total(a: Seq<char>, b: Seq<char>)
    ensures
        a == b || text_before(a, b) || text_before(b, a),
        !(text_before(a, b) && text_before(b, a)),
        a == b ==> !text_before(a, b),
    decreases a.len(),
{
    if a.len() == 0 || b.len() == 0 {
        if a.len() == 0 && b.len() == 0 {
            assert(a =~= b);
        }
    } else {
        lemma_text_before_total(a.drop_first(), b.drop_first());
        if a[0] == b[0] && a.drop_first() == b.drop_first() {
            assert(a =~= seq![a[0]] + a.drop_first());
            assert(b =~= seq![b[0]] + b.drop_first());
        }
    }
}

/// A text that comes before one comes before all behind that one.
pub proof fn lemma_text_before_transitive(a: Seq<char>, b: Seq<char>, c: Seq<char>)
    requires
        text_before(a, b),
        text_before(b, c),
    ensures
        text_before(a, c),
    decreases a.len(),
{
    if a.len() > 0 && a[0] == b[0] && b[0] == c[0] {
        lemma_text_before_transitive(a.drop_first(), b.drop_first(), c.drop_first());
    }
}

/// Whether `a` comes before `b`.
fn char_before(a: char, b: char) -> (r: bool)
    ensures
        r == (a < b),
{
    (a as u32) < (b as u32)
}

/// Whether `a` comes before `b` in the order of their characters.
pub fn comes_before(a: &[char], b: &[char]) -> (r: bool)
    ensures
        r == text_before(a@, b@),
{
    let mut i: usize = 0;
    assert(a@.skip(0) =~= a@);
    assert(b@.skip(0) =~= b@);
    while i < a.len() && i < b.len()
        invariant
            i <= a.len(),
            i <= b.len(),
            text_before(a@, b@) == text_before(a@.skip(i as int), b@.skip(i as int)),
        decreases a.len() - i,
    {
        let x: char = a[i];
        let y: char = b[i];
        proof {
            assert(a@.skip(i as int)[0] == a@[i as int]);
            assert(b@.skip(i as int)[0] == b@[i as int]);
            assert(a@.skip(i as int).drop_first() =~= a@.skip(i + 1));
            assert(b@.skip(i as int).drop_first() =~= b@.skip(i + 1));
        }
        if x != y {
            return char_before(x, y);
        }
        i += 1;
    }
    i < b.len()
}

/// A copy of some characters.
pub fn copied(chars: &[char]) -> (copy: Vec<char>)
    ensures
        copy@ == chars@,
{
    let mut copy: Vec<char> = Vec::new();
    let mut i: usize = 0;
    while i < chars.len()
        invariant
            i <= chars.len(),
            copy@ == chars@.take(i as int),
        decreases chars.len() - i,
    {
        copy.push(chars[i]);
        assert(chars@.take(i + 1) =~= chars@.take(i as int).push(chars@[i as int]));
        i += 1;
    }
    assert(chars@.take(i as int) =~= chars@);
    copy
}

/// The decimal text of a number reads back as the number.
pub proof fn law_decimal_reads_back(n: u64)
    ensures
        unsigned_value(decimal(n as nat)) == Some(n as nat),
{
    lemma_decimal(n as nat);
    let s = decimal(n as nat);
    assert(is_digit(s[0]));
}

/// The decimal text of a number is digits with its value.
pub proof fn lemma_decimal(n: nat)
    ensures
        all_digits(decimal(n)),
        digits_value(decimal(n)) == n,
    decreases n,
{
    if n < 10 {
        let s = decimal(n);
        assert(s.drop_last() =~= Seq::<char>::empty());
        assert(digits_value(s.drop_last()) == 0);
        assert(s.last() == digit_char(n));
    } else {
        lemma_decimal(n / 10);
        let s = decimal(n);
        assert(s.drop_last() =~= decimal(n / 10));
    }
}

} // verus!
