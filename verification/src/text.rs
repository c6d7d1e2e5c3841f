//! Text as sequences of characters: searching, trimming, splitting, and the
//! reading and writing of decimal numbers.

use vstd::prelude::*;
use vstd::slice::slice_subrange;
use vstd::string::*;
use vstd::utf8;

verus! {

/// `String::push` appends one character at the end.
pub assume_specification[ String::push ](s: &mut String, ch: char)
    ensures
        final(s)@ == old(s)@.push(ch),
;

// ---------------------------------------------------------------------------
// Searching
// ---------------------------------------------------------------------------

/// Index of the first character of `s` that satisfies `p`, or `s.len()`.
pub open spec fn first_where(s: Seq<char>, p: spec_fn(char) -> bool) -> int
    decreases s.len(),
{
    if s.len() == 0 {
        0
    } else if p(s[0]) {
        0
    } else {
        1 + first_where(s.skip(1), p)
    }
}

/// One past the index of the last character of `s` that satisfies `p`, or 0.
pub open spec fn last_where(s: Seq<char>, p: spec_fn(char) -> bool) -> int
    decreases s.len(),
{
    if s.len() == 0 {
        0
    } else if p(s.last()) {
        s.len() as int
    } else {
        last_where(s.drop_last(), p)
    }
}

/// `first_where` is the only index that has no hit before it and is a hit
/// itself or the end.
pub proof fn lemma_first_where(s: Seq<char>, p: spec_fn(char) -> bool, i: int)
    requires
        0 <= i <= s.len(),
        forall|j: int| 0 <= j < i ==> !p(#[trigger] s[j]),
        i < s.len() ==> p(s[i]),
    ensures
        first_where(s, p) == i,
    decreases s.len(),
{
    if s.len() > 0 && i > 0 {
        assert(!p(s[0]));
        assert forall|j: int| 0 <= j < i - 1 implies !p(#[trigger] s.skip(1)[j]) by {
            assert(s.skip(1)[j] == s[j + 1]);
        }
        lemma_first_where(s.skip(1), p, i - 1);
    }
}

/// What `first_where` returns: an index with no hit before it, which is a hit
/// itself or the end.
pub proof fn lemma_first_where_props(s: Seq<char>, p: spec_fn(char) -> bool)
    ensures
        0 <= first_where(s, p) <= s.len(),
        forall|j: int| 0 <= j < first_where(s, p) ==> !p(#[trigger] s[j]),
        first_where(s, p) < s.len() ==> p(s[first_where(s, p)]),
    decreases s.len(),
{
    if s.len() > 0 && !p(s[0]) {
        lemma_first_where_props(s.skip(1), p);
        assert forall|j: int| 0 <= j < first_where(s, p) implies !p(#[trigger] s[j]) by {
            if j > 0 {
                assert(s.skip(1)[j - 1] == s[j]);
            }
        }
    }
}

/// `last_where` is the only length after which there is no hit and which ends
/// in a hit or is 0.
pub proof fn lemma_last_where(s: Seq<char>, p: spec_fn(char) -> bool, n: int)
    requires
        0 <= n <= s.len(),
        forall|j: int| n <= j < s.len() ==> !p(#[trigger] s[j]),
        n > 0 ==> p(s[n - 1]),
    ensures
        last_where(s, p) == n,
    decreases s.len(),
{
    if s.len() > n {
        assert(!p(s[s.len() - 1]));
        assert forall|j: int| n <= j < s.len() - 1 implies !p(#[trigger] s.drop_last()[j]) by {
            assert(s.drop_last()[j] == s[j]);
        }
        lemma_last_where(s.drop_last(), p, n);
    }
}

/// The predicate "is the character `c`".
pub open spec fn is_char(c: char) -> spec_fn(char) -> bool {
    |x: char| x == c
}

/// Unicode's White_Space property.
pub open spec fn is_space(c: char) -> bool {
    let n = c as u32;
    ||| 0x09 <= n <= 0x0d
    ||| n == 0x20
    ||| n == 0x85
    ||| n == 0xa0
    ||| n == 0x1680
    ||| 0x2000 <= n <= 0x200a
    ||| n == 0x2028
    ||| n == 0x2029
    ||| n == 0x202f
    ||| n == 0x205f
    ||| n == 0x3000
}

/// The predicate "is white space".
pub open spec fn space() -> spec_fn(char) -> bool {
    |c: char| is_space(c)
}

/// The predicate "is not white space".
pub open spec fn non_space() -> spec_fn(char) -> bool {
    |c: char| !is_space(c)
}

/// Whether `c` is white space, as `char::is_whitespace` has it.
pub fn is_whitespace(c: char) -> (r: bool)
    ensures
        r == is_space(c),
{
    let n: u32 = c as u32;
    (0x09 <= n && n <= 0x0d) || n == 0x20 || n == 0x85 || n == 0xa0 || n == 0x1680 || (0x2000 <= n
        && n <= 0x200a) || n == 0x2028 || n == 0x2029 || n == 0x202f || n == 0x205f || n == 0x3000
}

/// The characters of a string.
pub fn chars_of(s: &str) -> (r: Vec<char>)
    ensures
        r@ == s@,
{
    let mut v: Vec<char> = Vec::new();
    for c in it: s.chars()
        invariant
            v@ == it.seq().take(it.index()),
            it.seq() == s@,
    {
        assert(it.seq().take(it.index() + 1) =~= it.seq().take(it.index()).push(c));
        v.push(c);
    }
    assert(s@.take(s@.len() as int) =~= s@);
    v
}

/// Appends characters to a string.
pub fn push_chars(out: &mut String, s: &[char])
    ensures
        final(out)@ == old(out)@ + s@,
{
    let mut i: usize = 0;
    assert(out@ =~= out@ + s@.take(0));
    while i < s.len()
        invariant
            i <= s@.len(),
            out@ == old(out)@ + s@.take(i as int),
        decreases s@.len() - i,
    {
        assert(s@.take(i + 1) =~= s@.take(i as int).push(s@[i as int]));
        out.push(s[i]);
        i = i + 1;
    }
    assert(s@.take(s@.len() as int) =~= s@);
}

/// The string made of the characters `s`.
pub fn string_of(s: &[char]) -> (r: String)
    ensures
        r@ == s@,
{
    let mut out = String::new();
    push_chars(&mut out, s);
    assert(Seq::<char>::empty() + s@ =~= s@);
    out
}

/// The text `before`, `s`, `after` in one string.
pub fn enclose(before: &str, s: &[char], after: &str) -> (r: String)
    ensures
        r@ == before@ + s@ + after@,
{
    let mut out = before.to_owned();
    push_chars(&mut out, s);
    out.append(after);
    out
}

/// The text `before`, `s`, `after` in one string.
pub fn surround(before: &str, s: &str, after: &str) -> (r: String)
    ensures
        r@ == before@ + s@ + after@,
{
    let mut out = before.to_owned();
    out.append(s);
    out.append(after);
    out
}

/// Index of the first `c` in `s`, or the length.
pub fn find_char(s: &[char], c: char) -> (r: usize)
    ensures
        r == first_where(s@, is_char(c)),
        r <= s@.len(),
{
    let mut i: usize = 0;
    while i < s.len() && s[i] != c
        invariant
            i <= s@.len(),
            forall|j: int| 0 <= j < i ==> !is_char(c)(#[trigger] s@[j]),
        decreases s@.len() - i,
    {
        i = i + 1;
    }
    proof {
        lemma_first_where(s@, is_char(c), i as int);
    }
    i
}

/// Index of the first white-space character in `s`, or the length.
pub fn find_space(s: &[char]) -> (r: usize)
    ensures
        r == first_where(s@, space()),
        r <= s@.len(),
{
    let mut i: usize = 0;
    while i < s.len() && !is_whitespace(s[i])
        invariant
            i <= s@.len(),
            forall|j: int| 0 <= j < i ==> !space()(#[trigger] s@[j]),
        decreases s@.len() - i,
    {
        i = i + 1;
    }
    proof {
        lemma_first_where(s@, space(), i as int);
    }
    i
}

// ---------------------------------------------------------------------------
// Trimming
// ---------------------------------------------------------------------------

/// `s` without its leading white space.
pub open spec fn trim_start_of(s: Seq<char>) -> Seq<char> {
    s.skip(first_where(s, non_space()))
}

/// `s` without its trailing white space.
pub open spec fn trim_end_of(s: Seq<char>) -> Seq<char> {
    s.take(last_where(s, non_space()))
}

/// `s` without leading and trailing white space.
pub open spec fn trim_of(s: Seq<char>) -> Seq<char> {
    trim_end_of(trim_start_of(s))
}

/// `s` without its leading white space.
pub fn trim_start(s: &[char]) -> (r: &[char])
    ensures
        r@ == trim_start_of(s@),
{
    let mut i: usize = 0;
    while i < s.len() && is_whitespace(s[i])
        invariant
            i <= s@.len(),
            forall|j: int| 0 <= j < i ==> !non_space()(#[trigger] s@[j]),
        decreases s@.len() - i,
    {
        i = i + 1;
    }
    proof {
        lemma_first_where(s@, non_space(), i as int);
    }
    slice_subrange(s, i, s.len())
}

/// `s` without its trailing white space.
pub fn trim_end(s: &[char]) -> (r: &[char])
    ensures
        r@ == trim_end_of(s@),
{
    let mut n: usize = s.len();
    while n > 0 && is_whitespace(s[n - 1])
        invariant
            n <= s@.len(),
            forall|j: int| n <= j < s@.len() ==> !non_space()(#[trigger] s@[j]),
        decreases n,
    {
        n = n - 1;
    }
    proof {
        lemma_last_where(s@, non_space(), n as int);
    }
    slice_subrange(s, 0, n)
}

/// `s` without leading and trailing white space.
pub fn trim(s: &[char]) -> (r: &[char])
    ensures
        r@ == trim_of(s@),
{
    trim_end(trim_start(s))
}

// ---------------------------------------------------------------------------
// Comparing
// ---------------------------------------------------------------------------

/// Whether two character sequences are the same.
pub fn chars_eq(a: &[char], b: &[char]) -> (r: bool)
    ensures
        r == (a@ == b@),
{
    if a.len() != b.len() {
        return false;
    }
    let mut i: usize = 0;
    while i < a.len()
        invariant
            i <= a@.len(),
            a@.len() == b@.len(),
            forall|j: int| 0 <= j < i ==> a@[j] == b@[j],
        decreases a@.len() - i,
    {
        if a[i] != b[i] {
            return false;
        }
        i = i + 1;
    }
    assert(a@ =~= b@);
    true
}

/// Whether `s` is the text `lit`.
pub fn is_text(s: &[char], lit: &str) -> (r: bool)
    ensures
        r == (s@ == lit@),
{
    let l = chars_of(lit);
    chars_eq(s, l.as_slice())
}

/// Whether two strings hold the same text.
pub fn str_eq(a: &str, b: &str) -> (r: bool)
    ensures
        r == (a@ == b@),
{
    let x = chars_of(a);
    is_text(x.as_slice(), b)
}

/// `s` without the prefix `lit`, where it starts with it.
pub open spec fn strip_prefix_of(s: Seq<char>, lit: Seq<char>) -> Option<Seq<char>> {
    if lit.len() <= s.len() && s.take(lit.len() as int) == lit {
        Some(s.skip(lit.len() as int))
    } else {
        None
    }
}

/// `s` without the prefix `lit`, where it starts with it.
pub fn strip_prefix<'a>(s: &'a [char], lit: &str) -> (r: Option<&'a [char]>)
    ensures
        match r {
            Some(rest) => strip_prefix_of(s@, lit@) == Some(rest@),
            None => strip_prefix_of(s@, lit@) is None,
        },
{
    let l = chars_of(lit);
    if l.len() > s.len() {
        return None;
    }
    let n = l.len();
    if chars_eq(slice_subrange(s, 0, n), l.as_slice()) {
        Some(slice_subrange(s, n, s.len()))
    } else {
        None
    }
}

// ---------------------------------------------------------------------------
// Splitting
// ---------------------------------------------------------------------------

/// What stands before and after the first `c` in `s`.
pub open spec fn split_once_of(s: Seq<char>, c: char) -> Option<(Seq<char>, Seq<char>)> {
    let i = first_where(s, is_char(c));
    if i < s.len() {
        Some((s.take(i), s.skip(i + 1)))
    } else {
        None
    }
}

/// The pieces of `s` between the occurrences of `c`; at least one.
pub open spec fn split_of(s: Seq<char>, c: char) -> Seq<Seq<char>>
    decreases s.len(),
{
    let i = first_where(s, is_char(c));
    if 0 <= i < s.len() {
        seq![s.take(i)] + split_of(s.skip(i + 1), c)
    } else {
        seq![s]
    }
}

/// The maximal runs of `s` without white space.
pub open spec fn words_of(s: Seq<char>) -> Seq<Seq<char>>
    decreases s.len(),
{
    let t = trim_start_of(s);
    let e = first_where(t, space());
    if 0 < e <= t.len() && t.len() <= s.len() {
        seq![t.take(e)] + words_of(t.skip(e))
    } else {
        seq![]
    }
}

/// `s` without a carriage return at its end.
pub open spec fn strip_cr_of(s: Seq<char>) -> Seq<char> {
    if s.len() > 0 && s.last() == '\r' {
        s.drop_last()
    } else {
        s
    }
}

/// The lines of `s`, each without its line end (`\n` or `\r\n`). The end of
/// the last line may be missing.
pub open spec fn lines_of(s: Seq<char>) -> Seq<Seq<char>>
    decreases s.len(),
{
    let i = first_where(s, is_char('\n'));
    if s.len() == 0 {
        seq![]
    } else if 0 <= i < s.len() {
        seq![strip_cr_of(s.take(i))] + lines_of(s.skip(i + 1))
    } else {
        seq![s]
    }
}

/// The texts that a list of slices holds.
pub open spec fn texts(v: Seq<&[char]>) -> Seq<Seq<char>> {
    v.map_values(|x: &[char]| x@)
}

/// The texts that a list of strings holds.
pub open spec fn strings(v: Seq<String>) -> Seq<Seq<char>> {
    v.map_values(|x: String| x@)
}

/// What stands before and after the first `c` in `s`.
pub fn split_once<'a>(s: &'a [char], c: char) -> (r: Option<(&'a [char], &'a [char])>)
    ensures
        match r {
            Some(p) => split_once_of(s@, c) == Some((p.0@, p.1@)),
            None => split_once_of(s@, c) is None,
        },
{
    let i = find_char(s, c);
    if i < s.len() {
        Some((slice_subrange(s, 0, i), slice_subrange(s, i + 1, s.len())))
    } else {
        None
    }
}

/// The pieces of `s` between the occurrences of `c`; at least one.
pub fn split(s: &[char], c: char) -> (r: Vec<&[char]>)
    ensures
        texts(r@) == split_of(s@, c),
{
    let mut out: Vec<&[char]> = Vec::new();
    let mut rest: &[char] = s;
    assert(texts(out@) + split_of(rest@, c) =~= split_of(s@, c));
    loop
        invariant
            texts(out@) + split_of(rest@, c) == split_of(s@, c),
        decreases rest@.len(),
    {
        let i = find_char(rest, c);
        let ghost before = texts(out@);
        if i < rest.len() {
            let ghost old_rest = rest@;
            out.push(slice_subrange(rest, 0, i));
            rest = slice_subrange(rest, i + 1, rest.len());
            assert(texts(out@) =~= before.push(old_rest.take(i as int)));
            assert(texts(out@) + split_of(rest@, c) =~= before + split_of(old_rest, c));
        } else {
            out.push(rest);
            assert(texts(out@) =~= before + seq![rest@]);
            return out;
        }
    }
}

/// The maximal runs of `s` without white space.
pub fn words(s: &[char]) -> (r: Vec<&[char]>)
    ensures
        texts(r@) == words_of(s@),
{
    let mut out: Vec<&[char]> = Vec::new();
    let mut rest: &[char] = s;
    assert(texts(out@) + words_of(rest@) =~= words_of(s@));
    loop
        invariant
            texts(out@) + words_of(rest@) == words_of(s@),
        decreases rest@.len(),
    {
        let t = trim_start(rest);
        let e = find_space(t);
        let ghost before = texts(out@);
        proof {
            lemma_first_where_props(rest@, non_space());
        }
        if e > 0 {
            let ghost old_rest = rest@;
            out.push(slice_subrange(t, 0, e));
            rest = slice_subrange(t, e, t.len());
            assert(texts(out@) =~= before.push(t@.take(e as int)));
            assert(texts(out@) + words_of(rest@) =~= before + words_of(old_rest));
        } else {
            assert(words_of(rest@) =~= seq![]);
            assert(texts(out@) =~= words_of(s@));
            return out;
        }
    }
}

/// The lines of `s`, each without its line end (`\n` or `\r\n`).
pub fn lines(s: &[char]) -> (r: Vec<&[char]>)
    ensures
        texts(r@) == lines_of(s@),
{
    let mut out: Vec<&[char]> = Vec::new();
    let mut rest: &[char] = s;
    assert(texts(out@) + lines_of(rest@) =~= lines_of(s@));
    while rest.len() > 0
        invariant
            texts(out@) + lines_of(rest@) == lines_of(s@),
        decreases rest@.len(),
    {
        let i = find_char(rest, '\n');
        let ghost before = texts(out@);
        if i < rest.len() {
            let ghost old_rest = rest@;
            if i > 0 && rest[i - 1] == '\r' {
                out.push(slice_subrange(rest, 0, i - 1));
                assert(old_rest.take(i as int).drop_last() =~= old_rest.take(i - 1));
            } else {
                out.push(slice_subrange(rest, 0, i));
            }
            rest = slice_subrange(rest, i + 1, rest.len());
            assert(texts(out@) =~= before.push(strip_cr_of(old_rest.take(i as int))));
            assert(texts(out@) + lines_of(rest@) =~= before + lines_of(old_rest));
        } else {
            out.push(rest);
            assert(texts(out@) =~= before + seq![rest@]);
            return out;
        }
    }
    assert(texts(out@) + lines_of(rest@) =~= texts(out@));
    out
}

// ---------------------------------------------------------------------------
// Paths
// ---------------------------------------------------------------------------

/// The path of `name` in the directory `dir`; an absolute `name` stands alone.
pub open spec fn joined(dir: Seq<char>, name: Seq<char>) -> Seq<char> {
    if name.len() > 0 && name[0] == '/' {
        name
    } else if dir.len() == 0 || dir.last() == '/' {
        dir + name
    } else {
        dir + seq!['/'] + name
    }
}

/// The path of `name` in the directory `dir`.
pub fn join_path(dir: &str, name: &str) -> (r: String)
    ensures
        r@ == joined(dir@, name@),
{
    let d = chars_of(dir);
    let n = chars_of(name);
    if n.len() > 0 && n[0] == '/' {
        return name.to_owned();
    }
    let mut out = dir.to_owned();
    if d.len() > 0 && d[d.len() - 1] != '/' {
        out.push('/');
    }
    out.append(name);
    assert(out@ =~= joined(dir@, name@));
    out
}

// ---------------------------------------------------------------------------
// Letters and digits
// ---------------------------------------------------------------------------

/// ASCII digits.
pub open spec fn is_digit(c: char) -> bool {
    '0' <= c <= '9'
}

/// ASCII letters and digits.
pub open spec fn is_alnum(c: char) -> bool {
    is_digit(c) || 'a' <= c <= 'z' || 'A' <= c <= 'Z'
}

/// The lower-case form of an ASCII letter; any other character itself.
pub open spec fn lower_char(c: char) -> char {
    if 'A' <= c <= 'Z' {
        (c as u32 + 32) as char
    } else {
        c
    }
}

/// `s` with its ASCII letters in lower case.
pub open spec fn lower_of(s: Seq<char>) -> Seq<char> {
    s.map_values(|c: char| lower_char(c))
}

/// Whether `c` is an ASCII digit.
pub fn is_ascii_digit(c: char) -> (r: bool)
    ensures
        r == is_digit(c),
{
    '0' <= c && c <= '9'
}

/// Whether `c` is an ASCII letter or digit.
pub fn is_ascii_alnum(c: char) -> (r: bool)
    ensures
        r == is_alnum(c),
{
    is_ascii_digit(c) || ('a' <= c && c <= 'z') || ('A' <= c && c <= 'Z')
}

/// `s` with its ASCII letters in lower case.
pub fn to_lower(s: &[char]) -> (r: Vec<char>)
    ensures
        r@ == lower_of(s@),
{
    let mut out: Vec<char> = Vec::new();
    let mut i: usize = 0;
    while i < s.len()
        invariant
            i <= s@.len(),
            out@ == lower_of(s@.take(i as int)),
        decreases s@.len() - i,
    {
        let c = s[i];
        let d = if 'A' <= c && c <= 'Z' {
            (c as u8 + 32) as char
        } else {
            c
        };
        out.push(d);
        assert(out@ =~= lower_of(s@.take(i + 1)));
        i = i + 1;
    }
    assert(s@.take(s@.len() as int) =~= s@);
    out
}

// ---------------------------------------------------------------------------
// Decimal numbers
// ---------------------------------------------------------------------------

/// Whether every character of `s` is an ASCII digit.
pub open spec fn all_digits(s: Seq<char>) -> bool {
    forall|i: int| 0 <= i < s.len() ==> is_digit(#[trigger] s[i])
}

/// The number that a row of digits denotes.
pub open spec fn digits_value(s: Seq<char>) -> nat
    decreases s.len(),
{
    if s.len() == 0 {
        0
    } else {
        digits_value(s.drop_last()) * 10 + (s.last() as nat - '0' as nat) as nat
    }
}

/// The digits of a number text: what follows an optional `+`.
pub open spec fn unsigned_digits(s: Seq<char>) -> Seq<char> {
    if s.len() > 0 && s[0] == '+' {
        s.skip(1)
    } else {
        s
    }
}

/// The number that `s` denotes: an optional `+` and at least one digit, of a
/// value up to `max`.
pub open spec fn unsigned_of(s: Seq<char>, max: nat) -> Option<nat> {
    let d = unsigned_digits(s);
    if d.len() > 0 && all_digits(d) && digits_value(d) <= max {
        Some(digits_value(d))
    } else {
        None
    }
}

/// The decimal text of a number.
pub open spec fn decimal(n: nat) -> Seq<char>
    decreases n,
{
    if n < 10 {
        seq![('0' as u32 + n) as char]
    } else {
        decimal(n / 10).push(('0' as u32 + n % 10) as char)
    }
}

/// The decimal text of an integer, with a leading `-` where it is negative.
pub open spec fn signed_decimal(n: int) -> Seq<char> {
    if n < 0 {
        seq!['-'] + decimal((-n) as nat)
    } else {
        decimal(n as nat)
    }
}

proof fn lemma_digits_value_prefix(s: Seq<char>, i: int)
    requires
        0 <= i <= s.len(),
        all_digits(s),
    ensures
        digits_value(s.take(i)) <= digits_value(s),
    decreases s.len() - i,
{
    if i < s.len() {
        lemma_digits_value_prefix(s, i + 1);
        assert(s.take(i + 1).drop_last() =~= s.take(i));
        assert(is_digit(s[i]));
    } else {
        assert(s.take(i) =~= s);
    }
}

/// The number that `s` denotes, where it is one of at most `max`.
pub fn parse_unsigned(s: &[char], max: u64) -> (r: Option<u64>)
    ensures
        match r {
            Some(n) => unsigned_of(s@, max as nat) == Some(n as nat),
            None => unsigned_of(s@, max as nat) is None,
        },
{
    let start: usize = if s.len() > 0 && s[0] == '+' { 1 } else { 0 };
    let d = slice_subrange(s, start, s.len());
    assert(d@ =~= unsigned_digits(s@));
    if d.len() == 0 {
        return None;
    }
    let mut i: usize = 0;
    while i < d.len()
        invariant
            i <= d@.len(),
            forall|j: int| 0 <= j < i ==> is_digit(#[trigger] d@[j]),
            d@ == unsigned_digits(s@),
        decreases d@.len() - i,
    {
        if !is_ascii_digit(d[i]) {
            return None;
        }
        i = i + 1;
    }
    let mut n: u64 = 0;
    let mut k: usize = 0;
    while k < d.len()
        invariant
            k <= d@.len(),
            all_digits(d@),
            n == digits_value(d@.take(k as int)),
            n <= max,
            d@ == unsigned_digits(s@),
        decreases d@.len() - k,
    {
        assert(is_digit(d@[k as int]));
        let v: u64 = (d[k] as u32 - '0' as u32) as u64;
        assert(d@.take(k + 1).drop_last() =~= d@.take(k as int));
        proof {
            lemma_digits_value_prefix(d@, k + 1);
        }
        if n > max / 10 || v > max - n * 10 {
            return None;
        }
        n = n * 10 + v;
        k = k + 1;
    }
    assert(d@.take(d@.len() as int) =~= d@);
    Some(n)
}

/// The character of a decimal digit.
fn digit_char(d: u64) -> (r: char)
    requires
        d < 10,
    ensures
        r == ('0' as u32 + d) as char,
{
    (48 + d as u8) as char
}

/// Appends the decimal text of `n`.
pub fn push_decimal(out: &mut String, n: u64)
    ensures
        final(out)@ == old(out)@ + decimal(n as nat),
    decreases n,
{
    if n < 10 {
        out.push(digit_char(n));
        assert(out@ =~= old(out)@ + decimal(n as nat));
    } else {
        push_decimal(out, n / 10);
        out.push(digit_char(n % 10));
        assert(out@ =~= old(out)@ + decimal(n as nat));
    }
}

/// Appends the decimal text of `n`.
pub fn push_signed(out: &mut String, n: i64)
    ensures
        final(out)@ == old(out)@ + signed_decimal(n as int),
{
    if n < 0 {
        out.push('-');
        let m: u64 = (-(n as i128)) as u64;
        push_decimal(out, m);
        assert(out@ =~= old(out)@ + signed_decimal(n as int));
    } else {
        push_decimal(out, n as u64);
    }
}

// ---------------------------------------------------------------------------
// Bytes and widths
// ---------------------------------------------------------------------------

/// The number of bytes of `s` in UTF-8.
pub open spec fn byte_len(s: Seq<char>) -> nat {
    utf8::encode_utf8(s).len()
}

/// The longest end of `s` that has at most `max` bytes.
pub open spec fn end_within(s: Seq<char>, max: nat) -> Seq<char>
    decreases s.len(),
{
    if s.len() == 0 || byte_len(s) <= max {
        s
    } else {
        end_within(s.skip(1), max)
    }
}

/// The last `n` characters of `s`, or all of them.
pub open spec fn last_chars(s: Seq<char>, n: nat) -> Seq<char> {
    if s.len() > n {
        s.skip(s.len() - n)
    } else {
        s
    }
}

/// `s` followed by spaces up to `width` characters.
pub open spec fn pad_right_of(s: Seq<char>, width: nat) -> Seq<char> {
    if s.len() < width {
        s + Seq::new((width - s.len()) as nat, |i: int| ' ')
    } else {
        s
    }
}

/// `s` after spaces up to `width` characters.
pub open spec fn pad_left_of(s: Seq<char>, width: nat) -> Seq<char> {
    if s.len() < width {
        Seq::new((width - s.len()) as nat, |i: int| ' ') + s
    } else {
        s
    }
}

/// The number of bytes of `s` in UTF-8.
pub fn count_bytes(s: &str) -> (r: usize)
    ensures
        r == byte_len(s@),
{
    s.as_bytes().len()
}

/// The number of bytes of a character in UTF-8.
fn char_width(c: char) -> (r: usize)
    ensures
        r == utf8::encode_scalar(c as u32).len(),
        1 <= r <= 4,
{
    let n: u32 = c as u32;
    if n <= 0x7f {
        1
    } else if n <= 0x7ff {
        2
    } else if n <= 0xffff {
        3
    } else {
        4
    }
}

proof fn lemma_byte_len_skip(s: Seq<char>, i: int)
    requires
        0 <= i < s.len(),
    ensures
        byte_len(s.skip(i)) == utf8::encode_scalar(s[i] as u32).len() + byte_len(s.skip(i + 1)),
{
    assert(s.skip(i).drop_first() =~= s.skip(i + 1));
    assert(s.skip(i)[0] == s[i]);
}

/// The end of `s` from `i` is the longest within `max` bytes where it is
/// within them and the end from before `i` is not.
proof fn lemma_end_within(s: Seq<char>, max: nat, i: int, k: int)
    requires
        0 <= k <= i <= s.len(),
        byte_len(s.skip(i)) <= max,
        i > 0 ==> byte_len(s.skip(i - 1)) > max,
    ensures
        end_within(s.skip(k), max) == s.skip(i),
        k < i ==> byte_len(s.skip(k)) > max,
    decreases i - k,
{
    if k < i {
        lemma_end_within(s, max, i, k + 1);
        lemma_byte_len_skip(s, k);
        assert(s.skip(k).skip(1) =~= s.skip(k + 1));
    }
}

/// The longest end of `s` that has at most `max` bytes.
pub fn end_of_bytes(s: &[char], max: usize) -> (r: &[char])
    ensures
        r@ == end_within(s@, max as nat),
{
    let mut i: usize = s.len();
    let mut used: usize = 0;
    assert(s@.skip(i as int) =~= seq![]);
    assert(byte_len(s@.skip(i as int)) == 0);
    while i > 0
        invariant
            i <= s@.len(),
            used <= max,
            used == byte_len(s@.skip(i as int)),
        decreases i,
    {
        let w = char_width(s[i - 1]);
        proof {
            lemma_byte_len_skip(s@, i - 1);
        }
        if w > max - used {
            proof {
                lemma_end_within(s@, max as nat, i as int, 0);
                assert(s@.skip(0) =~= s@);
            }
            return slice_subrange(s, i, s.len());
        }
        used = used + w;
        i = i - 1;
    }
    assert(s@.skip(0) =~= s@);
    s
}

/// The last `n` characters of `s`, or all of them.
pub fn last_of_chars(s: &[char], n: usize) -> (r: &[char])
    ensures
        r@ == last_chars(s@, n as nat),
{
    if s.len() > n {
        slice_subrange(s, s.len() - n, s.len())
    } else {
        s
    }
}

/// Appends `n` spaces.
fn push_spaces(out: &mut String, n: usize)
    ensures
        final(out)@ == old(out)@ + Seq::new(n as nat, |i: int| ' '),
{
    let mut i: usize = 0;
    assert(out@ =~= out@ + Seq::new(0, |i: int| ' '));
    while i < n
        invariant
            i <= n,
            out@ == old(out)@ + Seq::new(i as nat, |i: int| ' '),
        decreases n - i,
    {
        out.push(' ');
        i = i + 1;
        assert(out@ =~= old(out)@ + Seq::new(i as nat, |i: int| ' '));
    }
}

/// Appends `s` and spaces up to `width` characters.
pub fn push_left_aligned(out: &mut String, s: &str, width: usize)
    ensures
        final(out)@ == old(out)@ + pad_right_of(s@, width as nat),
{
    let n = chars_of(s).len();
    out.append(s);
    if n < width {
        push_spaces(out, width - n);
        assert(out@ =~= old(out)@ + pad_right_of(s@, width as nat));
    }
}

/// `s` followed by spaces up to `width` characters.
pub fn left_aligned(s: &str, width: usize) -> (r: String)
    ensures
        r@ == pad_right_of(s@, width as nat),
{
    let mut out = String::new();
    push_left_aligned(&mut out, s, width);
    assert(out@ =~= pad_right_of(s@, width as nat));
    out
}

/// Appends spaces and `s`, together at least `width` characters.
pub fn push_right_aligned(out: &mut String, s: &str, width: usize)
    ensures
        final(out)@ == old(out)@ + pad_left_of(s@, width as nat),
{
    let n = chars_of(s).len();
    if n < width {
        push_spaces(out, width - n);
    }
    out.append(s);
    assert(out@ =~= old(out)@ + pad_left_of(s@, width as nat));
}

// ---------------------------------------------------------------------------
// Order
// ---------------------------------------------------------------------------

/// Whether `a` comes before `b` in the order of their characters, which is
/// also the order of their bytes in UTF-8.
pub open spec fn precedes(a: Seq<char>, b: Seq<char>) -> bool
    decreases a.len(),
{
    if b.len() == 0 {
        false
    } else if a.len() == 0 {
        true
    } else if a[0] != b[0] {
        a[0] < b[0]
    } else {
        precedes(a.skip(1), b.skip(1))
    }
}

proof fn lemma_precedes_at(a: Seq<char>, b: Seq<char>, i: int)
    requires
        0 <= i <= a.len(),
        i <= b.len(),
        forall|j: int| 0 <= j < i ==> #[trigger] a[j] == b[j],
    ensures
        precedes(a, b) == precedes(a.skip(i), b.skip(i)),
    decreases i,
{
    if i == 0 {
        assert(a.skip(0) =~= a);
        assert(b.skip(0) =~= b);
    } else {
        assert(a[0] == b[0]);
        assert forall|j: int| 0 <= j < i - 1 implies #[trigger] a.skip(1)[j] == b.skip(1)[j] by {
            assert(a[j + 1] == b[j + 1]);
        }
        lemma_precedes_at(a.skip(1), b.skip(1), i - 1);
        assert(a.skip(1).skip(i - 1) =~= a.skip(i));
        assert(b.skip(1).skip(i - 1) =~= b.skip(i));
    }
}

/// The order of texts is total: of two texts one comes first, or they are the
/// same, and no two of the three hold.
pub proof fn order_is_total(a: Seq<char>, b: Seq<char>)
    ensures
        precedes(a, b) || precedes(b, a) || a == b,
        !(precedes(a, b) && precedes(b, a)),
        !precedes(a, a),
    decreases a.len(),
{
    if a.len() > 0 {
        order_is_total(a.skip(1), a.skip(1));
    }
    if a.len() > 0 && b.len() > 0 && a[0] == b[0] {
        order_is_total(a.skip(1), b.skip(1));
        if a.skip(1) == b.skip(1) {
            assert(a =~= seq![a[0]] + a.skip(1));
            assert(b =~= seq![b[0]] + b.skip(1));
        }
    } else if a.len() == 0 && b.len() == 0 {
        assert(a =~= b);
    }
}

/// The order of texts is transitive.
pub proof fn order_is_transitive(a: Seq<char>, b: Seq<char>, c: Seq<char>)
    requires
        precedes(a, b),
        precedes(b, c),
    ensures
        precedes(a, c),
    decreases a.len(),
{
    if a.len() > 0 && a[0] == b[0] && b[0] == c[0] {
        order_is_transitive(a.skip(1), b.skip(1), c.skip(1));
    }
}

/// Whether `a` comes before `b`.
pub fn text_precedes(a: &str, b: &str) -> (r: bool)
    ensures
        r == precedes(a@, b@),
{
    let x = chars_of(a);
    let y = chars_of(b);
    let mut i: usize = 0;
    while i < x.len() && i < y.len() && x[i] == y[i]
        invariant
            i <= x@.len(),
            i <= y@.len(),
            forall|j: int| 0 <= j < i ==> #[trigger] x@[j] == y@[j],
        decreases x@.len() - i,
    {
        i = i + 1;
    }
    proof {
        lemma_precedes_at(x@, y@, i as int);
    }
    if i == y.len() {
        false
    } else if i == x.len() {
        true
    } else {
        x[i] < y[i]
    }
}


// ---------------------------------------------------------------------------
// Laws
// ---------------------------------------------------------------------------

/// A number that is written in decimal is read back, and is written with
/// digits only.
pub proof fn numbers_read_back(n: nat, max: nat)
    requires
        n <= max,
    ensures
        all_digits(decimal(n)),
        unsigned_of(decimal(n), max) == Some(n),
{
    lemma_decimal(n);
    assert(is_digit(decimal(n)[0]));
}

proof fn lemma_decimal(n: nat)
    ensures
        decimal(n).len() > 0,
        all_digits(decimal(n)),
        digits_value(decimal(n)) == n,
    decreases n,
{
    reveal_with_fuel(digits_value, 2);
    if n < 10 {
        assert(decimal(n).drop_last() =~= seq![]);
    } else {
        lemma_decimal(n / 10);
        let c = ('0' as u32 + n % 10) as char;
        assert(decimal(n) == decimal(n / 10).push(c));
        assert(decimal(n).drop_last() =~= decimal(n / 10));
        assert forall|i: int| 0 <= i < decimal(n).len() implies is_digit(
            #[trigger] decimal(n)[i],
        ) by {
            if i < decimal(n / 10).len() {
                assert(decimal(n)[i] == decimal(n / 10)[i]);
            }
        }
    }
}

/// What `last_where` returns: a length after which there is no hit, and which
/// ends in a hit or is 0.
pub proof fn lemma_last_where_props(s: Seq<char>, p: spec_fn(char) -> bool)
    ensures
        0 <= last_where(s, p) <= s.len(),
        forall|j: int| last_where(s, p) <= j < s.len() ==> !p(#[trigger] s[j]),
        last_where(s, p) > 0 ==> p(s[last_where(s, p) - 1]),
    decreases s.len(),
{
    if s.len() > 0 && !p(s.last()) {
        lemma_last_where_props(s.drop_last(), p);
        assert forall|j: int| last_where(s, p) <= j < s.len() implies !p(#[trigger] s[j]) by {
            if j < s.len() - 1 {
                assert(s.drop_last()[j] == s[j]);
            }
        }
    }
}

/// White space at the start does not matter for the words.
proof fn lemma_words_trim_start(s: Seq<char>)
    ensures
        words_of(s) == words_of(trim_start_of(s)),
{
    lemma_first_where_props(s, non_space());
    let t = trim_start_of(s);
    lemma_first_where(t, non_space(), 0);
    assert(t.skip(0) =~= t);
    lemma_first_where_props(t, space());
}

/// The words of two texts with white space between them are the words of the
/// first, then those of the second.
pub proof fn words_of_joined_texts(a: Seq<char>, gap: char, b: Seq<char>)
    requires
        is_space(gap),
    ensures
        words_of(a.push(gap) + b) == words_of(a) + words_of(b),
    decreases a.len(),
{
    let s = a.push(gap) + b;
    let i = first_where(a, non_space());
    lemma_first_where_props(a, non_space());
    if i == a.len() {
        lemma_first_where_props(b, non_space());
        let k = first_where(b, non_space());
        assert forall|j: int| 0 <= j < a.len() + 1 + k implies !non_space()(#[trigger] s[j]) by {
            if j < a.len() {
                assert(s[j] == a[j]);
            } else if j > a.len() {
                assert(s[j] == b[j - a.len() - 1]);
            }
        }
        lemma_first_where(s, non_space(), a.len() + 1 + k);
        assert(trim_start_of(s) =~= trim_start_of(b));
        lemma_words_trim_start(s);
        lemma_words_trim_start(b);
        let t = trim_start_of(a);
        assert(t.len() == 0);
        assert(words_of(a) =~= seq![]);
        assert(words_of(s) =~= words_of(a) + words_of(b));
    } else {
        let t = trim_start_of(a);
        let ts = trim_start_of(s);
        assert forall|j: int| 0 <= j < i implies !non_space()(#[trigger] s[j]) by {
            assert(s[j] == a[j]);
        }
        assert(s[i] == a[i]);
        lemma_first_where(s, non_space(), i);
        assert(ts =~= t.push(gap) + b);
        lemma_first_where_props(t, space());
        let e = first_where(t, space());
        assert(t[0] == a[i]);
        assert(e > 0);
        assert forall|j: int| 0 <= j < e implies !space()(#[trigger] ts[j]) by {
            assert(ts[j] == t[j]);
        }
        lemma_first_where(ts, space(), e);
        assert(ts.take(e) =~= t.take(e));
        assert(ts.skip(e) =~= t.skip(e).push(gap) + b);
        words_of_joined_texts(t.skip(e), gap, b);
        assert(words_of(s) =~= words_of(a) + words_of(b));
    }
}

/// A text has a word where it has a character that is not white space.
proof fn lemma_has_word(s: Seq<char>, i: int)
    requires
        0 <= i < s.len(),
        !is_space(s[i]),
    ensures
        words_of(s).len() > 0,
{
    lemma_first_where_props(s, non_space());
    if first_where(s, non_space()) > i {
        assert(!non_space()(s[i]));
    }
    let t = trim_start_of(s);
    assert(!is_space(t[0]));
    lemma_first_where_props(t, space());
}

proof fn lemma_no_words(s: Seq<char>)
    requires
        forall|j: int| 0 <= j < s.len() ==> is_space(#[trigger] s[j]),
    ensures
        words_of(s) == Seq::<Seq<char>>::empty(),
{
    lemma_first_where(s, non_space(), s.len() as int);
    assert(trim_start_of(s).len() == 0);
    assert(words_of(s) =~= seq![]);
}

/// White space at the start and at the end of a text does not matter for its
/// words.
pub proof fn words_of_trimmed_text(s: Seq<char>)
    ensures
        words_of(trim_of(s)) == words_of(s),
{
    let t = trim_start_of(s);
    let n = last_where(t, non_space());
    lemma_words_trim_start(s);
    lemma_last_where_props(t, non_space());
    if n < t.len() {
        let rest = t.skip(n + 1);
        assert(!non_space()(t[n]));
        assert(t =~= t.take(n).push(t[n]) + rest);
        words_of_joined_texts(t.take(n), t[n], rest);
        assert forall|j: int| 0 <= j < rest.len() implies is_space(#[trigger] rest[j]) by {
            assert(!non_space()(t[n + 1 + j]));
        }
        lemma_no_words(rest);
        assert(words_of(t) =~= words_of(t.take(n)));
    } else {
        assert(t.take(n) =~= t);
    }
}

/// The first word of a trimmed text is its beginning up to the first white
/// space; it is the whole text exactly where there is no other word.
pub proof fn first_word_of_trimmed_text(s: Seq<char>)
    ensures
        ({
            let t = trim_of(s);
            let words = words_of(s);
            let end = first_where(t, space());
            &&& t.len() == 0 <==> words.len() == 0
            &&& t.len() > 0 ==> {
                &&& 0 < end <= t.len()
                &&& words[0] == t.take(end)
                &&& words.len() == 1 <==> end == t.len()
            }
        }),
{
    let t0 = trim_start_of(s);
    let t = trim_of(s);
    let words = words_of(s);
    words_of_trimmed_text(s);
    lemma_first_where_props(s, non_space());
    lemma_last_where_props(t0, non_space());
    if t.len() == 0 {
        lemma_no_words(t);
    } else {
        let n = t.len() as int;
        assert(t[n - 1] == t0[n - 1]);
        assert(!is_space(t[n - 1]));
        assert(t0[0] == s[first_where(s, non_space())]);
        assert(!is_space(t[0]));
        lemma_first_where(t, non_space(), 0);
        assert(t.skip(0) =~= t);
        lemma_first_where_props(t, space());
        let end = first_where(t, space());
        let rest = t.skip(end);
        assert(words == seq![t.take(end)] + words_of(rest));
        if end < t.len() {
            assert(rest[rest.len() - 1] == t[n - 1]);
            lemma_has_word(rest, rest.len() - 1);
        } else {
            lemma_no_words(rest);
        }
    }
}

/// The pieces of two texts with a separator between them are the pieces of the
/// first, then those of the second.
pub proof fn pieces_of_joined_texts(a: Seq<char>, c: char, b: Seq<char>)
    ensures
        split_of(a.push(c) + b, c) == split_of(a, c) + split_of(b, c),
    decreases a.len(),
{
    let s = a.push(c) + b;
    lemma_first_where_props(a, is_char(c));
    let i = first_where(a, is_char(c));
    assert forall|j: int| 0 <= j < i implies !is_char(c)(#[trigger] s[j]) by {
        assert(s[j] == a[j]);
    }
    if i < a.len() {
        assert(s[i] == a[i]);
    }
    lemma_first_where(s, is_char(c), i);
    assert(s.take(i) =~= a.take(i));
    if i < a.len() {
        assert(s.skip(i + 1) =~= a.skip(i + 1).push(c) + b);
        pieces_of_joined_texts(a.skip(i + 1), c, b);
    } else {
        assert(s.skip(i + 1) =~= b);
        assert(a.take(i) =~= a);
    }
    assert(split_of(s, c) =~= split_of(a, c) + split_of(b, c));
}

/// Lower case changes letters only.
pub proof fn lower_case_changes_letters_only(c: char)
    ensures
        lower_char(lower_char(c)) == lower_char(c),
        is_digit(lower_char(c)) == is_digit(c),
        is_space(lower_char(c)) == is_space(c),
        !('A' <= c <= 'Z') ==> lower_char(c) == c,
        'A' <= c <= 'Z' ==> 'a' <= lower_char(c) <= 'z',
{
}

/// Trimming twice is trimming once.
pub proof fn trimmed_text_is_trimmed(s: Seq<char>)
    ensures
        trim_of(trim_of(s)) == trim_of(s),
{
    let u = trim_start_of(s);
    let t = trim_of(s);
    lemma_first_where_props(s, non_space());
    lemma_last_where_props(u, non_space());
    let n = t.len() as int;
    if n > 0 {
        assert(t[0] == u[0] && u[0] == s[first_where(s, non_space())]);
        assert(t[n - 1] == u[n - 1]);
    }
    lemma_first_where(t, non_space(), 0);
    assert(t.skip(0) =~= t);
    lemma_last_where(t, non_space(), n);
    assert(t.take(n) =~= t);
}

/// Whether a text consists of whole lines.
pub open spec fn whole_lines(s: Seq<char>) -> bool {
    s.len() == 0 || s.last() == '\n'
}

/// The lines of whole lines and a text after them are the lines of the first,
/// then those of the second.
pub proof fn lines_of_joined_texts(a: Seq<char>, b: Seq<char>)
    requires
        whole_lines(a),
    ensures
        lines_of(a + b) == lines_of(a) + lines_of(b),
    decreases a.len(),
{
    let s = a + b;
    if a.len() == 0 {
        assert(s =~= b);
        assert(lines_of(s) =~= lines_of(a) + lines_of(b));
    } else {
        let p = is_char('\n');
        lemma_first_where_props(a, p);
        let i = first_where(a, p);
        if i == a.len() {
            assert(!p(a[a.len() - 1]));
        }
        assert forall|j: int| 0 <= j < i implies !p(#[trigger] s[j]) by {
            assert(s[j] == a[j]);
        }
        assert(s[i] == a[i]);
        lemma_first_where(s, p, i);
        let rest = a.skip(i + 1);
        assert(s.take(i) =~= a.take(i));
        assert(s.skip(i + 1) =~= rest + b);
        lines_of_joined_texts(rest, b);
        assert(lines_of(s) =~= lines_of(a) + lines_of(b));
    }
}

/// Whether a character does not occur in a text.
pub open spec fn lacks(s: Seq<char>, c: char) -> bool {
    forall|i: int| 0 <= i < s.len() ==> #[trigger] s[i] != c
}

/// A text is cut in two at the first separator: what stands before and after it
/// is read back.
pub proof fn cut_texts_read_back(a: Seq<char>, c: char, b: Seq<char>)
    requires
        lacks(a, c),
    ensures
        split_once_of(a + seq![c] + b, c) == Some((a, b)),
{
    let s = a + seq![c] + b;
    assert forall|j: int| 0 <= j < a.len() implies !is_char(c)(#[trigger] s[j]) by {
        assert(s[j] == a[j]);
    }
    assert(s[a.len() as int] == c);
    lemma_first_where(s, is_char(c), a.len() as int);
    assert(s.take(a.len() as int) =~= a);
    assert(s.skip(a.len() as int + 1) =~= b);
}

/// A text without the separator is not cut, and is one piece.
pub proof fn uncut_text_is_one_piece(s: Seq<char>, c: char)
    requires
        lacks(s, c),
    ensures
        split_once_of(s, c) is None,
        split_of(s, c) == seq![s],
{
    assert forall|j: int| 0 <= j < s.len() implies !is_char(c)(#[trigger] s[j]) by {}
    lemma_first_where(s, is_char(c), s.len() as int);
}

/// The decimal text of a number lacks every character that is no digit.
pub proof fn numbers_lack_other_characters(n: nat, c: char)
    requires
        !is_digit(c),
    ensures
        lacks(decimal(n), c),
        decimal(n).len() > 0,
{
    numbers_read_back(n, n);
    assert forall|i: int| 0 <= i < decimal(n).len() implies #[trigger] decimal(n)[i] != c by {
        assert(is_digit(decimal(n)[i]));
    }
}

/// White space around a text is trimmed away, and nothing else is.
pub proof fn surrounding_space_is_trimmed(before: Seq<char>, s: Seq<char>, behind: Seq<char>)
    requires
        forall|i: int| 0 <= i < before.len() ==> is_space(#[trigger] before[i]),
        forall|i: int| 0 <= i < behind.len() ==> is_space(#[trigger] behind[i]),
        s.len() > 0 ==> !is_space(s[0]) && !is_space(s.last()),
    ensures
        trim_of(before + s + behind) == s,
        s.len() > 0 ==> trim_end_of(before + s + behind) == before + s,
{
    let all = before + s + behind;
    let n = before.len() as int;
    let m = s.len() as int;
    assert forall|j: int| n + m <= j < all.len() implies !non_space()(#[trigger] all[j]) by {
        assert(all[j] == behind[j - n - m]);
    }
    assert forall|j: int| 0 <= j < n implies !non_space()(#[trigger] all[j]) by {
        assert(all[j] == before[j]);
    }
    if m > 0 {
        assert(all[n] == s[0]);
        assert(all[n + m - 1] == s[m - 1]);
        lemma_first_where(all, non_space(), n);
        let t = all.skip(n);
        assert(t =~= s + behind);
        assert forall|j: int| m <= j < t.len() implies !non_space()(#[trigger] t[j]) by {
            assert(t[j] == behind[j - m]);
        }
        lemma_last_where(t, non_space(), m);
        assert(t.take(m) =~= s);
        lemma_last_where(all, non_space(), n + m);
        assert(all.take(n + m) =~= before + s);
    } else {
        assert forall|j: int| 0 <= j < all.len() implies !non_space()(#[trigger] all[j]) by {
            if j >= n {
                assert(all[j] == behind[j - n]);
            }
        }
        lemma_first_where(all, non_space(), all.len() as int);
        lemma_last_where_props(trim_start_of(all), non_space());
        assert(trim_of(all) =~= s);
    }
}

/// The name of a file in a directory: the directory, one `/` where it does not
/// end in one, and the name; an absolute name is kept.
pub proof fn joined_paths(dir: Seq<char>, name: Seq<char>)
    ensures
        name.len() > 0 && name[0] == '/' ==> joined(dir, name) == name,
        name.len() == 0 || name[0] != '/' ==> {
            &&& joined(dir.push('/'), name) == dir + seq!['/'] + name
            &&& dir.len() > 0 && dir.last() != '/' ==> joined(dir, name) == joined(
                dir.push('/'),
                name,
            )
            &&& joined(seq![], name) == name
        },
{
    assert(dir.push('/') + name =~= dir + seq!['/'] + name);
    assert(Seq::<char>::empty() + name =~= name);
}

/// The last characters of a text are an end of it, as long as asked for, or the
/// whole text where that is shorter.
pub proof fn last_chars_are_an_end(a: Seq<char>, b: Seq<char>, n: nat)
    ensures
        last_chars(a + b, b.len()) == b,
        a.len() <= n ==> last_chars(a, n) == a,
{
    assert((a + b).skip(a.len() as int) =~= b);
}

/// What fits into a number of bytes at the end of a text is an end of it, and one
/// character more does not fit.
pub proof fn end_within_is_the_longest(s: Seq<char>, max: nat)
    ensures
        exists|k: int| #![trigger s.skip(k)]
            0 <= k <= s.len() && end_within(s, max) == s.skip(k) && byte_len(s.skip(k)) <= max && (
            k > 0 ==> byte_len(s.skip(k - 1)) > max),
    decreases s.len(),
{
    if s.len() == 0 || byte_len(s) <= max {
        assert(s.skip(0) =~= s);
        if s.len() == 0 {
            assert(s =~= seq![]);
        }
    } else {
        let rest = s.skip(1);
        end_within_is_the_longest(rest, max);
        let k = choose|k: int| #![trigger rest.skip(k)]
            0 <= k <= rest.len() && end_within(rest, max) == rest.skip(k) && byte_len(rest.skip(k))
                <= max && (k > 0 ==> byte_len(rest.skip(k - 1)) > max);
        assert(rest.skip(k) =~= s.skip(k + 1));
        if k > 0 {
            assert(rest.skip(k - 1) =~= s.skip(k));
        } else {
            assert(s.skip(0) =~= s);
        }
    }
}

/// A padded text is as long as the width, or as the text where that is longer;
/// it has the text at one end and spaces at the other.
pub proof fn padding_keeps_the_text(s: Seq<char>, width: nat)
    ensures
        ({
            let n = if s.len() < width {
                width
            } else {
                s.len()
            };
            let right = pad_right_of(s, width);
            let left = pad_left_of(s, width);
            &&& right.len() == n && left.len() == n
            &&& right.take(s.len() as int) == s
            &&& left.skip(n - s.len()) == s
            &&& forall|i: int| s.len() <= i < n ==> #[trigger] right[i] == ' '
            &&& forall|i: int| 0 <= i < n - s.len() ==> #[trigger] left[i] == ' '
        }),
{
    let n = if s.len() < width {
        width
    } else {
        s.len()
    };
    assert(pad_right_of(s, width).take(s.len() as int) =~= s);
    assert(pad_left_of(s, width).skip(n - s.len()) =~= s);
}

/// A text is read as a number exactly where it consists of digits, after a `+`
/// or not, and the number is small enough; zeros before it do not matter.
pub proof fn only_digits_are_numbers(s: Seq<char>, max: nat)
    ensures
        s.len() == 0 ==> unsigned_of(s, max) is None,
        !all_digits(s) && (s.len() == 0 || s[0] != '+') ==> unsigned_of(s, max) is None,
        s.len() > 0 && all_digits(s) ==> unsigned_of(s, max) == (if digits_value(s) <= max {
            Some(digits_value(s))
        } else {
            None
        }) && unsigned_of(seq!['+'] + s, max) == unsigned_of(s, max),
        s.len() > 0 && all_digits(s) ==> digits_value(seq!['0'] + s) == digits_value(s),
{
    if s.len() > 0 && all_digits(s) {
        assert(is_digit(s[0]));
        assert((seq!['+'] + s).skip(1) =~= s);
        lemma_leading_zero(s);
    }
}

proof fn lemma_leading_zero(s: Seq<char>)
    ensures
        digits_value(seq!['0'] + s) == digits_value(s),
    decreases s.len(),
{
    let t = seq!['0'] + s;
    if s.len() == 0 {
        assert(t.drop_last() =~= seq![]);
        reveal_with_fuel(digits_value, 2);
        assert(t.last() == '0');
    } else {
        assert(t.drop_last() =~= seq!['0'] + s.drop_last());
        lemma_leading_zero(s.drop_last());
    }
}

/// Texts are in order by their first difference, and a text comes before every
/// longer one that begins with it.
pub proof fn the_first_difference_decides(
    common: Seq<char>,
    a: char,
    b: char,
    x: Seq<char>,
    y: Seq<char>,
)
    ensures
        a < b ==> precedes(common + seq![a] + x, common + seq![b] + y),
        precedes(common, common + seq![b] + y),
    decreases common.len(),
{
    let s = common + seq![a] + x;
    let t = common + seq![b] + y;
    if common.len() == 0 {
        assert(s[0] == a && t[0] == b);
    } else {
        let rest = common.skip(1);
        the_first_difference_decides(rest, a, b, x, y);
        assert(s[0] == common[0] && t[0] == common[0]);
        assert(s.skip(1) =~= rest + seq![a] + x);
        assert(t.skip(1) =~= rest + seq![b] + y);
    }
}

/// A line ends at a line feed, with or without a carriage return before it.
pub proof fn lines_end_at_line_feeds(line: Seq<char>, rest: Seq<char>)
    requires
        lacks(line, '\n'),
        line.len() > 0 ==> line.last() != '\r',
    ensures
        lines_of(line.push('\n') + rest) == seq![line] + lines_of(rest),
        lines_of(line.push('\r').push('\n') + rest) == seq![line] + lines_of(rest),
        line.len() > 0 ==> lines_of(line) == seq![line],
{
    let n = line.len() as int;
    let a = line.push('\n') + rest;
    assert forall|j: int| 0 <= j < n implies !is_char('\n')(#[trigger] a[j]) by {
        assert(a[j] == line[j]);
    }
    assert(a[n] == '\n');
    lemma_first_where(a, is_char('\n'), n);
    assert(a.take(n) =~= line);
    assert(a.skip(n + 1) =~= rest);
    let b = line.push('\r').push('\n') + rest;
    assert forall|j: int| 0 <= j < n + 1 implies !is_char('\n')(#[trigger] b[j]) by {
        if j < n {
            assert(b[j] == line[j]);
        }
    }
    assert(b[n + 1] == '\n');
    lemma_first_where(b, is_char('\n'), n + 1);
    assert(b.take(n + 1) =~= line.push('\r'));
    assert(line.push('\r').drop_last() =~= line);
    assert(b.skip(n + 2) =~= rest);
    if n > 0 {
        assert forall|j: int| 0 <= j < n implies !is_char('\n')(#[trigger] line[j]) by {}
        lemma_first_where(line, is_char('\n'), n);
    }
}

/// White space is what Unicode calls so: tab to carriage return, the space, the
/// next-line character, the spaces of a fixed width or without a break, and the
/// line and paragraph separators.
pub proof fn white_space_is_that_of_unicode(c: char)
    ensures
        is_space(c) <==> (c == '\t' || c == '\n' || c == '\u{b}' || c == '\u{c}' || c == '\r' || c
            == ' ' || c == '\u{85}' || c == '\u{a0}' || c == '\u{1680}' || '\u{2000}' <= c
            <= '\u{200a}' || c == '\u{2028}' || c == '\u{2029}' || c == '\u{202f}' || c
            == '\u{205f}' || c == '\u{3000}'),
{
}

/// A text begins with another exactly where it is that text with something behind
/// it, which is what is left without the beginning.
pub proof fn stripped_texts_read_back(lit: Seq<char>, s: Seq<char>)
    ensures
        strip_prefix_of(lit + s, lit) == Some(s),
        strip_prefix_of(s, lit) matches Some(rest) ==> s == lit + rest,
{
    assert((lit + s).take(lit.len() as int) =~= lit);
    assert((lit + s).skip(lit.len() as int) =~= s);
    if strip_prefix_of(s, lit) is Some {
        assert(s =~= lit + strip_prefix_of(s, lit)->0);
    }
}

/// Signed numbers read back: the digits of the amount, after `-` where the number
/// is below 0 and after nothing else.
pub proof fn signed_numbers_read_back(n: nat)
    ensures
        unsigned_of(signed_decimal(n as int), n) == Some(n),
        n > 0 ==> signed_decimal(-n) == seq!['-'] + signed_decimal(n as int),
{
    numbers_read_back(n, n);
}

} // verus!
