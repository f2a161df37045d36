//! Text as sequences of characters: the handful of string operations the rest
//! of the crate is built on, each with an exact contract over `Seq<char>`.

use vstd::prelude::*;
use vstd::utf8::encode_utf8;

verus! {

/// `String::push`: appends one character.
pub assume_specification[ String::push ](string: &mut String, ch: char)
    ensures
        final(string)@ == old(string)@.push(ch),
;

/// `String::push_str`: appends a string slice.
pub assume_specification[ String::push_str ](string: &mut String, other: &str)
    ensures
        final(string)@ == old(string)@ + other@,
;

/// `str == str`: two slices are equal exactly when they hold the same
/// characters.
pub assume_specification[ <str as PartialEq>::eq ](left: &str, right: &str) -> (equal: bool)
    ensures
        equal == (left@ == right@),
;

/// Whether Unicode counts a character as a letter or a number.
pub uninterp spec fn alphanumeric(c: char) -> bool;

/// `char::is_alphanumeric`: a function of the character alone.
pub assume_specification[ char::is_alphanumeric ](c: char) -> (yes: bool)
    ensures
        yes == alphanumeric(c),
;

/// The characters of a slice, as a vector.
pub fn chars_of(s: &str) -> (out: Vec<char>)
    ensures
        out@ == s@,
{
    let mut out: Vec<char> = Vec::new();
    for c in it: s.chars()
        invariant
            it.seq() == s@,
            out@ == s@.take(it.index()),
    {
        out.push(c);
        assert(s@.take(it.index() + 1) =~= s@.take(it.index()).push(c));
    }
    assert(s@.take(s@.len() as int) =~= s@);
    out
}

/// The characters `from..to` of a vector, as an owned string.
pub fn string_of(chars: &Vec<char>, from: usize, to: usize) -> (out: String)
    requires
        from <= to <= chars@.len(),
    ensures
        out@ == chars@.subrange(from as int, to as int),
{
    let mut out = String::new();
    let mut i: usize = from;
    while i < to
        invariant
            from <= i <= to <= chars@.len(),
            out@ == chars@.subrange(from as int, i as int),
        decreases to - i,
    {
        out.push(chars[i]);
        assert(chars@.subrange(from as int, i + 1) =~= chars@.subrange(from as int, i as int).push(
            chars@[i as int],
        ));
        i = i + 1;
    }
    out
}

/// Whether two slices hold the same characters.
pub fn same(left: &str, right: &str) -> (equal: bool)
    ensures
        equal == (left@ == right@),
{
    left.eq(right)
}

/// Whether two optional strings are both absent or hold the same characters.
pub fn same_option(left: &Option<String>, right: &Option<String>) -> (equal: bool)
    ensures
        equal == (opt_view(*left) == opt_view(*right)),
{
    match (left, right) {
        (Some(a), Some(b)) => same(a.as_str(), b.as_str()),
        (None, None) => true,
        _ => false,
    }
}

/// The characters of an optional string.
pub open spec fn opt_view(value: Option<String>) -> Option<Seq<char>> {
    match value {
        Some(text) => Some(text@),
        None => None,
    }
}

/// The characters of each string of a list.
pub open spec fn texts(list: Seq<String>) -> Seq<Seq<char>> {
    list.map_values(|s: String| s@)
}

/// How many bytes a text occupies in UTF-8.
pub open spec fn byte_len(s: Seq<char>) -> nat {
    encode_utf8(s).len()
}

/// How many bytes a character occupies in UTF-8.
pub open spec fn char_width(c: char) -> nat {
    let n = c as u32;
    if n < 0x80 {
        1
    } else if n < 0x800 {
        2
    } else if n < 0x10000 {
        3
    } else {
        4
    }
}

/// Computes [`char_width`].
pub fn width_of(c: char) -> (width: usize)
    ensures
        width == char_width(c),
{
    let n: u32 = c as u32;
    if n < 0x80 {
        1
    } else if n < 0x800 {
        2
    } else if n < 0x10000 {
        3
    } else {
        4
    }
}

/// Computes [`byte_len`].
pub fn byte_length(s: &str) -> (len: usize)
    ensures
        len == byte_len(s@),
{
    s.as_bytes().len()
}

/// The bytes of two texts put together are their bytes put together.
pub proof fn lemma_byte_len_concat(a: Seq<char>, b: Seq<char>)
    ensures
        byte_len(a + b) == byte_len(a) + byte_len(b),
    decreases a.len(),
{
    if a.len() == 0 {
        assert(a + b =~= b);
    } else {
        lemma_byte_len_concat(a.drop_first(), b);
        assert((a + b).drop_first() =~= a.drop_first() + b);
    }
}

/// One more character adds its width.
pub proof fn lemma_byte_len_push(s: Seq<char>, c: char)
    ensures
        byte_len(s.push(c)) == byte_len(s) + char_width(c),
{
    broadcast use vstd::utf8::char_is_scalar;

    lemma_byte_len_concat(s, seq![c]);
    assert(s.push(c) =~= s + seq![c]);
    assert(seq![c].drop_first() =~= Seq::<char>::empty());
    assert(encode_utf8(seq![c].drop_first()).len() == 0);
    assert(byte_len(seq![c]) == char_width(c));
}

/// Every character takes at least one byte.
pub proof fn lemma_len_within_bytes(s: Seq<char>)
    ensures
        s.len() <= byte_len(s),
    decreases s.len(),
{
    if s.len() > 0 {
        lemma_len_within_bytes(s.drop_last());
        lemma_byte_len_push(s.drop_last(), s.last());
        assert(s.drop_last().push(s.last()) =~= s);
    }
}

/// The decimal digits of a number, most significant first.
pub open spec fn decimal(n: nat) -> Seq<char>
    decreases n,
{
    if n < 10 {
        seq![digit(n)]
    } else {
        decimal(n / 10).push(digit(n % 10))
    }
}

/// The character of one decimal digit.
pub open spec fn digit(n: nat) -> char {
    (48 + n) as char
}

fn digit_char(n: u64) -> (c: char)
    requires
        n < 10,
    ensures
        c == digit(n as nat),
{
    (48u8 + n as u8) as char
}

/// Appends a number in decimal.
pub fn push_decimal(out: &mut String, n: u64)
    ensures
        final(out)@ == old(out)@ + decimal(n as nat),
    decreases n,
{
    if n < 10 {
        out.push(digit_char(n));
        assert(out@ =~= old(out)@ + decimal(n as nat));
    } else {
        push_decimal(out, n / 10);
        out.push(digit_char(n % 10));
        assert(out@ =~= old(out)@ + decimal(n as nat));
    }
}

/// A signed number in decimal, with a leading minus below zero.
pub open spec fn signed_decimal(n: int) -> Seq<char> {
    if n < 0 {
        seq!['-'] + decimal((-n) as nat)
    } else {
        decimal(n as nat)
    }
}

/// Whether a character has Unicode's `White_Space` property.
pub open spec fn is_space(c: char) -> bool {
    let n = c as u32;
    ||| 0x9 <= n <= 0xd
    ||| n == 0x20 || n == 0x85 || n == 0xa0 || n == 0x1680
    ||| 0x2000 <= n <= 0x200a
    ||| n == 0x2028 || n == 0x2029 || n == 0x202f || n == 0x205f || n == 0x3000
}

/// Decides [`is_space`].
pub fn space_char(c: char) -> (space: bool)
    ensures
        space == is_space(c),
{
    let n: u32 = c as u32;
    (0x9 <= n && n <= 0xd) || n == 0x20 || n == 0x85 || n == 0xa0 || n == 0x1680 || (0x2000 <= n
        && n <= 0x200a) || n == 0x2028 || n == 0x2029 || n == 0x202f || n == 0x205f || n == 0x3000
}

/// Whether a character is one of the 65 control characters (category `Cc`).
pub open spec fn is_control(c: char) -> bool {
    let n = c as u32;
    n <= 0x1f || 0x7f <= n <= 0x9f
}

/// Decides [`is_control`].
pub fn control_char(c: char) -> (control: bool)
    ensures
        control == is_control(c),
{
    let n: u32 = c as u32;
    n <= 0x1f || (0x7f <= n && n <= 0x9f)
}

/// Whether a character is an ASCII letter or digit.
pub open spec fn is_ascii_alnum(c: char) -> bool {
    ('0' <= c && c <= '9') || ('a' <= c && c <= 'z') || ('A' <= c && c <= 'Z')
}

/// Decides [`is_ascii_alnum`].
pub fn ascii_alnum_char(c: char) -> (alnum: bool)
    ensures
        alnum == is_ascii_alnum(c),
{
    ('0' <= c && c <= '9') || ('a' <= c && c <= 'z') || ('A' <= c && c <= 'Z')
}

/// A character with ASCII upper case folded to lower.
pub open spec fn lower(c: char) -> char {
    if 'A' <= c && c <= 'Z' {
        (c as u32 + 32) as char
    } else {
        c
    }
}

/// Computes [`lower`].
pub fn lower_char(c: char) -> (out: char)
    ensures
        out == lower(c),
{
    if 'A' <= c && c <= 'Z' {
        let n: u8 = c as u8;
        (n + 32) as char
    } else {
        c
    }
}

/// A text with every ASCII letter in lower case.
pub open spec fn lowered(s: Seq<char>) -> Seq<char> {
    s.map_values(|c: char| lower(c))
}

/// Computes [`lowered`].
pub fn to_lower(s: &str) -> (out: String)
    ensures
        out@ == lowered(s@),
{
    let chars = chars_of(s);
    let mut out = String::new();
    let mut i: usize = 0;
    while i < chars.len()
        invariant
            i <= chars@.len(),
            chars@ == s@,
            out@ == lowered(s@.take(i as int)),
        decreases chars@.len() - i,
    {
        out.push(lower_char(chars[i]));
        assert(lowered(s@.take(i + 1)) =~= lowered(s@.take(i as int)).push(lower(s@[i as int])));
        i = i + 1;
    }
    assert(s@.take(s@.len() as int) =~= s@);
    out
}

/// The first position at or after `i` that does not hold white space.
pub open spec fn skip_space(s: Seq<char>, i: int) -> int
    decreases s.len() - i,
{
    if 0 <= i < s.len() && is_space(s[i]) {
        skip_space(s, i + 1)
    } else {
        i
    }
}

/// The end of `s[lo..hi]` once its trailing white space is dropped.
pub open spec fn drop_space(s: Seq<char>, lo: int, hi: int) -> int
    decreases hi,
{
    if 0 <= lo < hi <= s.len() && is_space(s[hi - 1]) {
        drop_space(s, lo, hi - 1)
    } else {
        hi
    }
}

/// A text without the white space at its two ends.
pub open spec fn trimmed(s: Seq<char>) -> Seq<char> {
    let lo = skip_space(s, 0);
    s.subrange(lo, drop_space(s, lo, s.len() as int))
}

proof fn lemma_skip_space(s: Seq<char>, i: int)
    requires
        0 <= i <= s.len(),
    ensures
        i <= skip_space(s, i) <= s.len(),
        forall|k: int| i <= k < skip_space(s, i) ==> is_space(#[trigger] s[k]),
        skip_space(s, i) < s.len() ==> !is_space(s[skip_space(s, i)]),
    decreases s.len() - i,
{
    if i < s.len() && is_space(s[i]) {
        lemma_skip_space(s, i + 1);
    }
}

proof fn lemma_drop_space(s: Seq<char>, lo: int, hi: int)
    requires
        0 <= lo <= hi <= s.len(),
    ensures
        lo <= drop_space(s, lo, hi) <= hi,
        forall|k: int| drop_space(s, lo, hi) <= k < hi ==> is_space(#[trigger] s[k]),
        lo < drop_space(s, lo, hi) ==> !is_space(s[drop_space(s, lo, hi) - 1]),
    decreases hi,
{
    if lo < hi && is_space(s[hi - 1]) {
        lemma_drop_space(s, lo, hi - 1);
    }
}

/// Trimming takes white space from the two ends and nothing else: what is left
/// is a stretch of the text that starts and ends with something else, and
/// everything around it is white space.
pub proof fn trimming_takes_only_white_space(s: Seq<char>) -> (cut: (int, int))
    ensures
        0 <= cut.0 <= cut.1 <= s.len(),
        trimmed(s) == s.subrange(cut.0, cut.1),
        forall|k: int| 0 <= k < cut.0 || cut.1 <= k < s.len() ==> is_space(#[trigger] s[k]),
        cut.0 < cut.1 ==> !is_space(s[cut.0]) && !is_space(s[cut.1 - 1]),
{
    let lo = skip_space(s, 0);
    lemma_skip_space(s, 0);
    lemma_drop_space(s, lo, s.len() as int);
    (lo, drop_space(s, lo, s.len() as int))
}

/// A text is blank exactly when it holds white space alone.
pub proof fn blank_is_white_space_alone(s: Seq<char>)
    ensures
        trimmed(s).len() == 0 <==> forall|k: int| 0 <= k < s.len() ==> is_space(#[trigger] s[k]),
{
    let cut = trimming_takes_only_white_space(s);
    if trimmed(s).len() > 0 {
        assert(!is_space(s[cut.0]));
    }
}

/// A text without white space at its ends is left as it is.
pub proof fn trimming_twice_is_trimming_once(s: Seq<char>)
    ensures
        trimmed(trimmed(s)) == trimmed(s),
{
    let once = trimmed(s);
    let outer = trimming_takes_only_white_space(s);
    let inner = trimming_takes_only_white_space(once);
    if once.len() > 0 {
        assert(once[0] == s[outer.0]);
        assert(once[once.len() - 1] == s[outer.1 - 1]);
        if inner.0 > 0 {
            assert(is_space(once[0]));
        }
        if inner.1 < once.len() {
            assert(is_space(once[once.len() - 1]));
        }
    }
    assert(trimmed(once) =~= once);
}

/// No visible ASCII character is white space; blank, tab and the line ends are.
pub proof fn visible_ascii_is_no_space(c: char)
    ensures
        '!' <= c && c <= '~' ==> !is_space(c),
        c == ' ' || c == '\t' || c == '\n' || c == '\r' ==> is_space(c),
{
}

/// Computes [`trimmed`].
pub fn trim(s: &str) -> (out: String)
    ensures
        out@ == trimmed(s@),
{
    let chars = chars_of(s);
    let mut lo: usize = 0;
    while lo < chars.len() && space_char(chars[lo])
        invariant
            lo <= chars@.len(),
            chars@ == s@,
            skip_space(s@, lo as int) == skip_space(s@, 0),
        decreases chars@.len() - lo,
    {
        lo = lo + 1;
    }
    let mut hi: usize = chars.len();
    while lo < hi && space_char(chars[hi - 1])
        invariant
            lo <= hi <= chars@.len(),
            chars@ == s@,
            drop_space(s@, lo as int, hi as int) == drop_space(s@, lo as int, s@.len() as int),
        decreases hi,
    {
        hi = hi - 1;
    }
    string_of(&chars, lo, hi)
}

/// Whether a text is nothing but white space.
pub fn is_blank(s: &str) -> (blank: bool)
    ensures
        blank == (trimmed(s@).len() == 0),
{
    trim(s).as_str().is_empty()
}

/// Whether `s` begins with `prefix`.
pub open spec fn begins(s: Seq<char>, prefix: Seq<char>) -> bool {
    prefix.len() <= s.len() && s.take(prefix.len() as int) == prefix
}

/// Decides [`begins`].
pub fn starts_with(s: &str, prefix: &str) -> (yes: bool)
    ensures
        yes == begins(s@, prefix@),
{
    let a = chars_of(s);
    let b = chars_of(prefix);
    if b.len() > a.len() {
        return false;
    }
    matches_at(&a, 0, &b)
}

/// The part of `s` after `prefix`, when `s` begins with it.
pub fn strip_prefix(s: &str, prefix: &str) -> (rest: Option<String>)
    ensures
        rest is Some <==> begins(s@, prefix@),
        rest matches Some(text) ==> text@ == s@.skip(prefix@.len() as int),
{
    let a = chars_of(s);
    let b = chars_of(prefix);
    if b.len() > a.len() {
        return None;
    }
    if matches_at(&a, 0, &b) {
        let rest = string_of(&a, b.len(), a.len());
        assert(rest@ =~= s@.skip(prefix@.len() as int));
        Some(rest)
    } else {
        None
    }
}

/// Whether `needle` stands in `s` at position `at`.
pub open spec fn stands_at(s: Seq<char>, at: int, needle: Seq<char>) -> bool {
    0 <= at <= at + needle.len() <= s.len() && s.subrange(at, at + needle.len()) == needle
}

fn matches_at(s: &Vec<char>, at: usize, needle: &Vec<char>) -> (yes: bool)
    requires
        at + needle@.len() <= s@.len(),
    ensures
        yes == stands_at(s@, at as int, needle@),
        at == 0 ==> yes == begins(s@, needle@),
{
    proof {
        assert(s@.subrange(0, needle@.len() as int) =~= s@.take(needle@.len() as int));
    }
    let len: usize = s.len();
    let mut i: usize = 0;
    while i < needle.len()
        invariant
            i <= needle@.len(),
            at + needle@.len() <= len,
            len == s@.len(),
            forall|k: int| 0 <= k < i ==> s@[at + k] == needle@[k],
        decreases needle@.len() - i,
    {
        if s[at + i] != needle[i] {
            assert(s@.subrange(at as int, at + needle@.len())[i as int] != needle@[i as int]);
            return false;
        }
        i = i + 1;
    }
    assert(s@.subrange(at as int, at + needle@.len()) =~= needle@);
    true
}

/// Whether `needle` occurs anywhere in `s`.
pub open spec fn holds(s: Seq<char>, needle: Seq<char>) -> bool {
    exists|at: int| stands_at(s, at, needle)
}

/// Decides [`holds`].
pub fn contains(s: &str, needle: &str) -> (yes: bool)
    ensures
        yes == holds(s@, needle@),
{
    let a = chars_of(s);
    let b = chars_of(needle);
    if b.len() > a.len() {
        return false;
    }
    let len: usize = a.len();
    let mut at: usize = 0;
    while at <= len - b.len()
        invariant
            at <= len - b@.len() + 1,
            len == a@.len(),
            b@.len() <= len,
            a@ == s@,
            b@ == needle@,
            forall|k: int| 0 <= k < at ==> !stands_at(s@, k, needle@),
        decreases len + 1 - at,
    {
        if matches_at(&a, at, &b) {
            return true;
        }
        if at == len {
            return false;
        }
        at = at + 1;
    }
    false
}

/// A text without the white space at its end.
pub open spec fn trimmed_end(s: Seq<char>) -> Seq<char> {
    s.take(drop_space(s, 0, s.len() as int))
}

/// Computes [`trimmed_end`].
pub fn trim_end(s: &str) -> (out: String)
    ensures
        out@ == trimmed_end(s@),
{
    let chars = chars_of(s);
    let mut hi: usize = chars.len();
    while hi > 0 && space_char(chars[hi - 1])
        invariant
            hi <= chars@.len(),
            chars@ == s@,
            drop_space(s@, 0, hi as int) == drop_space(s@, 0, s@.len() as int),
        decreases hi,
    {
        hi = hi - 1;
    }
    let out = string_of(&chars, 0, hi);
    assert(out@ =~= trimmed_end(s@));
    out
}

/// Whether `at` is the first place `needle` stands at in `s`.
pub open spec fn first_at(s: Seq<char>, needle: Seq<char>, at: int) -> bool {
    stands_at(s, at, needle) && forall|k: int| 0 <= k < at ==> !stands_at(s, k, needle)
}

/// The texts before and after the first place `sep` stands at; `None` when it
/// does not occur.
pub open spec fn cut_once(s: Seq<char>, sep: Seq<char>) -> Option<(Seq<char>, Seq<char>)> {
    if holds(s, sep) {
        let at = choose|at: int| first_at(s, sep, at);
        Some((s.take(at), s.skip(at + sep.len())))
    } else {
        None
    }
}

/// Where a first place is, a cut is made there.
pub proof fn lemma_cut_once(s: Seq<char>, sep: Seq<char>, at: int)
    requires
        first_at(s, sep, at),
    ensures
        cut_once(s, sep) == Some((s.take(at), s.skip(at + sep.len()))),
{
    let chosen = choose|k: int| first_at(s, sep, k);
    assert(first_at(s, sep, chosen));
    assert(stands_at(s, at, sep));
    if chosen < at {
        assert(!stands_at(s, chosen, sep));
    }
    if at < chosen {
        assert(!stands_at(s, at, sep));
    }
}

/// Computes [`cut_once`].
pub fn split_once(s: &str, sep: &str) -> (out: Option<(String, String)>)
    ensures
        (match out {
            Some(parts) => Some((parts.0@, parts.1@)),
            None => None,
        }) == cut_once(s@, sep@),
{
    let a = chars_of(s);
    let b = chars_of(sep);
    if b.len() > a.len() {
        return None;
    }
    let len: usize = a.len();
    let last: usize = len - b.len();
    let mut at: usize = 0;
    loop
        invariant
            at <= last,
            last + b@.len() == len,
            len == a@.len(),
            a@ == s@,
            b@ == sep@,
            forall|k: int| 0 <= k < at ==> !stands_at(s@, k, sep@),
        decreases last - at,
    {
        if matches_at(&a, at, &b) {
            proof {
                assert(first_at(s@, sep@, at as int));
                lemma_cut_once(s@, sep@, at as int);
            }
            let head = string_of(&a, 0, at);
            let tail = string_of(&a, at + b.len(), len);
            assert(head@ =~= s@.take(at as int));
            assert(tail@ =~= s@.skip(at + sep@.len()));
            return Some((head, tail));
        }
        if at == last {
            return None;
        }
        at = at + 1;
    }
}

/// Whether `s` ends with `suffix`.
pub open spec fn ends(s: Seq<char>, suffix: Seq<char>) -> bool {
    suffix.len() <= s.len() && s.skip(s.len() - suffix.len()) == suffix
}

/// The part of `s` before `suffix`, when `s` ends with it.
pub fn strip_suffix(s: &str, suffix: &str) -> (rest: Option<String>)
    ensures
        rest is Some <==> ends(s@, suffix@),
        rest matches Some(text) ==> text@ == s@.take(s@.len() - suffix@.len()),
{
    let a = chars_of(s);
    let b = chars_of(suffix);
    if b.len() > a.len() {
        return None;
    }
    let at: usize = a.len() - b.len();
    assert(s@.skip(at as int) =~= s@.subrange(at as int, at + suffix@.len()));
    if matches_at(&a, at, &b) {
        let rest = string_of(&a, 0, at);
        assert(rest@ =~= s@.take(at as int));
        Some(rest)
    } else {
        None
    }
}

/// Trimming the end takes the white space there and nothing else.
pub proof fn trimming_the_end_keeps_the_start(s: Seq<char>) -> (end: int)
    ensures
        0 <= end <= s.len(),
        trimmed_end(s) == s.take(end),
        forall|k: int| end <= k < s.len() ==> is_space(#[trigger] s[k]),
        end > 0 ==> !is_space(s[end - 1]),
{
    lemma_drop_space(s, 0, s.len() as int);
    drop_space(s, 0, s.len() as int)
}

/// Lowering changes ASCII capitals alone, each to its own small letter, and
/// what is lowered stays as it is.
pub proof fn lowering_touches_capitals_alone(s: Seq<char>, i: int)
    requires
        0 <= i < s.len(),
    ensures
        lowered(s).len() == s.len(),
        'A' <= s[i] && s[i] <= 'Z' ==> 'a' <= lowered(s)[i] && lowered(s)[i] <= 'z'
            && lowered(s)[i] as u32 - 'a' as u32 == s[i] as u32 - 'A' as u32,
        !('A' <= s[i] && s[i] <= 'Z') ==> lowered(s)[i] == s[i],
        lowered(lowered(s)) == lowered(s),
{
    assert(lowered(lowered(s)) =~= lowered(s));
}

/// The number that decimal digits stand for.
pub open spec fn numeral_value(digits: Seq<char>) -> int
    decreases digits.len(),
{
    if digits.len() == 0 {
        0
    } else {
        10 * numeral_value(digits.drop_last()) + (digits.last() as u32 - '0' as u32)
    }
}

/// A number is written with digits that stand for it, and without a zero in
/// front.
pub proof fn a_number_is_read_back(n: nat)
    ensures
        numeral_value(decimal(n)) == n,
        decimal(n).len() > 0,
        forall|i: int|
            0 <= i < decimal(n).len() ==> '0' <= #[trigger] decimal(n)[i] && decimal(n)[i] <= '9',
        n > 0 ==> decimal(n)[0] != '0',
    decreases n,
{
    if n < 10 {
        assert(decimal(n).drop_last() =~= Seq::empty());
        assert(numeral_value(decimal(n).drop_last()) == 0);
    } else {
        a_number_is_read_back(n / 10);
        assert(decimal(n).drop_last() =~= decimal(n / 10));
        assert forall|i: int| 0 <= i < decimal(n).len() implies '0' <= #[trigger] decimal(n)[i]
            && decimal(n)[i] <= '9' by {
            if i < decimal(n / 10).len() {
                assert(decimal(n)[i] == decimal(n / 10)[i]);
            }
        }
        assert(decimal(n)[0] == decimal(n / 10)[0]);
    }
}

/// Two texts cut at a separator and put together again are the text, and the
/// separator stands nowhere before the cut.
pub proof fn a_cut_is_at_the_first_separator(s: Seq<char>, sep: Seq<char>)
    requires
        sep.len() > 0,
    ensures
        cut_once(s, sep) is None <==> !(exists|at: int|
            0 <= at && at + sep.len() <= s.len() && #[trigger] s.subrange(at, at + sep.len())
                == sep),
        cut_once(s, sep) matches Some(parts) ==> {
            &&& s == parts.0 + sep + parts.1
            &&& forall|at: int|
                0 <= at < parts.0.len() ==> #[trigger] s.subrange(at, at + sep.len()) != sep
        },
{
    if holds(s, sep) {
        let any = choose|at: int| stands_at(s, at, sep);
        assert(s.subrange(any, any + sep.len()) == sep);
        let at = lemma_first_at(s, sep, any);
        lemma_cut_once(s, sep, at);
        assert(s =~= s.take(at) + sep + s.skip(at + sep.len())) by {
            assert forall|k: int| 0 <= k < s.len() implies s[k] == (s.take(at) + sep + s.skip(
                at + sep.len(),
            ))[k] by {
                if at <= k < at + sep.len() {
                    assert(s.subrange(at, at + sep.len())[k - at] == sep[k - at]);
                }
            }
        }
        assert forall|k: int| 0 <= k < at implies #[trigger] s.subrange(k, k + sep.len()) != sep by {
            assert(!stands_at(s, k, sep));
        }
    } else {
        assert forall|at: int| 0 <= at && at + sep.len() <= s.len() implies #[trigger] s.subrange(
            at,
            at + sep.len(),
        ) != sep by {
            assert(!stands_at(s, at, sep));
        }
    }
}

proof fn lemma_first_at(s: Seq<char>, needle: Seq<char>, at: int) -> (first: int)
    requires
        stands_at(s, at, needle),
    ensures
        first_at(s, needle, first),
        first <= at,
    decreases at,
{
    if exists|k: int| 0 <= k < at && stands_at(s, k, needle) {
        let k = choose|k: int| 0 <= k < at && stands_at(s, k, needle);
        lemma_first_at(s, needle, k)
    } else {
        at
    }
}

/// A text begins with another exactly when it is that text and something after
/// it, and ends with another exactly when it is something and then that text.
pub proof fn ends_of_a_text(s: Seq<char>, part: Seq<char>, rest: Seq<char>)
    ensures
        begins(part + rest, part),
        ends(rest + part, part),
        begins(s, part) ==> s == part + s.skip(part.len() as int),
        ends(s, part) ==> s == s.take(s.len() - part.len()) + part,
{
    assert((part + rest).take(part.len() as int) =~= part);
    assert((rest + part).skip(rest.len() as int) =~= part);
    if begins(s, part) {
        assert(s =~= s.take(part.len() as int) + s.skip(part.len() as int));
    }
    if ends(s, part) {
        let at = s.len() - part.len();
        assert(s =~= s.take(at) + s.skip(at));
    }
}

/// A text holds another exactly when that one stands between two parts of it.
pub proof fn holding_is_standing_between(s: Seq<char>, needle: Seq<char>)
    ensures
        holds(s, needle) <==> exists|left: Seq<char>, right: Seq<char>|
            #![trigger left + needle + right]
            s == left + needle + right,
{
    if holds(s, needle) {
        let at = choose|at: int| stands_at(s, at, needle);
        let (left, right) = (s.take(at), s.skip(at + needle.len()));
        assert forall|k: int| 0 <= k < s.len() implies s[k] == (left + needle + right)[k] by {
            if at <= k < at + needle.len() {
                assert(s.subrange(at, at + needle.len())[k - at] == needle[k - at]);
            }
        }
        assert(s =~= left + needle + right);
    }
    if exists|left: Seq<char>, right: Seq<char>|
        #![trigger left + needle + right]
        s == left + needle + right {
        let (left, right) = choose|left: Seq<char>, right: Seq<char>|
            #![trigger left + needle + right]
            s == left + needle + right;
        assert(s.subrange(left.len() as int, (left.len() + needle.len()) as int) =~= needle);
        assert(stands_at(s, left.len() as int, needle));
    }
}

/// What a part of a text holds, the text holds.
pub proof fn a_part_holds_for_the_whole(
    left: Seq<char>,
    part: Seq<char>,
    right: Seq<char>,
    needle: Seq<char>,
)
    requires
        holds(part, needle),
    ensures
        holds(left + part + right, needle),
{
    holding_is_standing_between(part, needle);
    let (a, b) = choose|a: Seq<char>, b: Seq<char>|
        #![trigger a + needle + b]
        part == a + needle + b;
    let whole = left + part + right;
    assert(whole =~= (left + a) + needle + (b + right));
    holding_is_standing_between(whole, needle);
}

/// White space is these twenty-five characters and no other.
pub proof fn white_space_is_these_characters(c: char)
    ensures
        is_space(c) <==> seq![
            '\t',
            '\n',
            '\u{b}',
            '\u{c}',
            '\r',
            ' ',
            '\u{85}',
            '\u{a0}',
            '\u{1680}',
            '\u{2000}',
            '\u{2001}',
            '\u{2002}',
            '\u{2003}',
            '\u{2004}',
            '\u{2005}',
            '\u{2006}',
            '\u{2007}',
            '\u{2008}',
            '\u{2009}',
            '\u{200a}',
            '\u{2028}',
            '\u{2029}',
            '\u{202f}',
            '\u{205f}',
            '\u{3000}',
        ].contains(c),
{
    let spaces = seq![
        '\t',
        '\n',
        '\u{b}',
        '\u{c}',
        '\r',
        ' ',
        '\u{85}',
        '\u{a0}',
        '\u{1680}',
        '\u{2000}',
        '\u{2001}',
        '\u{2002}',
        '\u{2003}',
        '\u{2004}',
        '\u{2005}',
        '\u{2006}',
        '\u{2007}',
        '\u{2008}',
        '\u{2009}',
        '\u{200a}',
        '\u{2028}',
        '\u{2029}',
        '\u{202f}',
        '\u{205f}',
        '\u{3000}',
    ];
    assert(spaces.len() == 25);
    if is_space(c) {
        let n = c as int;
        let at = if n <= 0xd {
            n - 9
        } else if n == 0x20 {
            5
        } else if n == 0x85 {
            6
        } else if n == 0xa0 {
            7
        } else if n == 0x1680 {
            8
        } else if n <= 0x200a {
            n - 0x2000 + 9
        } else if n == 0x2028 {
            20
        } else if n == 0x2029 {
            21
        } else if n == 0x202f {
            22
        } else if n == 0x205f {
            23
        } else {
            24
        };
        assert(spaces[at] == c);
    }
}

} // verus!
