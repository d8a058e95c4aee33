//! Searching, trimming and numbers in text.

use vstd::prelude::*;
use vstd::slice::slice_subrange;
use vstd::utf8::{decode_utf8, valid_utf8};

verus! {

/// A set of characters.
#[derive(Debug, Clone, Copy, PartialEq, Eq, Structural)]
pub enum Class {
    /// The characters with the property `White_Space`.
    WhiteSpace,
    /// A single character.
    Only(char),
    /// Two characters.
    Either(char, char),
}

/// Whether a character has the property `White_Space`.
pub open spec fn is_white_space(c: char) -> bool {
    let n = c as u32;
    ||| 0x9 <= n <= 0xd
    ||| n == 0x20
    ||| n == 0x85
    ||| n == 0xa0
    ||| n == 0x1680
    ||| 0x2000 <= n <= 0x200a
    ||| n == 0x2028
    ||| n == 0x2029
    ||| n == 0x202f
    ||| n == 0x205f
    ||| n == 0x3000
}

impl Class {
    pub open spec fn has(self, c: char) -> bool {
        match self {
            Class::WhiteSpace => is_white_space(c),
            Class::Only(a) => c == a,
            Class::Either(a, b) => c == a || c == b,
        }
    }

    /// Whether the set holds a character.
    pub fn contains(self, c: char) -> (r: bool)
        ensures
            r == self.has(c),
    {
        match self {
            Class::WhiteSpace => {
                let n: u32 = c as u32;
                (0x9 <= n && n <= 0xd) || n == 0x20 || n == 0x85 || n == 0xa0 || n == 0x1680 || (
                0x2000 <= n && n <= 0x200a) || n == 0x2028 || n == 0x2029 || n == 0x202f || n
                    == 0x205f || n == 0x3000
            },
            Class::Only(a) => c == a,
            Class::Either(a, b) => c == a || c == b,
        }
    }
}

/// The first index from `i` on at which `s` holds a character of the set.
pub open spec fn index_from(s: Seq<char>, class: Class, i: int) -> Option<int>
    decreases s.len() - i,
{
    if i >= s.len() {
        None
    } else if class.has(s[i]) {
        Some(i)
    } else {
        index_from(s, class, i + 1)
    }
}

/// The first index at which `s` holds a character of the set.
pub open spec fn index_of(s: Seq<char>, class: Class) -> Option<int> {
    index_from(s, class, 0)
}

/// `s` without the characters of the set that it begins with.
pub open spec fn trimmed_start(s: Seq<char>, class: Class) -> Seq<char>
    decreases s.len(),
{
    if s.len() > 0 && class.has(s[0]) {
        trimmed_start(s.skip(1), class)
    } else {
        s
    }
}

/// `s` without the characters of the set that it ends with.
pub open spec fn trimmed_end(s: Seq<char>, class: Class) -> Seq<char>
    decreases s.len(),
{
    if s.len() > 0 && class.has(s.last()) {
        trimmed_end(s.drop_last(), class)
    } else {
        s
    }
}

/// `s` without white space at both ends.
pub open spec fn trimmed(s: Seq<char>) -> Seq<char> {
    trimmed_end(trimmed_start(s, Class::WhiteSpace), Class::WhiteSpace)
}

/// Whether `needle` stands in `s` from index `i` on.
pub open spec fn occurs_at(s: Seq<char>, needle: Seq<char>, i: int) -> bool {
    &&& 0 <= i
    &&& i + needle.len() <= s.len()
    &&& s.subrange(i, i + needle.len()) == needle
}

/// The first index from `i` on at which `needle` stands in `s`.
pub open spec fn find_from(s: Seq<char>, needle: Seq<char>, i: int) -> Option<int>
    decreases s.len() + 1 - i,
{
    if i < 0 || i + needle.len() > s.len() {
        None
    } else if occurs_at(s, needle, i) {
        Some(i)
    } else {
        find_from(s, needle, i + 1)
    }
}

/// The first index at which `needle` stands in `s`.
pub open spec fn find_in(s: Seq<char>, needle: Seq<char>) -> Option<int> {
    find_from(s, needle, 0)
}

/// Whether a character is an ASCII digit.
pub open spec fn is_digit(c: char) -> bool {
    '0' <= c <= '9'
}

/// The number that ASCII digits stand for.
pub open spec fn digits_value(s: Seq<char>) -> int
    decreases s.len(),
{
    if s.len() == 0 {
        0
    } else {
        10 * digits_value(s.drop_last()) + (s.last() as u32 - '0' as u32)
    }
}

/// The digits of a number that may have a plus sign in front.
pub open spec fn unsigned_digits(s: Seq<char>) -> Seq<char> {
    if s.len() > 0 && s[0] == '+' {
        s.skip(1)
    } else {
        s
    }
}

/// The number up to `max` that `s` stands for: decimal digits, at least one, and
/// a plus sign in front of them or none.
pub open spec fn number(s: Seq<char>, max: int) -> Option<int> {
    let digits = unsigned_digits(s);
    if digits.len() > 0 && (forall|i: int| 0 <= i < digits.len() ==> is_digit(#[trigger] digits[i]))
        && digits_value(digits) <= max {
        Some(digits_value(digits))
    } else {
        None
    }
}

/// The decimal digits of a number.
pub open spec fn decimal(n: nat) -> Seq<char>
    decreases n,
{
    if n < 10 {
        seq![digit(n)]
    } else {
        decimal(n / 10).push(digit(n % 10))
    }
}

/// The digit of a number below 10.
pub open spec fn digit(n: nat) -> char {
    if n == 0 {
        '0'
    } else if n == 1 {
        '1'
    } else if n == 2 {
        '2'
    } else if n == 3 {
        '3'
    } else if n == 4 {
        '4'
    } else if n == 5 {
        '5'
    } else if n == 6 {
        '6'
    } else if n == 7 {
        '7'
    } else if n == 8 {
        '8'
    } else {
        '9'
    }
}

/// The hexadecimal digits of a number, in lower case.
pub open spec fn hexadecimal(n: nat) -> Seq<char>
    decreases n,
{
    if n < 16 {
        seq![hex_digit(n)]
    } else {
        hexadecimal(n / 16).push(hex_digit(n % 16))
    }
}

/// The hexadecimal digit of a number below 16.
pub open spec fn hex_digit(n: nat) -> char {
    if n < 10 {
        digit(n)
    } else if n == 10 {
        'a'
    } else if n == 11 {
        'b'
    } else if n == 12 {
        'c'
    } else if n == 13 {
        'd'
    } else if n == 14 {
        'e'
    } else {
        'f'
    }
}

/// `String::from_iter`, over the characters of a slice, returns the string that
/// holds these characters in their order.
#[verifier::external_body]
pub(crate) fn string_from_chars(chars: &[char]) -> (s: String)
    ensures
        s@ == chars@,
{
    String::from_iter(chars)
}

/// What `String::from_utf8_lossy` makes of bytes.
pub uninterp spec fn utf8_lossy(bytes: Seq<u8>) -> Seq<char>;

/// `String::from_utf8_lossy` returns a text that depends on the bytes alone. Bytes
/// that are UTF-8 give the text that they encode.
#[verifier::external_body]
pub(crate) fn decode_lossy(bytes: &[u8]) -> (s: String)
    ensures
        s@ == utf8_lossy(bytes@),
        valid_utf8(bytes@) ==> s@ == decode_utf8(bytes@),
{
    String::from_utf8_lossy(bytes).into_owned()
}

/// The characters of a string.
pub fn chars_of(s: &str) -> (chars: Vec<char>)
    ensures
        chars@ == s@,
{
    let mut chars: Vec<char> = Vec::new();
    for c in it: s.chars()
        invariant
            it.seq() == s@,
            chars@ == s@.take(it.index()),
    {
        chars.push(c);
        assert(chars@ =~= s@.take(it.index() + 1));
    }
    assert(s@.take(s@.len() as int) =~= s@);
    chars
}

/// The last index below `n` at which `s` holds `c`.
pub open spec fn last_index_below(s: Seq<char>, c: char, n: int) -> Option<int>
    decreases n,
{
    if n <= 0 {
        None
    } else if s[n - 1] == c {
        Some(n - 1)
    } else {
        last_index_below(s, c, n - 1)
    }
}

/// The last index at which `s` holds `c`.
pub open spec fn last_index_of(s: Seq<char>, c: char) -> Option<int> {
    last_index_below(s, c, s.len() as int)
}

/// What follows the last `c` in `s`; all of `s` if there is none.
pub open spec fn after_last(s: Seq<char>, c: char) -> Seq<char> {
    match last_index_of(s, c) {
        Some(i) => s.skip(i + 1),
        None => s,
    }
}

/// What follows the last `c` in the slice; all of it if there is none.
pub fn rest_after_last(s: &[char], c: char) -> (r: &[char])
    ensures
        r@ == after_last(s@, c),
{
    let mut n: usize = s.len();
    while n > 0
        invariant
            n <= s@.len(),
            last_index_of(s@, c) == last_index_below(s@, c, n as int),
        decreases n,
    {
        if s[n - 1] == c {
            let len: usize = s.len();
            let r = slice_subrange(s, n, len);
            assert(r@ =~= s@.skip(n as int));
            return r;
        }
        n = n - 1;
    }
    s
}

/// Whether two slices hold the same characters.
pub fn equal(a: &[char], b: &[char]) -> (r: bool)
    ensures
        r == (a@ == b@),
{
    if a.len() != b.len() {
        return false;
    }
    let r: bool = stands_at(a, b, 0);
    assert(a@.subrange(0, a@.len() as int) =~= a@);
    r
}

/// The first index at which the slice holds a character of the set.
pub fn position(s: &[char], class: Class) -> (r: Option<usize>)
    ensures
        r is Some <==> index_of(s@, class) is Some,
        r matches Some(i) ==> index_of(s@, class) == Some(i as int) && i < s@.len(),
{
    let mut i: usize = 0;
    while i < s.len()
        invariant
            i <= s@.len(),
            index_of(s@, class) == index_from(s@, class, i as int),
        decreases s@.len() - i,
    {
        if class.contains(s[i]) {
            return Some(i);
        }
        i = i + 1;
    }
    None
}

/// The slice without the characters of the set that it begins with.
pub fn trim_start_of(s: &[char], class: Class) -> (r: &[char])
    ensures
        r@ == trimmed_start(s@, class),
{
    let mut i: usize = 0;
    assert(s@.skip(0) =~= s@);
    while i < s.len() && class.contains(s[i])
        invariant
            i <= s@.len(),
            trimmed_start(s@, class) == trimmed_start(s@.skip(i as int), class),
        decreases s@.len() - i,
    {
        assert(s@.skip(i as int).skip(1) =~= s@.skip(i + 1));
        i = i + 1;
    }
    let r = slice_subrange(s, i, s.len());
    assert(r@ =~= s@.skip(i as int));
    r
}

/// The slice without the characters of the set that it ends with.
pub fn trim_end_of(s: &[char], class: Class) -> (r: &[char])
    ensures
        r@ == trimmed_end(s@, class),
{
    let mut n: usize = s.len();
    assert(s@.take(n as int) =~= s@);
    while n > 0 && class.contains(s[n - 1])
        invariant
            n <= s@.len(),
            trimmed_end(s@, class) == trimmed_end(s@.take(n as int), class),
        decreases n,
    {
        assert(s@.take(n as int).drop_last() =~= s@.take(n - 1));
        n = n - 1;
    }
    let r = slice_subrange(s, 0, n);
    assert(r@ =~= s@.take(n as int));
    r
}

/// The slice without white space at both ends.
pub fn trim(s: &[char]) -> (r: &[char])
    ensures
        r@ == trimmed(s@),
{
    trim_end_of(trim_start_of(s, Class::WhiteSpace), Class::WhiteSpace)
}

fn stands_at(s: &[char], needle: &[char], i: usize) -> (r: bool)
    requires
        i + needle@.len() <= s@.len(),
    ensures
        r == occurs_at(s@, needle@, i as int),
{
    let len: usize = s.len();
    let mut j: usize = 0;
    while j < needle.len()
        invariant
            len == s@.len(),
            i + needle@.len() <= s@.len(),
            j <= needle@.len(),
            forall|k: int| 0 <= k < j ==> s@[i + k] == needle@[k],
        decreases needle@.len() - j,
    {
        if s[i + j] != needle[j] {
            assert(s@.subrange(i as int, i + needle@.len())[j as int] != needle@[j as int]);
            return false;
        }
        j = j + 1;
    }
    assert(s@.subrange(i as int, i + needle@.len()) =~= needle@);
    true
}

/// The first index at which `needle` stands in the slice.
pub fn find(s: &[char], needle: &[char]) -> (r: Option<usize>)
    ensures
        r is Some <==> find_in(s@, needle@) is Some,
        r matches Some(i) ==> find_in(s@, needle@) == Some(i as int) && i + needle@.len()
            <= s@.len(),
{
    if needle.len() > s.len() {
        return None;
    }
    let mut i: usize = 0;
    loop
        invariant
            i + needle@.len() <= s@.len(),
            find_in(s@, needle@) == find_from(s@, needle@, i as int),
        decreases s@.len() - i,
    {
        if stands_at(s, needle, i) {
            return Some(i);
        }
        if i == s.len() - needle.len() {
            assert(find_from(s@, needle@, i + 1) is None);
            return None;
        }
        i = i + 1;
    }
}

/// Whether `needle` stands somewhere in the slice.
pub fn contains(s: &[char], needle: &[char]) -> (r: bool)
    ensures
        r == (find_in(s@, needle@) is Some),
{
    match find(s, needle) {
        Some(_) => true,
        None => false,
    }
}

/// A number does not shrink when digits are added.
proof fn lemma_digits_grow(s: Seq<char>, n: int)
    requires
        0 <= n <= s.len(),
        forall|i: int| 0 <= i < s.len() ==> is_digit(#[trigger] s[i]),
    ensures
        0 <= digits_value(s.take(n)) <= digits_value(s),
    decreases s.len(),
{
    if s.len() > 0 {
        if n == s.len() {
            assert(s.take(n) =~= s);
            lemma_digits_grow(s.drop_last(), n - 1);
        } else {
            assert(s.drop_last().take(n) =~= s.take(n));
            lemma_digits_grow(s.drop_last(), n);
        }
    } else {
        assert(s.take(n) =~= s);
    }
}

/// The number up to `max` that the slice stands for.
pub fn parse(s: &[char], max: u64) -> (r: Option<u64>)
    ensures
        r is Some <==> number(s@, max as int) is Some,
        r matches Some(n) ==> number(s@, max as int) == Some(n as int),
{
    let digits = if s.len() > 0 && s[0] == '+' {
        slice_subrange(s, 1, s.len())
    } else {
        s
    };
    assert(digits@ =~= unsigned_digits(s@));
    if digits.len() == 0 {
        return None;
    }
    let mut value: u64 = 0;
    let mut i: usize = 0;
    while i < digits.len()
        invariant
            i <= digits@.len(),
            digits@ == unsigned_digits(s@),
            value <= max,
            value == digits_value(digits@.take(i as int)),
            forall|j: int| 0 <= j < i ==> is_digit(#[trigger] digits@[j]),
        decreases digits@.len() - i,
    {
        let c: char = digits[i];
        if c < '0' || c > '9' {
            assert(!is_digit(digits@[i as int]));
            return None;
        }
        let d: u64 = c as u64 - '0' as u64;
        assert(digits@.take(i + 1).drop_last() =~= digits@.take(i as int));
        assert(digits_value(digits@.take(i + 1)) == 10 * value + d);
        if value > (u64::MAX - d) / 10 || 10 * value + d > max {
            proof {
                if forall|j: int| 0 <= j < digits@.len() ==> is_digit(#[trigger] digits@[j]) {
                    lemma_digits_grow(digits@, i + 1);
                }
            }
            return None;
        }
        value = 10 * value + d;
        i = i + 1;
    }
    assert(digits@.take(i as int) =~= digits@);
    Some(value)
}

fn digit_char(n: u64) -> (c: char)
    requires
        n < 10,
    ensures
        c == digit(n as nat),
{
    if n == 0 {
        '0'
    } else if n == 1 {
        '1'
    } else if n == 2 {
        '2'
    } else if n == 3 {
        '3'
    } else if n == 4 {
        '4'
    } else if n == 5 {
        '5'
    } else if n == 6 {
        '6'
    } else if n == 7 {
        '7'
    } else if n == 8 {
        '8'
    } else {
        '9'
    }
}

fn decimal_chars(n: u64) -> (chars: Vec<char>)
    ensures
        chars@ == decimal(n as nat),
    decreases n,
{
    if n < 10 {
        let mut chars: Vec<char> = Vec::new();
        chars.push(digit_char(n));
        assert(chars@ =~= decimal(n as nat));
        chars
    } else {
        let mut chars: Vec<char> = decimal_chars(n / 10);
        chars.push(digit_char(n % 10));
        chars
    }
}

/// The decimal digits of a number.
pub fn to_decimal(n: u64) -> (s: String)
    ensures
        s@ == decimal(n as nat),
{
    let chars: Vec<char> = decimal_chars(n);
    string_from_chars(chars.as_slice())
}

fn hex_chars(n: u64) -> (chars: Vec<char>)
    ensures
        chars@ == hexadecimal(n as nat),
    decreases n,
{
    let low: u64 = n % 16;
    let c: char = if low < 10 {
        digit_char(low)
    } else if low == 10 {
        'a'
    } else if low == 11 {
        'b'
    } else if low == 12 {
        'c'
    } else if low == 13 {
        'd'
    } else if low == 14 {
        'e'
    } else {
        'f'
    };
    let mut chars: Vec<char> = if n < 16 {
        Vec::new()
    } else {
        hex_chars(n / 16)
    };
    chars.push(c);
    assert(chars@ =~= hexadecimal(n as nat));
    chars
}

/// The hexadecimal digits of a number, in lower case.
pub fn to_hexadecimal(n: u64) -> (s: String)
    ensures
        s@ == hexadecimal(n as nat),
{
    let chars: Vec<char> = hex_chars(n);
    string_from_chars(chars.as_slice())
}

/// The decimal digits of a number stand for that number.
pub proof fn law_decimal_is_read_back(n: nat, max: int)
    requires
        n <= max,
    ensures
        number(decimal(n), max) == Some(n as int),
{
    lemma_decimal(n);
}

/// The digits of a number are digits, at least one, and stand for the number.
pub proof fn lemma_decimal(n: nat)
    ensures
        decimal(n).len() > 0,
        forall|i: int| 0 <= i < decimal(n).len() ==> is_digit(#[trigger] decimal(n)[i]),
        digits_value(decimal(n)) == n,
    decreases n,
{
    if n < 10 {
        reveal_with_fuel(digits_value, 2);
        assert(decimal(n).drop_last() =~= Seq::<char>::empty());
    } else {
        lemma_decimal(n / 10);
        assert(decimal(n).drop_last() =~= decimal(n / 10));
    }
}

/// Text that begins and ends without white space is kept by trimming.
pub proof fn lemma_trimmed_keeps(s: Seq<char>)
    requires
        s.len() > 0,
        !is_white_space(s[0]),
        !is_white_space(s.last()),
    ensures
        trimmed(s) == s,
{
}

/// The first character of the set is the one that no other stands before.
pub proof fn lemma_index_is(s: Seq<char>, class: Class, from: int, i: int)
    requires
        0 <= from <= i < s.len(),
        class.has(s[i]),
        forall|j: int| from <= j < i ==> !class.has(#[trigger] s[j]),
    ensures
        index_from(s, class, from) == Some(i),
    decreases i - from,
{
    if from < i {
        lemma_index_is(s, class, from + 1, i);
    }
}

/// Without a character of the set there is no first one.
pub proof fn lemma_index_none(s: Seq<char>, class: Class, from: int)
    requires
        0 <= from,
        forall|j: int| from <= j < s.len() ==> !class.has(#[trigger] s[j]),
    ensures
        index_from(s, class, from) is None,
    decreases s.len() - from,
{
    if from < s.len() {
        lemma_index_none(s, class, from + 1);
    }
}

/// The characters of `needle` stand one after the other in `s` from index `i` on.
pub open spec fn reads_at(s: Seq<char>, needle: Seq<char>, i: int) -> bool {
    &&& 0 <= i <= s.len() - needle.len()
    &&& forall|k: int| 0 <= k < needle.len() ==> s[i + k] == #[trigger] needle[k]
}

proof fn lemma_reads_at(s: Seq<char>, needle: Seq<char>, i: int)
    ensures
        reads_at(s, needle, i) <==> occurs_at(s, needle, i),
{
    if reads_at(s, needle, i) {
        assert(s.subrange(i, i + needle.len()) =~= needle);
    }
    if occurs_at(s, needle, i) {
        assert forall|k: int| 0 <= k < needle.len() implies s[i + k] == #[trigger] needle[k] by {
            assert(s.subrange(i, i + needle.len())[k] == s[i + k]);
        }
    }
}

proof fn lemma_find_from(s: Seq<char>, needle: Seq<char>, from: int)
    requires
        0 <= from,
    ensures
        match find_from(s, needle, from) {
            Some(i) => from <= i && occurs_at(s, needle, i) && forall|j: int|
                from <= j < i ==> !#[trigger] occurs_at(s, needle, j),
            None => forall|j: int| from <= j ==> !#[trigger] occurs_at(s, needle, j),
        },
    decreases s.len() + 1 - from,
{
    if from + needle.len() <= s.len() && !occurs_at(s, needle, from) {
        lemma_find_from(s, needle, from + 1);
        assert forall|j: int| from <= j && (find_from(s, needle, from) matches Some(i) ==> j
            < i) implies !#[trigger] occurs_at(s, needle, j) by {
            if j > from {
                assert(from + 1 <= j);
            }
        }
    }
}

/// A text is found where it stands first, and nowhere if it does not stand anywhere.
pub proof fn law_find_is_first(s: Seq<char>, needle: Seq<char>)
    ensures
        match find_in(s, needle) {
            Some(i) => reads_at(s, needle, i) && forall|j: int|
                0 <= j < i ==> !#[trigger] reads_at(s, needle, j),
            None => forall|j: int| !#[trigger] reads_at(s, needle, j),
        },
{
    lemma_find_from(s, needle, 0);
    match find_in(s, needle) {
        Some(i) => {
            lemma_reads_at(s, needle, i);
            assert forall|j: int| 0 <= j < i implies !#[trigger] reads_at(s, needle, j) by {
                lemma_reads_at(s, needle, j);
                assert(!occurs_at(s, needle, j));
            }
        },
        None => {
            assert forall|j: int| !#[trigger] reads_at(s, needle, j) by {
                lemma_reads_at(s, needle, j);
            }
        },
    }
}

/// A text that stands at an index and at none before it is found there.
pub proof fn lemma_find_is(s: Seq<char>, needle: Seq<char>, i: int)
    requires
        reads_at(s, needle, i),
        forall|j: int| 0 <= j < i ==> !#[trigger] reads_at(s, needle, j),
    ensures
        find_in(s, needle) == Some(i),
{
    law_find_is_first(s, needle);
    match find_in(s, needle) {
        Some(j) => {
            if j < i {
                assert(!reads_at(s, needle, j));
            }
            if i < j {
                assert(!reads_at(s, needle, i));
            }
        },
        None => {
            assert(!reads_at(s, needle, i));
        },
    }
}

/// The first index of a character of a set has one, and no index before it does.
pub proof fn law_index_is_first(s: Seq<char>, class: Class, from: int)
    requires
        0 <= from,
    ensures
        match index_from(s, class, from) {
            Some(i) => from <= i < s.len() && class.has(s[i]) && forall|j: int|
                from <= j < i ==> !class.has(#[trigger] s[j]),
            None => forall|j: int| from <= j < s.len() ==> !class.has(#[trigger] s[j]),
        },
    decreases s.len() - from,
{
    if from < s.len() {
        law_index_is_first(s, class, from + 1);
    }
}

/// Trimming the start takes off the characters of the set up to the first other one.
pub proof fn law_trimming_start(s: Seq<char>, class: Class, i: int)
    requires
        0 <= i <= s.len(),
        forall|j: int| 0 <= j < i ==> class.has(#[trigger] s[j]),
        i < s.len() ==> !class.has(s[i]),
    ensures
        trimmed_start(s, class) == s.skip(i),
    decreases i,
{
    if i > 0 {
        assert(class.has(s[0]));
        let rest = s.skip(1);
        assert forall|j: int| 0 <= j < i - 1 implies class.has(#[trigger] rest[j]) by {
            assert(class.has(s[j + 1]));
        }
        law_trimming_start(rest, class, i - 1);
        assert(rest.skip(i - 1) =~= s.skip(i));
    } else {
        assert(s.skip(0) =~= s);
    }
}

/// Trimming the end takes off the characters of the set after the last other one.
pub proof fn law_trimming_end(s: Seq<char>, class: Class, n: int)
    requires
        0 <= n <= s.len(),
        forall|j: int| n <= j < s.len() ==> class.has(#[trigger] s[j]),
        n > 0 ==> !class.has(s[n - 1]),
    ensures
        trimmed_end(s, class) == s.take(n),
    decreases s.len() - n,
{
    if n < s.len() {
        assert(class.has(s[s.len() - 1]));
        let front = s.drop_last();
        assert forall|j: int| n <= j < front.len() implies class.has(#[trigger] front[j]) by {
            assert(class.has(s[j]));
        }
        law_trimming_end(front, class, n);
        assert(front.take(n) =~= s.take(n));
    } else {
        assert(s.take(n) =~= s);
    }
}

/// What follows the last of a character: after the text before it and the character, a text
/// without the character is what follows; a text without the character is kept.
pub proof fn law_rest_follows_the_last(before: Seq<char>, c: char, rest: Seq<char>)
    requires
        !rest.contains(c),
    ensures
        after_last(before.push(c) + rest, c) == rest,
        after_last(rest, c) == rest,
        last_index_of(before.push(c) + rest, c) == Some(before.len() as int),
        last_index_of(rest, c) is None,
{
    let s = before.push(c) + rest;
    assert forall|j: int| before.len() < j < s.len() implies #[trigger] s[j] != c by {
        assert(rest.contains(rest[j - before.len() - 1]));
    }
    lemma_last_index(s, c, s.len() as int, before.len() as int);
    assert(s.skip((before.len() + 1) as int) =~= rest);
    lemma_no_last_index(rest, c, rest.len() as int);
}

proof fn lemma_last_index(s: Seq<char>, c: char, n: int, i: int)
    requires
        0 <= i < n <= s.len(),
        s[i] == c,
        forall|j: int| i < j < n ==> #[trigger] s[j] != c,
    ensures
        last_index_below(s, c, n) == Some(i),
    decreases n,
{
    if i < n - 1 {
        assert(s[n - 1] != c);
        lemma_last_index(s, c, n - 1, i);
    }
}

proof fn lemma_no_last_index(s: Seq<char>, c: char, n: int)
    requires
        0 <= n <= s.len(),
        !s.contains(c),
    ensures
        last_index_below(s, c, n) is None,
    decreases n,
{
    if n > 0 {
        assert(s.contains(s[n - 1]));
        lemma_no_last_index(s, c, n - 1);
    }
}

/// A digit at the end of a number makes it ten times as large and adds the digit.
pub proof fn law_digits_are_read_in_order(s: Seq<char>, c: char, max: int)
    requires
        s.len() > 0,
        '0' <= c <= '9',
    ensures
        match number(s, max) {
            Some(n) => number(s.push(c), max) == if 10 * n + (c as u32 - 0x30) <= max {
                Some(10 * n + (c as u32 - 0x30))
            } else {
                None
            },
            None => number(s.push(c), max) is None || s == seq!['+'],
        },
{
    let t = s.push(c);
    let (d, f) = (unsigned_digits(s), unsigned_digits(t));
    assert(t[0] == s[0]);
    assert(f =~= d.push(c));
    assert(f.drop_last() =~= d);
    assert(is_digit(c));
    if number(s, max) is Some {
        assert forall|i: int| 0 <= i < f.len() implies is_digit(#[trigger] f[i]) by {
            if i < d.len() {
                assert(is_digit(d[i]));
            }
        }
    } else if number(t, max) is Some {
        assert forall|i: int| 0 <= i < d.len() implies is_digit(#[trigger] d[i]) by {
            assert(is_digit(f[i]));
        }
        lemma_digits_grow(f, d.len() as int);
        assert(f.take(d.len() as int) =~= d);
        if d.len() == 0 {
            assert(s =~= seq!['+']);
        }
    }
}

/// A number is made of digits, at least one, with one plus sign in front of them or none. A
/// single digit stands for itself.
pub proof fn law_numbers_are_digits(s: Seq<char>, max: int)
    ensures
        number(Seq::empty(), max) is None,
        number(seq!['+'], max) is None,
        s.len() > 0 && s[0] != '+' ==> number(seq!['+'] + s, max) == number(s, max),
        number(s, max) is Some ==> forall|i: int|
            0 <= i < s.len() ==> '0' <= #[trigger] s[i] <= '9' || i == 0 && s[0] == '+',
        s.len() == 1 && '0' <= s[0] <= '9' && max >= 9 ==> number(s, max) == Some(
            s[0] as u32 - 0x30,
        ),
        number(s, max) matches Some(n) ==> 0 <= n <= max,
{
    let plus = seq!['+'];
    assert(plus.skip(1) =~= Seq::<char>::empty());
    assert(unsigned_digits(plus + s) =~= s);
    let d = unsigned_digits(s);
    if number(s, max) is Some {
        assert forall|i: int| 0 <= i < s.len() implies '0' <= #[trigger] s[i] <= '9' || i == 0
            && s[0] == '+' by {
            if s[0] == '+' && i > 0 {
                assert(d[i - 1] == s[i]);
                assert(is_digit(d[i - 1]));
            } else if s[0] != '+' {
                assert(is_digit(d[i]));
            }
        }
        lemma_digits_grow(d, 0);
    }
    if s.len() == 1 && '0' <= s[0] <= '9' {
        reveal_with_fuel(digits_value, 2);
        assert(d == s);
        assert(forall|i: int| 0 <= i < d.len() ==> is_digit(#[trigger] d[i]));
        assert(d.drop_last() =~= Seq::<char>::empty());
    }
}

/// The digits of a number: its value comes back when each digit is added to ten times what
/// came before, and a number from 10 on does not begin with a zero.
pub proof fn law_decimal_digits(n: nat)
    ensures
        decimal(n).len() > 0,
        decimal(n).fold_left(0, |v: int, c: char| 10 * v + (c as u32 - 0x30)) == n,
        n > 0 ==> decimal(n)[0] != '0',
        forall|i: int| 0 <= i < decimal(n).len() ==> '0' <= #[trigger] decimal(n)[i] <= '9',
    decreases n,
{
    let f = |v: int, c: char| 10 * v + (c as u32 - 0x30);
    if n < 10 {
        reveal_with_fuel(Seq::fold_left, 2);
        assert(decimal(n).drop_last() =~= Seq::<char>::empty());
    } else {
        law_decimal_digits(n / 10);
        assert(decimal(n).drop_last() =~= decimal(n / 10));
    }
}

/// What a hexadecimal digit stands for.
pub open spec fn hex_value(c: char) -> int {
    if '0' <= c <= '9' {
        c as u32 - 0x30
    } else {
        c as u32 - 0x57
    }
}

/// The hexadecimal digits of a number: its value comes back when each digit is added to
/// sixteen times what came before, and a number from 16 on does not begin with a zero.
pub proof fn law_hexadecimal_digits(n: nat)
    ensures
        hexadecimal(n).len() > 0,
        hexadecimal(n).fold_left(0, |v: int, c: char| 16 * v + hex_value(c)) == n,
        n > 0 ==> hexadecimal(n)[0] != '0',
        forall|i: int|
            0 <= i < hexadecimal(n).len() ==> '0' <= #[trigger] hexadecimal(n)[i] <= '9' || 'a'
                <= hexadecimal(n)[i] <= 'f',
    decreases n,
{
    let f = |v: int, c: char| 16 * v + hex_value(c);
    if n < 16 {
        reveal_with_fuel(Seq::fold_left, 2);
        assert(hexadecimal(n).drop_last() =~= Seq::<char>::empty());
    } else {
        law_hexadecimal_digits(n / 16);
        assert(hexadecimal(n).drop_last() =~= hexadecimal(n / 16));
    }
}

/// Trimming takes the white space off both ends of a text and nothing else.
pub proof fn law_trimming_takes_white_space(front: Seq<char>, s: Seq<char>, back: Seq<char>)
    requires
        forall|i: int| 0 <= i < front.len() ==> is_white_space(#[trigger] front[i]),
        forall|i: int| 0 <= i < back.len() ==> is_white_space(#[trigger] back[i]),
        s.len() > 0,
        !is_white_space(s[0]),
        !is_white_space(s.last()),
    ensures
        trimmed(front + s + back) == s,
        trimmed(front) == Seq::<char>::empty(),
{
    let white = Class::WhiteSpace;
    let all = front + s + back;
    let n = front.len() as int;
    assert forall|j: int| 0 <= j < n implies white.has(#[trigger] all[j]) by {
        assert(is_white_space(front[j]));
    }
    assert(all[n] == s[0]);
    law_trimming_start(all, white, n);
    let rest = all.skip(n);
    assert(rest =~= s + back);
    let m = s.len() as int;
    assert forall|j: int| m <= j < rest.len() implies white.has(#[trigger] rest[j]) by {
        assert(is_white_space(back[j - m]));
    }
    assert(rest[m - 1] == s.last());
    law_trimming_end(rest, white, m);
    assert(rest.take(m) =~= s);
    law_trimming_start(front, white, n);
    assert(front.skip(n) =~= Seq::<char>::empty());
}

} // verus!
