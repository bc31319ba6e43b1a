//! Texts as lists of characters: finding, cutting, trimming and reading them.

use vstd::prelude::*;
use vstd::string::*;

use crate::text;

verus! {

/// Whether a character is white space.
pub open spec fn is_space(c: char) -> bool {
    let v = c as int;
    ||| 0x9 <= v <= 0xD
    ||| v == 0x20
    ||| v == 0x85
    ||| v == 0xA0
    ||| v == 0x1680
    ||| 0x2000 <= v <= 0x200A
    ||| v == 0x2028
    ||| v == 0x2029
    ||| v == 0x202F
    ||| v == 0x205F
    ||| v == 0x3000
}

/// Whether a character is white space.
pub fn space(c: char) -> (r: bool)
    ensures
        r == is_space(c),
{
    ('\u{9}' <= c && c <= '\u{D}') || c == '\u{20}' || c == '\u{85}' || c == '\u{A0}' || c
        == '\u{1680}' || ('\u{2000}' <= c && c <= '\u{200A}') || c == '\u{2028}' || c == '\u{2029}'
        || c == '\u{202F}' || c == '\u{205F}' || c == '\u{3000}'
}

/// A text without the white space at its start.
pub open spec fn trimmed_start(s: Seq<char>) -> Seq<char>
    decreases s.len(),
{
    if s.len() > 0 && is_space(s[0]) {
        trimmed_start(s.drop_first())
    } else {
        s
    }
}

/// A text without the white space at its end.
pub open spec fn trimmed_end(s: Seq<char>) -> Seq<char>
    decreases s.len(),
{
    if s.len() > 0 && is_space(s.last()) {
        trimmed_end(s.drop_last())
    } else {
        s
    }
}

/// A text without the white space at its ends.
pub open spec fn trimmed(s: Seq<char>) -> Seq<char> {
    trimmed_end(trimmed_start(s))
}

/// A part of a list.
pub fn part(s: &Vec<char>, a: usize, b: usize) -> (r: Vec<char>)
    requires
        a <= b <= s.len(),
    ensures
        r@ == s@.subrange(a as int, b as int),
{
    let mut out: Vec<char> = Vec::new();
    let mut i: usize = a;
    while i < b
        invariant
            a <= i <= b <= s.len(),
            out@ == s@.subrange(a as int, i as int),
        decreases b - i,
    {
        out.push(s[i]);
        i += 1;
        assert(s@.subrange(a as int, i as int) =~= s@.subrange(a as int, i - 1).push(s@[i - 1]));
    }
    out
}

/// A text without the white space at its ends.
pub fn trim(s: &Vec<char>) -> (r: Vec<char>)
    ensures
        r@ == trimmed(s@),
{
    let mut a: usize = 0;
    assert(s@.skip(0) =~= s@);
    while a < s.len() && space(s[a])
        invariant
            a <= s.len(),
            trimmed_start(s@) == trimmed_start(s@.skip(a as int)),
        decreases s.len() - a,
    {
        assert(s@.skip(a as int).drop_first() =~= s@.skip(a + 1));
        a += 1;
    }
    let mut b: usize = s.len();
    assert(s@.skip(a as int) =~= s@.subrange(a as int, b as int));
    while b > a && space(s[b - 1])
        invariant
            a <= b <= s.len(),
            trimmed(s@) == trimmed_end(s@.subrange(a as int, b as int)),
        decreases b - a,
    {
        assert(s@.subrange(a as int, b as int).drop_last() =~= s@.subrange(a as int, b - 1));
        b -= 1;
    }
    part(s, a, b)
}

/// A text without a character at its end, however often it stands there.
pub open spec fn without_end(s: Seq<char>, c: char) -> Seq<char>
    decreases s.len(),
{
    if s.len() > 0 && s.last() == c {
        without_end(s.drop_last(), c)
    } else {
        s
    }
}

/// A text without a character at its end, however often it stands there.
pub fn trim_end_char(s: &Vec<char>, c: char) -> (r: Vec<char>)
    ensures
        r@ == without_end(s@, c),
{
    let mut b: usize = s.len();
    assert(s@.take(b as int) =~= s@);
    while b > 0 && s[b - 1] == c
        invariant
            b <= s.len(),
            without_end(s@, c) == without_end(s@.take(b as int), c),
        decreases b,
    {
        assert(s@.take(b as int).drop_last() =~= s@.take(b - 1));
        b -= 1;
    }
    assert(s@.take(b as int) =~= s@.subrange(0, b as int));
    part(s, 0, b)
}

/// Whether a text starts with another.
pub open spec fn begins(s: Seq<char>, p: Seq<char>) -> bool {
    p.len() <= s.len() && s.take(p.len() as int) == p
}

/// Whether a text stands in another at a place.
pub open spec fn stands_at(s: Seq<char>, p: Seq<char>, i: int) -> bool {
    0 <= i && i + p.len() <= s.len() && s.subrange(i, i + p.len()) == p
}

/// Whether a text stands in another at a place.
pub fn at(s: &Vec<char>, p: &Vec<char>, i: usize) -> (r: bool)
    ensures
        r == stands_at(s@, p@, i as int),
{
    if i > s.len() || p.len() > s.len() - i {
        return false;
    }
    let mut j: usize = 0;
    while j < p.len()
        invariant
            j <= p.len(),
            i + p.len() <= s.len(),
            forall|k: int| 0 <= k < j ==> s@[i + k] == #[trigger] p@[k],
        decreases p.len() - j,
    {
        if s[i + j] != p[j] {
            assert(s@.subrange(i as int, i + p@.len())[j as int] != p@[j as int]);
            return false;
        }
        j += 1;
    }
    assert(s@.subrange(i as int, i + p@.len()) =~= p@);
    true
}

/// Whether a text starts with another.
pub fn starts_with(s: &Vec<char>, p: &Vec<char>) -> (r: bool)
    ensures
        r == begins(s@, p@),
{
    proof {
        if p@.len() <= s@.len() {
            assert(s@.subrange(0, p@.len() as int) =~= s@.take(p@.len() as int));
        }
    }
    at(s, p, 0)
}

/// The first place of a text in another, from a place on.
pub open spec fn found_from(s: Seq<char>, p: Seq<char>, i: int) -> Option<nat>
    decreases s.len() + 1 - i,
{
    if i < 0 || i + p.len() > s.len() {
        None
    } else if s.subrange(i, i + p.len()) == p {
        Some(i as nat)
    } else {
        found_from(s, p, i + 1)
    }
}

/// The first place of a text in another.
pub open spec fn found(s: Seq<char>, p: Seq<char>) -> Option<nat> {
    found_from(s, p, 0)
}

/// A found place is within the text, and the first.
pub proof fn lemma_found(s: Seq<char>, p: Seq<char>, i: int)
    requires
        0 <= i,
    ensures
        found_from(s, p, i) matches Some(n) ==> i <= n && n + p.len() <= s.len() && s.subrange(
            n as int,
            (n + p.len()) as int,
        ) == p,
        found_from(s, p, i) is None ==> forall|j: int| i <= j ==> !stands_at(s, p, j),
        found_from(s, p, i) matches Some(n) ==> forall|j: int| i <= j < n ==> !stands_at(s, p, j),
    decreases s.len() + 1 - i,
{
    if i + p.len() <= s.len() && s.subrange(i, i + p.len()) != p {
        lemma_found(s, p, i + 1);
    }
}

/// The first place of a text in another.
pub fn find(s: &Vec<char>, p: &Vec<char>) -> (r: Option<usize>)
    ensures
        match r {
            Some(n) => found(s@, p@) == Some(n as nat) && n + p.len() <= s.len(),
            None => found(s@, p@) is None,
        },
{
    if p.len() > s.len() {
        return None;
    }
    let last: usize = s.len() - p.len();
    let mut i: usize = 0;
    loop
        invariant
            i <= last,
            last + p.len() == s.len(),
            found(s@, p@) == found_from(s@, p@, i as int),
        decreases last - i,
    {
        if at(s, p, i) {
            return Some(i);
        }
        if i == last {
            assert(found_from(s@, p@, i + 1) is None);
            return None;
        }
        i += 1;
    }
}

/// The pieces of a text between a character.
pub open spec fn pieces(s: Seq<char>, c: char) -> Seq<Seq<char>>
    decreases s.len(),
{
    if s.len() == 0 {
        seq![Seq::<char>::empty()]
    } else {
        let rest = pieces(s.drop_last(), c);
        if s.last() == c {
            rest.push(Seq::empty())
        } else {
            rest.drop_last().push(rest.last().push(s.last()))
        }
    }
}

/// There is at least one piece.
pub proof fn lemma_pieces(s: Seq<char>, c: char)
    ensures
        pieces(s, c).len() >= 1,
    decreases s.len(),
{
    if s.len() > 0 {
        lemma_pieces(s.drop_last(), c);
    }
}

/// Lists of characters as mathematical values.
pub open spec fn char_views(v: Seq<Vec<char>>) -> Seq<Seq<char>> {
    Seq::new(v.len(), |i: int| v[i]@)
}

/// The pieces of a text between a character.
pub fn split(s: &Vec<char>, c: char) -> (r: Vec<Vec<char>>)
    ensures
        char_views(r@) == pieces(s@, c),
        r@.len() >= 1,
{
    let mut out: Vec<Vec<char>> = Vec::new();
    let mut last: Vec<char> = Vec::new();
    let mut i: usize = 0;
    assert(s@.take(0) =~= Seq::<char>::empty());
    assert(char_views(out@).push(last@) =~= seq![Seq::<char>::empty()]);
    while i < s.len()
        invariant
            i <= s.len(),
            char_views(out@).push(last@) == pieces(s@.take(i as int), c),
        decreases s.len() - i,
    {
        let ghost before = char_views(out@);
        let ghost tail = last@;
        proof {
            assert(s@.take(i + 1).drop_last() =~= s@.take(i as int));
            assert(s@.take(i + 1).last() == s@[i as int]);
            assert(before.push(tail).drop_last() =~= before);
        }
        if s[i] == c {
            out.push(last);
            last = Vec::new();
            assert(char_views(out@) =~= before.push(tail));
        } else {
            last.push(s[i]);
        }
        i += 1;
    }
    assert(s@.take(s@.len() as int) =~= s@);
    let ghost before = char_views(out@);
    let ghost tail = last@;
    out.push(last);
    assert(char_views(out@) =~= before.push(tail));
    out
}

// ---------------------------------------------------------------------------
// Bytes
// ---------------------------------------------------------------------------

/// Number of bytes of a character in UTF-8.
pub open spec fn width(c: char) -> nat {
    let v = c as int;
    if v < 0x80 {
        1
    } else if v < 0x800 {
        2
    } else if v < 0x10000 {
        3
    } else {
        4
    }
}

fn width_of(c: char) -> (r: u128)
    ensures
        r == width(c),
{
    if c >= '\u{10000}' {
        4
    } else if c >= '\u{800}' {
        3
    } else if c >= '\u{80}' {
        2
    } else {
        1
    }
}

/// Number of bytes of a text in UTF-8.
pub open spec fn bytes(s: Seq<char>) -> nat
    decreases s.len(),
{
    if s.len() == 0 {
        0
    } else {
        bytes(s.drop_last()) + width(s.last())
    }
}

proof fn lemma_bytes_bound(s: Seq<char>)
    ensures
        s.len() <= bytes(s) <= 4 * s.len(),
    decreases s.len(),
{
    if s.len() > 0 {
        lemma_bytes_bound(s.drop_last());
    }
}

proof fn lemma_bytes_grow(s: Seq<char>, i: int, j: int)
    requires
        0 <= i < j <= s.len(),
    ensures
        bytes(s.take(i)) < bytes(s.take(j)),
    decreases j - i,
{
    assert(s.take(j).drop_last() =~= s.take(j - 1));
    if i < j - 1 {
        lemma_bytes_grow(s, i, j - 1);
    }
}

/// The number of characters before a byte of a text, if a character starts or
/// the text ends there.
pub open spec fn char_before(s: Seq<char>, byte: nat) -> Option<nat> {
    if exists|n: int| 0 <= n <= s.len() && bytes(#[trigger] s.take(n)) == byte {
        Some((choose|n: int| 0 <= n <= s.len() && bytes(#[trigger] s.take(n)) == byte) as nat)
    } else {
        None
    }
}

/// A character's place is the only one with its number of bytes before it.
pub proof fn lemma_char_before(s: Seq<char>, n: int)
    requires
        0 <= n <= s.len(),
    ensures
        char_before(s, bytes(s.take(n))) == Some(n as nat),
{
    let b = bytes(s.take(n));
    let m = choose|m: int| 0 <= m <= s.len() && bytes(#[trigger] s.take(m)) == b;
    assert(bytes(s.take(n)) == b);
    assert(0 <= m <= s.len() && bytes(s.take(m)) == b);
    if m < n {
        lemma_bytes_grow(s, m, n);
    } else if n < m {
        lemma_bytes_grow(s, n, m);
    }
}

/// Number of bytes of the first characters of a text.
pub fn bytes_before(s: &Vec<char>, n: usize) -> (r: u128)
    requires
        n <= s.len(),
    ensures
        r == bytes(s@.take(n as int)),
        r <= 4 * n,
{
    let mut total: u128 = 0;
    let mut i: usize = 0;
    while i < n
        invariant
            i <= n <= s.len(),
            total == bytes(s@.take(i as int)),
            total <= 4 * i,
        decreases n - i,
    {
        assert(s@.take(i + 1).drop_last() =~= s@.take(i as int));
        total += width_of(s[i]);
        i += 1;
    }
    total
}

/// Number of bytes of a text.
pub fn byte_count(s: &Vec<char>) -> (r: u128)
    ensures
        r == bytes(s@),
        r <= 4 * s.len(),
{
    assert(s@.take(s@.len() as int) =~= s@);
    bytes_before(s, s.len())
}

/// The number of characters before a byte of a text, if a character starts or
/// the text ends there.
pub fn chars_before(s: &Vec<char>, byte: u128) -> (r: Option<usize>)
    ensures
        match r {
            Some(n) => char_before(s@, byte as nat) == Some(n as nat) && n <= s.len(),
            None => char_before(s@, byte as nat) is None,
        },
{
    let mut total: u128 = 0;
    let mut i: usize = 0;
    assert(s@.take(0) =~= Seq::<char>::empty());
    while i < s.len() && total < byte
        invariant
            i <= s.len(),
            total == bytes(s@.take(i as int)),
            total <= 4 * i,
            forall|n: int| 0 <= n < i ==> bytes(#[trigger] s@.take(n)) != byte,
        decreases s.len() - i,
    {
        assert(s@.take(i + 1).drop_last() =~= s@.take(i as int));
        total += width_of(s[i]);
        i += 1;
    }
    if total == byte {
        proof {
            lemma_char_before(s@, i as int);
        }
        Some(i)
    } else {
        proof {
            assert forall|n: int| 0 <= n <= s@.len() implies bytes(#[trigger] s@.take(n)) != byte by {
                if n > i {
                    lemma_bytes_grow(s@, i as int, n);
                }
            }
        }
        None
    }
}

/// The part of a text between two bytes, if characters start or the text ends
/// there, in that order.
pub open spec fn slice(s: Seq<char>, from: nat, to: nat) -> Option<Seq<char>> {
    match (char_before(s, from), char_before(s, to)) {
        (Some(a), Some(b)) if a <= b => Some(s.subrange(a as int, b as int)),
        _ => None,
    }
}

/// The part of a text between two bytes.
pub fn cut(s: &Vec<char>, from: u128, to: u128) -> (r: Option<Vec<char>>)
    ensures
        match r {
            Some(p) => slice(s@, from as nat, to as nat) == Some(p@),
            None => slice(s@, from as nat, to as nat) is None,
        },
{
    match (chars_before(s, from), chars_before(s, to)) {
        (Some(a), Some(b)) => if a <= b {
            Some(part(s, a, b))
        } else {
            None
        },
        _ => None,
    }
}

// ---------------------------------------------------------------------------
// Numbers
// ---------------------------------------------------------------------------

/// Whether a character is a decimal digit.
pub open spec fn is_digit(c: char) -> bool {
    0x30 <= c as int <= 0x39
}

/// The number that decimal digits stand for.
pub open spec fn digits_value(s: Seq<char>) -> nat
    decreases s.len(),
{
    if s.len() == 0 {
        0
    } else {
        digits_value(s.drop_last()) * 10 + (s.last() as int - 0x30) as nat
    }
}

/// Whether a text is decimal digits, at least one.
pub open spec fn all_digits(s: Seq<char>) -> bool {
    s.len() > 0 && forall|i: int| 0 <= i < s.len() ==> is_digit(#[trigger] s[i])
}

/// The number that a text stands for: digits, maybe behind a plus sign, of a
/// number up to a limit.
pub open spec fn natural(s: Seq<char>, limit: nat) -> Option<nat> {
    let d = if s.len() > 0 && s[0] == '+' {
        s.drop_first()
    } else {
        s
    };
    if all_digits(d) && digits_value(d) <= limit {
        Some(digits_value(d))
    } else {
        None
    }
}

proof fn lemma_digits_grow(s: Seq<char>, n: int)
    requires
        0 <= n <= s.len(),
        forall|i: int| 0 <= i < s.len() ==> is_digit(#[trigger] s[i]),
    ensures
        digits_value(s.take(n)) <= digits_value(s),
    decreases s.len(),
{
    if n < s.len() {
        let r = s.drop_last();
        assert forall|i: int| 0 <= i < r.len() implies is_digit(#[trigger] r[i]) by {
            assert(r[i] == s[i]);
        }
        lemma_digits_grow(r, n);
        assert(r.take(n) =~= s.take(n));
    } else {
        assert(s.take(n) =~= s);
    }
}

/// Reads decimal digits from a place on, up to a limit.
fn read_digits(s: &Vec<char>, from: usize, limit: u128) -> (r: Option<u128>)
    requires
        from <= s.len(),
        limit <= 0xffff_ffff_ffff_ffff,
    ensures
        ({
            let d = s@.skip(from as int);
            match r {
                Some(n) => all_digits(d) && n == digits_value(d) && n <= limit,
                None => !(all_digits(d) && digits_value(d) <= limit),
            }
        }),
{
    let ghost d = s@.skip(from as int);
    if from == s.len() {
        return None;
    }
    let mut n: u128 = 0;
    let mut i: usize = from;
    assert(d.take(0) =~= Seq::<char>::empty());
    while i < s.len()
        invariant
            from <= i <= s.len(),
            limit <= 0xffff_ffff_ffff_ffff,
            d == s@.skip(from as int),
            n == digits_value(d.take(i - from)),
            n <= limit,
            forall|k: int| 0 <= k < i - from ==> is_digit(#[trigger] d[k]),
        decreases s.len() - i,
    {
        let c: char = s[i];
        assert(d[i - from] == c);
        if !('0' <= c && c <= '9') {
            return None;
        }
        proof {
            assert(d.take(i - from + 1).drop_last() =~= d.take(i - from));
            assert(d.take(i - from + 1).last() == c);
        }
        n = n * 10 + digit_value(c);
        if n > limit {
            proof {
                if all_digits(d) {
                    lemma_digits_grow(d, i - from + 1);
                }
            }
            return None;
        }
        i += 1;
    }
    assert(d.take(d.len() as int) =~= d);
    Some(n)
}

/// The value of a decimal digit.
fn digit_value(c: char) -> (r: u128)
    requires
        is_digit(c),
    ensures
        r == c as int - 0x30,
{
    if c == '0' {
        0
    } else if c == '1' {
        1
    } else if c == '2' {
        2
    } else if c == '3' {
        3
    } else if c == '4' {
        4
    } else if c == '5' {
        5
    } else if c == '6' {
        6
    } else if c == '7' {
        7
    } else if c == '8' {
        8
    } else {
        9
    }
}

/// Reads a natural number up to a limit.
pub fn read_natural(s: &Vec<char>, limit: u64) -> (r: Option<u64>)
    ensures
        match r {
            Some(n) => natural(s@, limit as nat) == Some(n as nat),
            None => natural(s@, limit as nat) is None,
        },
{
    let from: usize = if s.len() > 0 && s[0] == '+' {
        1
    } else {
        0
    };
    proof {
        if from == 1 {
            assert(s@.skip(1) =~= s@.drop_first());
        } else {
            assert(s@.skip(0) =~= s@);
        }
    }
    match read_digits(s, from, limit as u128) {
        Some(n) => Some(n as u64),
        None => None,
    }
}

/// The signed integer that a text stands for: digits, maybe behind a sign, of a
/// number that fits 64 bits.
pub open spec fn integer(s: Seq<char>) -> Option<i64> {
    if s.len() > 0 && s[0] == '-' {
        let d = s.drop_first();
        if all_digits(d) && digits_value(d) <= 0x8000_0000_0000_0000 {
            Some((-digits_value(d)) as i64)
        } else {
            None
        }
    } else {
        match natural(s, i64::MAX as nat) {
            Some(n) => Some(n as i64),
            None => None,
        }
    }
}

/// Reads a signed integer.
pub fn read_integer(s: &Vec<char>) -> (r: Option<i64>)
    ensures
        r == integer(s@),
{
    if s.len() > 0 && s[0] == '-' {
        assert(s@.skip(1) =~= s@.drop_first());
        match read_digits(s, 1, 0x8000_0000_0000_0000) {
            Some(n) => if n == 0x8000_0000_0000_0000 {
                Some(i64::MIN)
            } else {
                Some(-(n as i64))
            },
            None => None,
        }
    } else {
        match read_natural(s, i64::MAX as u64) {
            Some(n) => Some(n as i64),
            None => None,
        }
    }
}

// ---------------------------------------------------------------------------
// Laws
// ---------------------------------------------------------------------------

/// Whether all characters of a text are white space.
pub open spec fn blank(s: Seq<char>) -> bool {
    forall|i: int| 0 <= i < s.len() ==> is_space(#[trigger] s[i])
}

/// Blanks, tabs and line ends are white space; what is printed is not.
pub proof fn ordinary_white_space(c: char)
    ensures
        is_space(' ') && is_space('\t') && is_space('\n') && is_space('\r'),
        0x20 < c as int && (c as int) < 0x7F ==> !is_space(c),
{
}

proof fn lemma_trimmed_start(s: Seq<char>) -> (a: int)
    ensures
        0 <= a <= s.len(),
        trimmed_start(s) == s.skip(a),
        blank(s.take(a)),
        a < s.len() ==> !is_space(s[a]),
    decreases s.len(),
{
    if s.len() > 0 && is_space(s[0]) {
        let r = s.drop_first();
        let b = lemma_trimmed_start(r);
        let a = b + 1;
        assert(r.skip(b) =~= s.skip(a));
        assert forall|i: int| 0 <= i < a implies is_space(#[trigger] s.take(a)[i]) by {
            if i > 0 {
                assert(r.take(b)[i - 1] == s[i]);
            }
        }
        if a < s.len() {
            assert(r[b] == s[a]);
        }
        a
    } else {
        assert(s.skip(0) =~= s);
        0
    }
}

proof fn lemma_trimmed_end(s: Seq<char>) -> (b: int)
    ensures
        0 <= b <= s.len(),
        trimmed_end(s) == s.take(b),
        blank(s.skip(b)),
        b > 0 ==> !is_space(s[b - 1]),
    decreases s.len(),
{
    if s.len() > 0 && is_space(s.last()) {
        let r = s.drop_last();
        let b = lemma_trimmed_end(r);
        assert(r.take(b) =~= s.take(b));
        assert forall|i: int| 0 <= i < s.len() - b implies is_space(#[trigger] s.skip(b)[i]) by {
            if i < r.len() - b {
                assert(r.skip(b)[i] == s[b + i]);
            }
        }
        b
    } else {
        assert(s.take(s.len() as int) =~= s);
        s.len() as int
    }
}

/// Trimming takes white space away at the ends, all of it and nothing else.
pub proof fn trimming_takes_white_space(s: Seq<char>) -> (r: (int, int))
    ensures
        0 <= r.0 <= r.1 <= s.len(),
        trimmed(s) == s.subrange(r.0, r.1),
        blank(s.take(r.0)),
        blank(s.skip(r.1)),
        trimmed(s).len() > 0 ==> !is_space(trimmed(s)[0]) && !is_space(trimmed(s).last()),
{
    let a = lemma_trimmed_start(s);
    let t = s.skip(a);
    let b = lemma_trimmed_end(t);
    assert(t.take(b) =~= s.subrange(a, a + b));
    assert(t.skip(b) =~= s.skip(a + b));
    if b > 0 {
        assert(t[0] == s[a]);
    }
    (a, a + b)
}

/// What has no white space at its ends is trimmed already.
pub proof fn trimmed_texts_stay(s: Seq<char>)
    ensures
        s.len() == 0 || (!is_space(s[0]) && !is_space(s.last())) ==> trimmed(s) == s,
        trimmed(trimmed(s)) == trimmed(s),
{
    let r = trimming_takes_white_space(s);
}

/// Pieces with a character between them.
pub open spec fn put_together(parts: Seq<Seq<char>>, c: char) -> Seq<char>
    decreases parts.len(),
{
    if parts.len() == 0 {
        Seq::empty()
    } else if parts.len() == 1 {
        parts[0]
    } else {
        put_together(parts.drop_last(), c).push(c) + parts.last()
    }
}

/// A text is cut at every place of a character: put together again the pieces
/// are the text, and none of them holds the character.
pub proof fn pieces_make_up_the_text(s: Seq<char>, c: char)
    ensures
        put_together(pieces(s, c), c) == s,
        forall|i: int| 0 <= i < pieces(s, c).len() ==> !(#[trigger] pieces(s, c)[i]).contains(c),
    decreases s.len(),
{
    let p = pieces(s, c);
    if s.len() == 0 {
        assert(p[0] =~= s);
    } else {
        let r = s.drop_last();
        let q = pieces(r, c);
        pieces_make_up_the_text(r, c);
        lemma_pieces(r, c);
        assert(s =~= r.push(s.last()));
        if s.last() == c {
            assert(p.drop_last() =~= q);
            assert(put_together(p, c) =~= put_together(q, c).push(c));
            assert forall|i: int| 0 <= i < p.len() implies !(#[trigger] p[i]).contains(c) by {
                if i < q.len() {
                    assert(p[i] == q[i]);
                }
            }
        } else {
            let longer = q.last().push(s.last());
            assert(p == q.drop_last().push(longer));
            assert(p.drop_last() =~= q.drop_last());
            if q.len() == 1 {
                assert(p[0] =~= s);
            } else {
                assert(put_together(p, c) =~= put_together(q.drop_last(), c).push(c) + longer);
                assert(put_together(p, c) =~= s);
            }
            assert forall|i: int| 0 <= i < p.len() implies !(#[trigger] p[i]).contains(c) by {
                if i < q.len() - 1 {
                    assert(p[i] == q[i]);
                } else {
                    assert(p[i] == longer);
                    if longer.contains(c) {
                        let k = choose|k: int| 0 <= k < longer.len() && longer[k] == c;
                        assert(q[q.len() - 1][k] == c);
                        assert(q[q.len() - 1].contains(c));
                    }
                }
            }
        }
    }
}

/// A number in decimal is read back, with or without a sign.
pub proof fn decimals_are_read_back(n: nat, limit: nat)
    ensures
        all_digits(text::decimal_text(n)),
        digits_value(text::decimal_text(n)) == n,
        natural(text::decimal_text(n), limit) == (if n <= limit {
            Some(n)
        } else {
            None
        }),
        n <= i64::MAX ==> integer(text::decimal_text(n)) == Some(n as i64),
        n <= 0x8000_0000_0000_0000 ==> integer(seq!['-'] + text::decimal_text(n)) == Some((-n) as i64),
{
    lemma_decimal_digits(n);
    let d = text::decimal_text(n);
    assert(is_digit(d[0]));
    assert((seq!['-'] + d).drop_first() =~= d);
}

proof fn lemma_decimal_digits(n: nat)
    ensures
        all_digits(text::decimal_text(n)),
        digits_value(text::decimal_text(n)) == n,
    decreases n,
{
    let d = text::decimal_text(n);
    if n >= 10 {
        lemma_decimal_digits(n / 10);
        assert(d.drop_last() =~= text::decimal_text(n / 10));
        assert(d.last() as int == 0x30 + n % 10);
        assert forall|i: int| 0 <= i < d.len() implies is_digit(#[trigger] d[i]) by {
            if i < d.len() - 1 {
                assert(d[i] == text::decimal_text(n / 10)[i]);
            }
        }
    } else {
        assert(d.drop_last() =~= Seq::<char>::empty());
        assert(digits_value(d.drop_last()) == 0);
        assert(d.last() as int == 0x30 + n);
    }
}

/// What is read as an integer holds decimal digits and maybe a sign before them.
pub proof fn integers_are_digits(s: Seq<char>)
    requires
        integer(s) is Some,
    ensures
        s.len() > 0,
        is_digit(s.last()),
        is_digit(s[0]) || ((s[0] == '-' || s[0] == '+') && s.len() > 1),
        forall|i: int| 0 < i < s.len() ==> is_digit(#[trigger] s[i]),
{
    let d = if s[0] == '-' || s[0] == '+' {
        s.drop_first()
    } else {
        s
    };
    assert(all_digits(d));
    assert(is_digit(d[d.len() - 1]));
    assert forall|i: int| 0 < i < s.len() implies is_digit(#[trigger] s[i]) by {
        if d.len() < s.len() {
            assert(d[i - 1] == s[i]);
        }
    }
    if d == s {
        assert(is_digit(d[0]));
    }
}

/// A text with a character taken away at its end does not end with it.
pub proof fn ends_are_taken_away(s: Seq<char>, c: char) -> (n: int)
    ensures
        0 <= n <= s.len(),
        without_end(s, c) == s.take(n),
        n > 0 ==> s[n - 1] != c,
        forall|i: int| n <= i < s.len() ==> #[trigger] s[i] == c,
    decreases s.len(),
{
    if s.len() > 0 && s.last() == c {
        let r = s.drop_last();
        let n = ends_are_taken_away(r, c);
        assert(r.take(n) =~= s.take(n));
        assert forall|i: int| n <= i < s.len() implies #[trigger] s[i] == c by {
            if i < r.len() {
                assert(r[i] == s[i]);
            }
        }
        n
    } else {
        assert(s.take(s.len() as int) =~= s);
        s.len() as int
    }
}

/// The bytes of two texts add up, and every character takes at least one.
pub proof fn bytes_add_up(a: Seq<char>, b: Seq<char>)
    ensures
        bytes(a + b) == bytes(a) + bytes(b),
    decreases b.len(),
{
    if b.len() == 0 {
        assert(a + b =~= a);
    } else {
        bytes_add_up(a, b.drop_last());
        assert((a + b).drop_last() =~= a + b.drop_last());
    }
}

/// A text of plain characters is cut by characters.
pub proof fn plain_texts_are_cut_by_characters(s: Seq<char>, i: int, j: int)
    requires
        0 <= i <= j <= s.len(),
        forall|k: int| 0 <= k < s.len() ==> (#[trigger] s[k] as int) < 0x80,
    ensures
        slice(s, i as nat, j as nat) == Some(s.subrange(i, j)),
        bytes(s) == s.len(),
{
    lemma_plain_bytes(s, i);
    lemma_plain_bytes(s, j);
    lemma_plain_bytes(s, s.len() as int);
    assert(s.take(s.len() as int) =~= s);
    lemma_char_before(s, i);
    lemma_char_before(s, j);
}

proof fn lemma_plain_bytes(s: Seq<char>, n: int)
    requires
        0 <= n <= s.len(),
        forall|k: int| 0 <= k < s.len() ==> (#[trigger] s[k] as int) < 0x80,
    ensures
        bytes(s.take(n)) == n,
    decreases n,
{
    if n > 0 {
        lemma_plain_bytes(s, n - 1);
        assert(s.take(n).drop_last() =~= s.take(n - 1));
        assert(s.take(n).last() == s[n - 1]);
    }
}

/// The first place of a text in another is where it stands with no earlier one.
pub proof fn the_first_place_is_found(s: Seq<char>, p: Seq<char>, i: int)
    requires
        stands_at(s, p, i),
        forall|j: int| 0 <= j < i ==> !stands_at(s, p, j),
    ensures
        found(s, p) == Some(i as nat),
{
    lemma_found(s, p, 0);
    match found(s, p) {
        Some(n) => {
            assert(stands_at(s, p, n as int));
        },
        None => {},
    }
}

} // verus!
