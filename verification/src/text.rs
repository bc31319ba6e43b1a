//! Text helpers: comparison, concatenation and decimal rendering, each with a
//! contract over the characters of its arguments.

use vstd::prelude::*;
use vstd::string::*;
use vstd::utf8::*;

verus! {

/// `String::push` appends the given character at the end of the string.
pub assume_specification[ String::push ](s: &mut String, c: char)
    ensures
        final(s)@ == old(s)@.push(c),
;

/// Whether two strings hold the same characters.
pub fn same_text(a: &str, b: &str) -> (r: bool)
    ensures
        r == (a@ == b@),
{
    broadcast use encode_utf8_decode_utf8;

    let x: &[u8] = a.as_bytes();
    let y: &[u8] = b.as_bytes();
    if x.len() != y.len() {
        return false;
    }
    let mut i: usize = 0;
    while i < x.len()
        invariant
            i <= x.len(),
            x.len() == y.len(),
            x@ == encode_utf8(a@),
            y@ == encode_utf8(b@),
            forall|j: int| 0 <= j < i ==> x@[j] == y@[j],
        decreases x.len() - i,
    {
        if x[i] != y[i] {
            return false;
        }
        i += 1;
    }
    proof {
        assert(x@ =~= y@);
        assert(decode_utf8(encode_utf8(a@)) == a@);
        assert(decode_utf8(encode_utf8(b@)) == b@);
    }
    true
}

/// The characters of a string, in order.
pub fn to_chars(s: &str) -> (r: Vec<char>)
    ensures
        r@ == s@,
{
    let mut out: Vec<char> = Vec::new();
    for c in it: s.chars()
        invariant
            it.seq() == s@,
            out@ == s@.take(it.index()),
    {
        out.push(c);
        assert(s@.take(it.index() + 1) =~= s@.take(it.index()).push(c));
    }
    assert(s@.take(s@.len() as int) =~= s@);
    out
}

/// The string that holds the given characters in order.
pub fn from_chars(cs: &[char]) -> (r: String)
    ensures
        r@ == cs@,
{
    let mut out: String = String::new();
    let mut i: usize = 0;
    while i < cs.len()
        invariant
            i <= cs.len(),
            out@ == cs@.take(i as int),
        decreases cs.len() - i,
    {
        out.push(cs[i]);
        i += 1;
        assert(cs@.take(i as int) =~= cs@.take(i - 1).push(cs@[i - 1]));
    }
    assert(cs@.take(cs@.len() as int) =~= cs@);
    out
}

/// The decimal digit of a number below ten.
pub open spec fn digit(d: nat) -> char {
    (48 + d) as char
}

/// Decimal digits of `n`, most significant first, without leading zeros.
pub open spec fn decimal_text(n: nat) -> Seq<char>
    decreases n,
{
    if n < 10 {
        seq![digit(n)]
    } else {
        decimal_text(n / 10).push(digit(n % 10))
    }
}

/// Renders a number in decimal.
pub fn decimal(n: u64) -> (r: String)
    ensures
        r@ == decimal_text(n as nat),
    decreases n,
{
    let last: u8 = (n % 10) as u8;
    let c: char = (48 + last) as char;
    if n < 10 {
        let mut out: String = String::new();
        out.push(c);
        out
    } else {
        let mut out: String = decimal(n / 10);
        out.push(c);
        out
    }
}

/// A number in decimal between two pieces of text.
pub fn around(before: &str, n: u64, after: &str) -> (r: String)
    ensures
        r@ == before@ + decimal_text(n as nat) + after@,
{
    let mut s: String = before.to_owned();
    s.append(decimal(n).as_str());
    s.append(after);
    s
}

/// Three pieces of text, one behind the other.
pub fn glue(a: &str, b: &str, c: &str) -> (r: String)
    ensures
        r@ == a@ + b@ + c@,
        c@.len() == 0 ==> r@ == a@ + b@,
{
    let mut s: String = a.to_owned();
    s.append(b);
    s.append(c);
    assert(c@.len() == 0 ==> a@ + b@ + c@ =~= a@ + b@);
    s
}

/// The hexadecimal digit of a number below sixteen.
pub open spec fn hex_digit(d: u32) -> char {
    if d < 10 {
        (48 + d) as char
    } else {
        (87 + d) as char
    }
}

/// The eight hexadecimal digits of a number, most significant first.
pub open spec fn hex8_text(n: u32) -> Seq<char> {
    Seq::new(
        8,
        |i: int|
            hex_digit(
                ((n as nat / vstd::arithmetic::power::pow(16, (7 - i) as nat) as nat) % 16) as u32,
            ),
    )
}

/// Renders a number in eight hexadecimal digits.
pub fn hex8(n: u32) -> (r: String)
    ensures
        r@ == hex8_text(n),
{
    let mut out: String = String::new();
    let mut i: u32 = 0;
    let mut p: u64 = 0x1000_0000;
    proof {
        reveal_with_fuel(vstd::arithmetic::power::pow, 8);
        assert(hex8_text(n).take(0) =~= Seq::<char>::empty());
    }
    while i < 8
        invariant
            i <= 8,
            i < 8 ==> p == vstd::arithmetic::power::pow(16, (7 - i) as nat),
            p > 0,
            out@ == hex8_text(n).take(i as int),
        decreases 8 - i,
    {
        let d: u32 = ((n as u64 / p) % 16) as u32;
        let c: char = if d < 10 {
            (48 + d as u8) as char
        } else {
            (87 + d as u8) as char
        };
        out.push(c);
        proof {
            assert(c == hex_digit(d));
            assert(hex8_text(n).take(i + 1) =~= hex8_text(n).take(i as int).push(c));
            if i < 7 {
                reveal(vstd::arithmetic::power::pow);
                assert(p == 16 * vstd::arithmetic::power::pow(16, (6 - i) as nat));
            }
        }
        if i < 7 {
            p = p / 16;
        }
        i += 1;
    }
    assert(hex8_text(n).take(8) =~= hex8_text(n));
    out
}

/// Renders a large number in decimal.
pub fn decimal_wide(n: u128) -> (r: String)
    ensures
        r@ == decimal_text(n as nat),
    decreases n,
{
    let last: u8 = (n % 10) as u8;
    let c: char = (48 + last) as char;
    if n < 10 {
        let mut out: String = String::new();
        out.push(c);
        out
    } else {
        let mut out: String = decimal_wide(n / 10);
        out.push(c);
        out
    }
}

/// The characters of each text.
pub open spec fn views(s: Seq<String>) -> Seq<Seq<char>> {
    Seq::new(s.len(), |i: int| s[i]@)
}

/// Whether a text comes before another in the order of their characters, or is
/// the same.
pub open spec fn not_after(a: Seq<char>, b: Seq<char>) -> bool
    decreases a.len(),
{
    if a.len() == 0 {
        true
    } else if b.len() == 0 {
        false
    } else if a[0] != b[0] {
        (a[0] as int) < (b[0] as int)
    } else {
        not_after(a.drop_first(), b.drop_first())
    }
}

/// Of two texts one comes first.
pub proof fn text_order_is_total(a: Seq<char>, b: Seq<char>)
    ensures
        not_after(a, b) || not_after(b, a),
    decreases a.len(),
{
    if a.len() > 0 && b.len() > 0 && a[0] == b[0] {
        text_order_is_total(a.drop_first(), b.drop_first());
    }
}

/// The order of texts is transitive.
pub proof fn text_order_is_transitive(a: Seq<char>, b: Seq<char>, c: Seq<char>)
    requires
        not_after(a, b),
        not_after(b, c),
    ensures
        not_after(a, c),
    decreases a.len(),
{
    if a.len() > 0 && b.len() > 0 && c.len() > 0 && a[0] == b[0] && b[0] == c[0] {
        text_order_is_transitive(a.drop_first(), b.drop_first(), c.drop_first());
    }
}

/// Only the same text can stand on either side of a text.
pub proof fn text_order_is_antisymmetric(a: Seq<char>, b: Seq<char>)
    requires
        not_after(a, b),
        not_after(b, a),
    ensures
        a == b,
    decreases a.len(),
{
    if a.len() > 0 && b.len() > 0 {
        text_order_is_antisymmetric(a.drop_first(), b.drop_first());
        assert(a =~= seq![a[0]] + a.drop_first());
        assert(b =~= seq![b[0]] + b.drop_first());
    } else {
        assert(a =~= b);
    }
}

/// Whether a text comes before another, or is the same.
pub fn comes_first(a: &Vec<char>, b: &Vec<char>) -> (r: bool)
    ensures
        r == not_after(a@, b@),
{
    let mut i: usize = 0;
    assert(a@.skip(0) =~= a@);
    assert(b@.skip(0) =~= b@);
    while i < a.len() && i < b.len()
        invariant
            i <= a.len(),
            i <= b.len(),
            not_after(a@, b@) == not_after(a@.skip(i as int), b@.skip(i as int)),
        decreases a.len() - i,
    {
        assert(a@.skip(i as int)[0] == a@[i as int]);
        assert(b@.skip(i as int)[0] == b@[i as int]);
        let x: char = a[i];
        let y: char = b[i];
        if x != y {
            return x < y;
        }
        assert(a@.skip(i as int).drop_first() =~= a@.skip(i + 1));
        assert(b@.skip(i as int).drop_first() =~= b@.skip(i + 1));
        i += 1;
    }
    i == a.len()
}

/// The first character that differs decides the order of texts, and a text comes
/// before what continues it.
pub proof fn first_difference_decides(a: Seq<char>, b: Seq<char>, k: int)
    requires
        0 <= k <= a.len(),
        k < b.len(),
        forall|i: int| 0 <= i < k ==> a[i] == b[i],
        k < a.len() ==> (a[k] as int) < b[k] as int,
    ensures
        not_after(a, b),
        !not_after(b, a),
    decreases k,
{
    if k > 0 {
        let (x, y) = (a.drop_first(), b.drop_first());
        assert(a[0] == b[0]);
        assert forall|i: int| 0 <= i < k - 1 implies x[i] == y[i] by {
            assert(a[i + 1] == b[i + 1]);
        }
        first_difference_decides(x, y, k - 1);
    }
}

/// The eight hexadecimal digits of a number have its value.
pub open spec fn hex_value(c: char) -> int {
    if c as int <= 0x39 {
        c as int - 0x30
    } else {
        c as int - 0x61 + 10
    }
}

/// The last hexadecimal digit is the rest of the number by sixteen, and the
/// digits before it are those of the number divided by sixteen.
pub proof fn hexadecimal_digits_shift(n: u32)
    ensures
        hex8_text(n).len() == 8,
        hex_value(hex8_text(n)[7]) == n % 16,
        forall|i: int| 0 < i < 8 ==> hex8_text(n / 16)[i] == #[trigger] hex8_text(n)[i - 1],
        hex8_text(n / 16)[0] == '0',
{
    reveal_with_fuel(vstd::arithmetic::power::pow, 9);
    let q = n / 16;
    assert forall|i: int| 0 < i < 8 implies hex8_text(q)[i] == #[trigger] hex8_text(n)[i - 1] by {
        let e = (7 - i) as nat;
        let p = vstd::arithmetic::power::pow(16, e);
        assert(vstd::arithmetic::power::pow(16, (e + 1) as nat) == 16 * p);
        vstd::arithmetic::power::lemma_pow_positive(16, e);
        assert((n as int / 16) / p == n as int / (16 * p)) by {
            vstd::arithmetic::div_mod::lemma_div_denominator(n as int, 16, p);
        }
    }
    assert(vstd::arithmetic::power::pow(16, 7) == 0x1000_0000);
    assert(vstd::arithmetic::power::pow(16, 0) == 1);
    let r = (n % 16) as u32;
    assert(n as nat / 1nat == n as nat);
    assert(hex8_text(n)[7] == hex_digit(((n as nat / vstd::arithmetic::power::pow(16, 0) as nat) % 16) as u32));
    assert(hex8_text(n)[7] == hex_digit(r));
    assert(hex_digit(r) as int == if r < 10 {
        48 + r
    } else {
        87 + r
    });
    assert(hex8_text(q)[0] == hex_digit(((q as nat / 0x1000_0000nat) % 16) as u32));
    assert(q as nat / 0x1000_0000nat == 0);
    assert(hex_digit(0) as int == 48);
}

} // verus!
