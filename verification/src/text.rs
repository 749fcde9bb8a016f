//! Building and taking apart text.

use vstd::prelude::*;

verus! {

/// `String::push` appends one character to the end of the string.
pub assume_specification[ std::string::String::push ](s: &mut std::string::String, c: char)
    ensures
        final(s)@ == old(s)@.push(c),
;

/// The text that a byte string stands for, with each malformed sequence
/// replaced by U+FFFD.
pub uninterp spec fn utf8_lossy(v: Seq<u8>) -> Seq<char>;

/// `String::from_utf8_lossy` decodes a byte string. What malformed sequences
/// are replaced by depends on the bytes alone; well-formed text is kept as it
/// is.
#[verifier::external_body]
pub(crate) fn from_utf8_lossy(v: &[u8]) -> (r: String)
    ensures
        r@ == utf8_lossy(v@),
        vstd::utf8::valid_utf8(v@) ==> vstd::utf8::encode_utf8(r@) == v@,
{
    String::from_utf8_lossy(v).into_owned()
}

/// The digits of `n` in base `base`, most significant first, without leading
/// zeros.
pub open spec fn digits(n: nat, base: nat) -> Seq<char>
    decreases n,
{
    if base < 2 || n < base {
        seq![digit(n)]
    } else {
        proof {
            assert(n / base < n) by (nonlinear_arith)
                requires
                    n >= base,
                    base >= 2,
            ;
        }
        digits(n / base, base).push(digit(n % base))
    }
}

/// The character for a digit below sixteen.
pub open spec fn digit(d: nat) -> char {
    if d < 10 {
        ('0' as nat + d) as char
    } else {
        ('a' as nat + (d - 10)) as char
    }
}

/// `s` filled up on the left with `fill` to at least `width` characters.
pub open spec fn padded(s: Seq<char>, width: nat, fill: char) -> Seq<char> {
    if s.len() >= width {
        s
    } else {
        Seq::new((width - s.len()) as nat, |i: int| fill) + s
    }
}

/// The characters of a string.
pub fn chars_of(s: &str) -> (r: Vec<char>)
    ensures
        r@ == s@,
{
    let mut r: Vec<char> = Vec::new();
    for c in it: s.chars()
        invariant
            r@ == s@.take(it.index() as int),
            it.seq() == s@,
    {
        r.push(c);
        assert(r@ =~= s@.take(it.index() as int + 1));
    }
    assert(r@ =~= s@);
    r
}

/// Returns whether two strings are equal.
pub fn same(a: &str, b: &str) -> (r: bool)
    ensures
        r == (a@ == b@),
{
    let x: Vec<char> = chars_of(a);
    let y: Vec<char> = chars_of(b);
    if x.len() != y.len() {
        return false;
    }
    let mut i: usize = 0;
    while i < x.len()
        invariant
            i <= x.len(),
            x.len() == y.len(),
            x@ == a@,
            y@ == b@,
            forall|j: int| 0 <= j < i ==> a@[j] == b@[j],
        decreases x.len() - i,
    {
        if x[i] != y[i] {
            return false;
        }
        i += 1;
    }
    assert(a@ =~= b@);
    true
}

/// The character for a digit below sixteen.
fn digit_char(d: u8) -> (r: char)
    requires
        d < 16,
    ensures
        r == digit(d as nat),
{
    if d < 10 {
        (48 + d) as char
    } else {
        (97 + (d - 10)) as char
    }
}

/// Appends the digits of `n` in base `base`.
pub fn push_digits(s: &mut String, n: u64, base: u64)
    requires
        2 <= base <= 16,
    ensures
        final(s)@ == old(s)@ + digits(n as nat, base as nat),
    decreases n,
{
    let ghost start = s@;
    if n < base {
        s.push(digit_char(n as u8));
        assert(s@ =~= start + digits(n as nat, base as nat));
    } else {
        assert(n / base < n) by (nonlinear_arith)
            requires
                n >= base,
                base >= 2,
        ;
        push_digits(s, n / base, base);
        let d: u64 = n % base;
        assert(d < base) by (nonlinear_arith)
            requires
                base >= 2,
                d == n % base,
        ;
        s.push(digit_char(d as u8));
        assert(s@ =~= start + digits(n as nat, base as nat));
    }
}

/// The digits of `n` as ASCII bytes.
pub open spec fn digit_bytes(n: nat) -> Seq<u8> {
    digits(n, 10).map_values(|c: char| c as u8)
}

/// Appends the decimal digits of `n` as ASCII bytes.
pub fn push_digit_bytes(buf: &mut Vec<u8>, n: u64)
    ensures
        final(buf)@ == old(buf)@ + digit_bytes(n as nat),
    decreases n,
{
    let ghost start = buf@;
    if n < 10 {
        buf.push(48 + n as u8);
        assert(buf@ =~= start + digit_bytes(n as nat));
    } else {
        push_digit_bytes(buf, n / 10);
        buf.push(48 + (n % 10) as u8);
        assert(digit_bytes(n as nat) =~= digit_bytes((n / 10) as nat).push((48 + n % 10) as u8));
        assert(buf@ =~= start + digit_bytes(n as nat));
    }
}

/// Different numbers have different digits.
pub proof fn lemma_digit_bytes_injective(a: nat, b: nat)
    requires
        digit_bytes(a) == digit_bytes(b),
    ensures
        a == b,
{
    lemma_digits_ascii(a);
    lemma_digits_ascii(b);
    let x = digits(a, 10);
    let y = digits(b, 10);
    assert(x.len() == digit_bytes(a).len());
    assert(y.len() == digit_bytes(b).len());
    assert forall|i: int| 0 <= i < x.len() implies x[i] == y[i] by {
        assert(digit_bytes(a)[i] == x[i] as u8);
        assert(digit_bytes(b)[i] == y[i] as u8);
    }
    assert(x =~= y);
    lemma_digits_injective(a, b);
}

/// Decimal digits are the characters from `0` to `9`.
pub proof fn lemma_digits_ascii(a: nat)
    ensures
        forall|i: int| 0 <= i < digits(a, 10).len() ==> '0' <= #[trigger] digits(a, 10)[i] <= '9',
    decreases a,
{
    if a >= 10 {
        lemma_digits_ascii(a / 10);
        let d = digits(a / 10, 10);
        assert(digits(a, 10) == d.push(digit(a % 10)));
        assert forall|i: int| 0 <= i < digits(a, 10).len() implies '0' <= #[trigger] digits(
            a,
            10,
        )[i] <= '9' by {
            if i < d.len() {
                assert('0' <= d[i] <= '9');
            } else {
                assert('0' <= digit(a % 10) <= '9');
            }
        }
    } else {
        assert('0' <= digit(a) <= '9');
    }
}

/// Appends a copy of `fill` until `s` has grown by `count` characters.
pub fn push_fill(s: &mut String, count: usize, fill: char)
    ensures
        final(s)@ == old(s)@ + Seq::new(count as nat, |i: int| fill),
{
    let ghost start = s@;
    let mut i: usize = 0;
    while i < count
        invariant
            i <= count,
            s@ == start + Seq::new(i as nat, |i: int| fill),
        decreases count - i,
    {
        s.push(fill);
        i += 1;
        assert(s@ =~= start + Seq::new(i as nat, |i: int| fill));
    }
}

/// Appends `t` filled up on the left with `fill` to at least `width`
/// characters.
pub fn push_padded(s: &mut String, t: &str, width: usize, fill: char)
    ensures
        final(s)@ == old(s)@ + padded(t@, width as nat, fill),
{
    let ghost start = s@;
    let len: usize = t.unicode_len();
    if len < width {
        push_fill(s, width - len, fill);
    }
    s.append(t);
    assert(s@ =~= start + padded(t@, width as nat, fill));
}

/// Appends the digits of `n`, filled up on the left with `fill` to at least
/// `width` characters.
pub fn push_padded_digits(s: &mut String, n: u64, base: u64, width: usize, fill: char)
    requires
        2 <= base <= 16,
    ensures
        final(s)@ == old(s)@ + padded(digits(n as nat, base as nat), width as nat, fill),
{
    let mut t: String = String::new();
    push_digits(&mut t, n, base);
    assert(t@ =~= digits(n as nat, base as nat));
    push_padded(s, t.as_str(), width, fill);
}

/// Different numbers have different digits.
pub proof fn lemma_digits_injective(a: nat, b: nat)
    requires
        digits(a, 10) == digits(b, 10),
    ensures
        a == b,
    decreases a,
{
    let x = digits(a, 10);
    let y = digits(b, 10);
    lemma_digits_len(a);
    lemma_digits_len(b);
    if a < 10 && b < 10 {
        assert(x[0] == digit(a));
        assert(y[0] == digit(b));
    } else if a >= 10 && b >= 10 {
        assert(x.last() == digit(a % 10));
        assert(y.last() == digit(b % 10));
        assert(x.drop_last() =~= digits(a / 10, 10));
        assert(y.drop_last() =~= digits(b / 10, 10));
        lemma_digits_injective(a / 10, b / 10);
    }
}

proof fn lemma_digits_len(a: nat)
    ensures
        a < 10 ==> digits(a, 10).len() == 1,
        a >= 10 ==> digits(a, 10).len() >= 2,
    decreases a,
{
    if a >= 10 {
        lemma_digits_len(a / 10);
    }
}

/// The decimal digits of `n`, with a sign if it is negative.
pub open spec fn signed_digits(n: int) -> Seq<char> {
    if n < 0 {
        seq!['-'] + digits((-n) as nat, 10)
    } else {
        digits(n as nat, 10)
    }
}

/// Appends the decimal digits of `n`, with a sign if it is negative.
pub fn push_signed(s: &mut String, n: i64)
    ensures
        final(s)@ == old(s)@ + signed_digits(n as int),
{
    let ghost start = s@;
    if n >= 0 {
        push_digits(s, n as u64, 10);
    } else {
        s.push('-');
        let below: u64 = (-(n + 1)) as u64;
        push_digits(s, below + 1, 10);
        assert(s@ =~= start + signed_digits(n as int));
    }
}

/// `s` in quotes, with characters that would be hard to read written as
/// escapes.
pub uninterp spec fn debug_text(s: Seq<char>) -> Seq<char>;

/// Formats a string with `{:?}`, that is by the `Debug` implementation of
/// `str`. The result depends on the string alone.
#[verifier::external_body]
pub(crate) fn quoted(s: &str) -> (r: String)
    ensures
        r@ == debug_text(s@),
{
    format!("{:?}", s)
}

/// The string made of the characters from the `i`th to before the `j`th.
pub fn piece(cs: &Vec<char>, i: usize, j: usize) -> (r: String)
    requires
        i <= j <= cs@.len(),
    ensures
        r@ == cs@.subrange(i as int, j as int),
{
    let mut r: String = String::new();
    let mut k: usize = i;
    while k < j
        invariant
            i <= k <= j <= cs@.len(),
            r@ == cs@.subrange(i as int, k as int),
        decreases j - k,
    {
        r.push(cs[k]);
        k += 1;
        assert(r@ =~= cs@.subrange(i as int, k as int));
    }
    r
}

/// `String::from_utf8` accepts exactly the well-formed byte strings, and keeps
/// them as they are.
#[verifier::external_body]
pub(crate) fn decode_utf8(v: Vec<u8>) -> (r: Option<String>)
    ensures
        r is Some <==> vstd::utf8::valid_utf8(v@),
        r matches Some(s) ==> vstd::utf8::encode_utf8(s@) == v@,
{
    match String::from_utf8(v) {
        Ok(s) => Some(s),
        Err(_) => None,
    }
}

/// What a digit is worth.
pub open spec fn digit_value(c: char) -> nat {
    if '0' <= c <= '9' {
        (c as nat - '0' as nat) as nat
    } else {
        (c as nat - 'a' as nat + 10) as nat
    }
}

/// The number that is written with the given digits.
pub open spec fn number(s: Seq<char>, base: nat) -> nat
    decreases s.len(),
{
    if s.len() == 0 {
        0
    } else {
        number(s.drop_last(), base) * base + digit_value(s.last())
    }
}

/// A digit is worth what it was made of.
proof fn lemma_digit(d: nat)
    requires
        d < 16,
    ensures
        digit_value(digit(d)) == d,
        digit(d) == '0' <==> d == 0,
        '0' <= digit(d) <= '9' || 'a' <= digit(d) <= 'f',
        d < 10 ==> '0' <= digit(d) <= '9',
{
    if d < 10 {
        let c = ('0' as nat + d) as char;
        assert(c as nat == '0' as nat + d);
    } else {
        let c = ('a' as nat + (d - 10)) as char;
        assert(c as nat == 'a' as nat + (d - 10));
    }
}

/// The digits of a number, read in the same base, are that number. There are no
/// zeros in front of them.
pub proof fn law_digits(n: nat, base: nat)
    requires
        2 <= base <= 16,
    ensures
        number(digits(n, base), base) == n,
        digits(n, base).len() > 0,
        digits(n, base)[0] == '0' ==> n == 0,
        forall|i: int|
            0 <= i < digits(n, base).len() ==> digit_value(#[trigger] digits(n, base)[i]) < base,
    decreases n,
{
    let s = digits(n, base);
    if n < base {
        lemma_digit(n);
        assert(s.drop_last() =~= Seq::empty());
        assert(number(s.drop_last(), base) == 0);
        assert(0 * base == 0) by (nonlinear_arith);
    } else {
        assert(n / base < n && n == (n / base) * base + n % base && n % base < base && n / base
            > 0) by (nonlinear_arith)
            requires
                n >= base,
                base >= 2,
        ;
        law_digits(n / base, base);
        lemma_digit(n % base);
        assert(s.drop_last() =~= digits(n / base, base));
        assert forall|i: int| 0 <= i < s.len() implies digit_value(#[trigger] s[i]) < base by {
            if i < s.len() - 1 {
                assert(s[i] == digits(n / base, base)[i]);
            }
        }
    }
}

/// A negative number is written as a minus sign and its absolute value.
pub proof fn law_signed(n: int)
    ensures
        n >= 0 ==> signed_digits(n) == digits(n as nat, 10),
        n < 0 ==> signed_digits(n).len() > 1 && signed_digits(n)[0] == '-' && signed_digits(n).skip(
            1,
        ) == digits((-n) as nat, 10),
{
    if n < 0 {
        law_digits((-n) as nat, 10);
        assert(signed_digits(n).skip(1) =~= digits((-n) as nat, 10));
    }
}

/// What is filled up keeps what it was at its right end, and is as wide as it has
/// to be and no wider.
pub proof fn law_padded(s: Seq<char>, width: nat, fill: char)
    ensures
        ({
            let p = padded(s, width, fill);
            &&& s.len() >= width ==> p == s
            &&& s.len() < width ==> p.len() == width
            &&& p.skip(p.len() - s.len()) == s
            &&& forall|i: int| 0 <= i < p.len() - s.len() ==> p[i] == fill
        }),
{
    let p = padded(s, width, fill);
    assert(p.skip(p.len() - s.len()) =~= s);
}

/// Whether `part` stands in `t` at the given place.
pub open spec fn stands(t: Seq<char>, at: int, part: Seq<char>) -> bool {
    0 <= at && at + part.len() <= t.len() && t.subrange(at, at + part.len()) == part
}

/// As bytes, a number is written in the same digits as otherwise.
pub proof fn law_digit_bytes(n: nat)
    ensures
        digit_bytes(n).len() == digits(n, 10).len(),
        forall|i: int|
            0 <= i < digits(n, 10).len() ==> #[trigger] digit_bytes(n)[i] as char == digits(
                n,
                10,
            )[i],
{
    lemma_digits_ascii(n);
}

} // verus!
