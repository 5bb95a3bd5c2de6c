//! Text building: decimal and hexadecimal numerals, and quoted strings.

use vstd::prelude::*;
use vstd::utf8::*;

verus! {

/// The decimal digit `d`, as text.
pub open spec fn digit_text(d: nat) -> Seq<char> {
    if d == 0 {
        "0"@
    } else if d == 1 {
        "1"@
    } else if d == 2 {
        "2"@
    } else if d == 3 {
        "3"@
    } else if d == 4 {
        "4"@
    } else if d == 5 {
        "5"@
    } else if d == 6 {
        "6"@
    } else if d == 7 {
        "7"@
    } else if d == 8 {
        "8"@
    } else {
        "9"@
    }
}

/// The lower-case hexadecimal digit `d`, as text.
pub open spec fn hex_digit_text(d: nat) -> Seq<char> {
    if d < 10 {
        digit_text(d)
    } else if d == 10 {
        "a"@
    } else if d == 11 {
        "b"@
    } else if d == 12 {
        "c"@
    } else if d == 13 {
        "d"@
    } else if d == 14 {
        "e"@
    } else {
        "f"@
    }
}

/// `n` in decimal, without leading zeros.
pub open spec fn decimal(n: nat) -> Seq<char>
    decreases n,
{
    if n < 10 {
        digit_text(n)
    } else {
        decimal(n / 10) + digit_text(n % 10)
    }
}

/// The last `width` hexadecimal digits of `n`.
pub open spec fn hex(n: nat, width: nat) -> Seq<char>
    decreases width,
{
    if width == 0 {
        Seq::empty()
    } else {
        hex(n / 16, (width - 1) as nat) + hex_digit_text(n % 16)
    }
}

/// What the `Debug` form of a string whose text is `s` reads.
pub uninterp spec fn quoted(s: Seq<char>) -> Seq<char>;

/// The `Debug` form of an optional number.
pub open spec fn option_text(n: Option<u64>) -> Seq<char> {
    match n {
        Some(v) => "Some("@ + decimal(v as nat) + ")"@,
        None => "None"@,
    }
}

/// `format!("{:?}", s)` from std: the string in quotes, with its special
/// characters escaped. The contract names the text as a function of `s` alone.
#[verifier::external_body]
fn debug_format(s: &str) -> (r: String)
    ensures
        r@ == quoted(s@),
{
    format!("{:?}", s)
}

fn digit(d: u64) -> (r: &'static str)
    requires
        d < 10,
    ensures
        r@ == digit_text(d as nat),
{
    if d == 0 {
        "0"
    } else if d == 1 {
        "1"
    } else if d == 2 {
        "2"
    } else if d == 3 {
        "3"
    } else if d == 4 {
        "4"
    } else if d == 5 {
        "5"
    } else if d == 6 {
        "6"
    } else if d == 7 {
        "7"
    } else if d == 8 {
        "8"
    } else {
        "9"
    }
}

fn hex_digit(d: u64) -> (r: &'static str)
    requires
        d < 16,
    ensures
        r@ == hex_digit_text(d as nat),
{
    if d < 10 {
        digit(d)
    } else if d == 10 {
        "a"
    } else if d == 11 {
        "b"
    } else if d == 12 {
        "c"
    } else if d == 13 {
        "d"
    } else if d == 14 {
        "e"
    } else {
        "f"
    }
}

/// Append `s`.
pub fn push_str(out: &mut String, s: &str)
    ensures
        final(out)@ == old(out)@ + s@,
{
    out.append(s);
}

/// Append `n` in decimal.
pub fn push_decimal(out: &mut String, n: u64)
    ensures
        final(out)@ == old(out)@ + decimal(n as nat),
    decreases n,
{
    let ghost before = out@;
    if n < 10 {
        out.append(digit(n));
    } else {
        push_decimal(out, n / 10);
        out.append(digit(n % 10));
        assert(out@ =~= before + (decimal((n / 10) as nat) + digit_text((n % 10) as nat)));
    }
}

/// Append the last `width` hexadecimal digits of `n`.
fn push_hex_digits(out: &mut String, n: u64, width: u8)
    ensures
        final(out)@ == old(out)@ + hex(n as nat, width as nat),
    decreases width,
{
    let ghost before = out@;
    if width > 0 {
        push_hex_digits(out, n / 16, width - 1);
        out.append(hex_digit(n % 16));
        assert(out@ =~= before + (hex((n / 16) as nat, (width - 1) as nat) + hex_digit_text(
            (n % 16) as nat,
        )));
    } else {
        assert(out@ =~= before + Seq::<char>::empty());
    }
}

/// Append `n` as sixteen hexadecimal digits.
pub fn push_hex16(out: &mut String, n: u64)
    ensures
        final(out)@ == old(out)@ + hex(n as nat, 16),
{
    push_hex_digits(out, n, 16);
}

/// Append the `Debug` form of `s`.
pub fn push_quoted(out: &mut String, s: &str)
    ensures
        final(out)@ == old(out)@ + quoted(s@),
{
    let text = debug_format(s);
    out.append(text.as_str());
}

/// Append the `Debug` form of an optional number.
pub fn push_option(out: &mut String, n: Option<u64>)
    ensures
        final(out)@ == old(out)@ + option_text(n),
{
    let ghost before = out@;
    match n {
        Some(v) => {
            out.append("Some(");
            push_decimal(out, v);
            out.append(")");
            assert(out@ =~= before + ("Some("@ + decimal(v as nat) + ")"@));
        },
        None => {
            out.append("None");
        },
    }
}

/// Digits are single characters, and different digits are different characters.
proof fn lemma_digit_text(d: nat, e: nat)
    requires
        d < 10,
        e < 10,
    ensures
        digit_text(d).len() == 1,
        digit_text(d) == digit_text(e) ==> d == e,
{
    reveal_strlit("0");
    reveal_strlit("1");
    reveal_strlit("2");
    reveal_strlit("3");
    reveal_strlit("4");
    reveal_strlit("5");
    reveal_strlit("6");
    reveal_strlit("7");
    reveal_strlit("8");
    reveal_strlit("9");
    assert(digit_text(d)[0] == digit_text(e)[0] ==> d == e);
}

/// Decimal numerals are never empty.
proof fn lemma_decimal_nonempty(n: nat)
    ensures
        decimal(n).len() >= 1,
        n >= 10 ==> decimal(n).len() >= 2,
    decreases n,
{
    lemma_digit_text(n % 10, 0);
    if n >= 10 {
        lemma_decimal_nonempty(n / 10);
    }
}

/// No decimal numeral begins with a slash.
pub proof fn lemma_decimal_is_no_slash(n: nat)
    ensures
        decimal(n).len() > 0,
        decimal(n)[0] != '/',
    decreases n,
{
    reveal_strlit("0");
    reveal_strlit("1");
    reveal_strlit("2");
    reveal_strlit("3");
    reveal_strlit("4");
    reveal_strlit("5");
    reveal_strlit("6");
    reveal_strlit("7");
    reveal_strlit("8");
    reveal_strlit("9");
    if n >= 10 {
        lemma_decimal_is_no_slash(n / 10);
    }
}

/// Two numbers with the same decimal numeral are equal.
pub proof fn law_decimal_injective(a: nat, b: nat)
    requires
        decimal(a) == decimal(b),
    ensures
        a == b,
    decreases a,
{
    lemma_decimal_nonempty(a);
    lemma_decimal_nonempty(b);
    lemma_digit_text(a % 10, b % 10);
    lemma_digit_text(b % 10, a % 10);
    if a < 10 || b < 10 {
        assert(a < 10 && b < 10);
    } else {
        let x = decimal(a);
        let n = x.len() as int;
        assert(decimal(a / 10) =~= x.subrange(0, n - 1));
        assert(decimal(b / 10) =~= x.subrange(0, n - 1));
        assert(digit_text(a % 10) =~= x.subrange(n - 1, n));
        assert(digit_text(b % 10) =~= x.subrange(n - 1, n));
        law_decimal_injective(a / 10, b / 10);
    }
}

/// Sixteen to the power `n`.
pub open spec fn power16(n: nat) -> nat
    decreases n,
{
    if n == 0 {
        1
    } else {
        16 * power16((n - 1) as nat)
    }
}

/// Hexadecimal digits are single characters, and different digits are different
/// characters.
proof fn lemma_hex_digit_text(d: nat, e: nat)
    requires
        d < 16,
        e < 16,
    ensures
        hex_digit_text(d).len() == 1,
        hex_digit_text(d) == hex_digit_text(e) ==> d == e,
{
    reveal_strlit("0");
    reveal_strlit("1");
    reveal_strlit("2");
    reveal_strlit("3");
    reveal_strlit("4");
    reveal_strlit("5");
    reveal_strlit("6");
    reveal_strlit("7");
    reveal_strlit("8");
    reveal_strlit("9");
    reveal_strlit("a");
    reveal_strlit("b");
    reveal_strlit("c");
    reveal_strlit("d");
    reveal_strlit("e");
    reveal_strlit("f");
    assert(hex_digit_text(d)[0] == hex_digit_text(e)[0] ==> d == e);
}

/// Numbers below `16^width` with the same `width` hexadecimal digits are equal.
pub proof fn law_hex_injective(a: nat, b: nat, width: nat)
    requires
        hex(a, width) == hex(b, width),
    ensures
        hex(a, width).len() == width,
        a < power16(width) && b < power16(width) ==> a == b,
    decreases width,
{
    if width > 0 {
        lemma_hex_len(a / 16, (width - 1) as nat);
        lemma_hex_len(b / 16, (width - 1) as nat);
        lemma_hex_digit_text(a % 16, b % 16);
        lemma_hex_digit_text(b % 16, a % 16);
        let x = hex(a, width);
        let n = width as int;
        assert(hex(a / 16, (width - 1) as nat) =~= x.subrange(0, n - 1));
        assert(hex(b / 16, (width - 1) as nat) =~= x.subrange(0, n - 1));
        assert(hex_digit_text(a % 16) =~= x.subrange(n - 1, n));
        assert(hex_digit_text(b % 16) =~= x.subrange(n - 1, n));
        law_hex_injective(a / 16, b / 16, (width - 1) as nat);
    }
}

proof fn lemma_hex_len(n: nat, width: nat)
    ensures
        hex(n, width).len() == width,
    decreases width,
{
    if width > 0 {
        lemma_hex_len(n / 16, (width - 1) as nat);
        lemma_hex_digit_text(n % 16, 0);
    }
}

/// The order of byte strings: that of the first byte in which they differ, a prefix
/// before what it is a prefix of.
pub open spec fn bytes_before(a: Seq<u8>, b: Seq<u8>) -> bool
    decreases a.len(),
{
    if b.len() == 0 {
        false
    } else if a.len() == 0 {
        true
    } else if a[0] != b[0] {
        a[0] < b[0]
    } else {
        bytes_before(a.drop_first(), b.drop_first())
    }
}

/// The order of texts: that of their UTF-8 bytes.
pub open spec fn text_before(a: Seq<char>, b: Seq<char>) -> bool {
    bytes_before(encode_utf8(a), encode_utf8(b))
}

/// Byte strings that agree up to `i` compare as what is left of them.
proof fn lemma_bytes_skip(a: Seq<u8>, b: Seq<u8>, i: int)
    requires
        0 <= i <= a.len(),
        i <= b.len(),
        forall|k: int| 0 <= k < i ==> a[k] == b[k],
    ensures
        bytes_before(a, b) == bytes_before(a.skip(i), b.skip(i)),
    decreases i,
{
    if i == 0 {
        assert(a.skip(0) =~= a);
        assert(b.skip(0) =~= b);
    } else {
        assert(a[0] == b[0]);
        assert forall|k: int| 0 <= k < i - 1 implies a.drop_first()[k] == b.drop_first()[k] by {
            assert(a[k + 1] == b[k + 1]);
        }
        lemma_bytes_skip(a.drop_first(), b.drop_first(), i - 1);
        assert(a.drop_first().skip(i - 1) =~= a.skip(i));
        assert(b.drop_first().skip(i - 1) =~= b.skip(i));
    }
}

/// Whether `a` comes before `b`.
pub fn is_before(a: &str, b: &str) -> (r: bool)
    ensures
        r == text_before(a@, b@),
{
    let x = a.as_bytes();
    let y = b.as_bytes();
    let mut i: usize = 0;
    while i < x.len() && i < y.len()
        invariant
            i <= x@.len(),
            i <= y@.len(),
            x@ == encode_utf8(a@),
            y@ == encode_utf8(b@),
            forall|k: int| 0 <= k < i ==> x@[k] == y@[k],
        decreases x@.len() - i,
    {
        if x[i] != y[i] {
            proof {
                lemma_bytes_skip(x@, y@, i as int);
                assert(x@.skip(i as int)[0] == x@[i as int]);
                assert(y@.skip(i as int)[0] == y@[i as int]);
            }
            return x[i] < y[i];
        }
        i += 1;
    }
    proof {
        lemma_bytes_skip(x@, y@, i as int);
    }
    i < y.len()
}

proof fn lemma_bytes_order(a: Seq<u8>, b: Seq<u8>, c: Seq<u8>)
    ensures
        !bytes_before(a, a),
        bytes_before(a, b) ==> !bytes_before(b, a),
        bytes_before(a, b) && bytes_before(b, c) ==> bytes_before(a, c),
        !bytes_before(a, b) && !bytes_before(b, a) ==> a == b,
    decreases a.len(), b.len(), c.len(),
{
    if a.len() > 0 {
        let a1 = a.drop_first();
        lemma_bytes_order(a1, b.drop_first(), c.drop_first());
        if b.len() > 0 && a[0] == b[0] && a1 == b.drop_first() {
            assert(a =~= seq![a[0]] + a1);
            assert(b =~= seq![b[0]] + b.drop_first());
        }
    } else if b.len() == 0 {
        assert(a =~= b);
    }
}

/// The order of texts is a strict total order.
pub proof fn law_text_order(a: Seq<char>, b: Seq<char>, c: Seq<char>)
    ensures
        !text_before(a, a),
        text_before(a, b) ==> !text_before(b, a),
        text_before(a, b) && text_before(b, c) ==> text_before(a, c),
        !text_before(a, b) && !text_before(b, a) ==> a == b,
{
    lemma_bytes_order(encode_utf8(a), encode_utf8(b), encode_utf8(c));
    encode_utf8_decode_utf8(a);
    encode_utf8_decode_utf8(b);
}

/// Whether `c` has the Unicode property White_Space.
pub open spec fn is_white(c: char) -> bool {
    let n = c as u32;
    ||| 0x09 <= n <= 0x0D
    ||| n == 0x20
    ||| n == 0x85
    ||| n == 0xA0
    ||| n == 0x1680
    ||| 0x2000 <= n <= 0x200A
    ||| n == 0x2028
    ||| n == 0x2029
    ||| n == 0x202F
    ||| n == 0x205F
    ||| n == 0x3000
}

/// Whether `c` is white space.
pub fn is_white_space(c: char) -> (r: bool)
    ensures
        r == is_white(c),
{
    let n: u32 = c as u32;
    (0x09 <= n && n <= 0x0D) || n == 0x20 || n == 0x85 || n == 0xA0 || n == 0x1680 || (0x2000 <= n
        && n <= 0x200A) || n == 0x2028 || n == 0x2029 || n == 0x202F || n == 0x205F || n == 0x3000
}

/// `s` without the white space in front.
pub open spec fn trimmed_start(s: Seq<char>) -> Seq<char>
    decreases s.len(),
{
    if s.len() > 0 && is_white(s[0]) {
        trimmed_start(s.drop_first())
    } else {
        s
    }
}

/// `s` without the white space behind.
pub open spec fn trimmed_end(s: Seq<char>) -> Seq<char>
    decreases s.len(),
{
    if s.len() > 0 && is_white(s.last()) {
        trimmed_end(s.drop_last())
    } else {
        s
    }
}

/// `s` without the white space around it.
pub open spec fn trimmed(s: Seq<char>) -> Seq<char> {
    trimmed_end(trimmed_start(s))
}

/// Where the text of `s` without the white space around it starts and ends.
pub fn trim_bounds(s: &str) -> (r: (usize, usize))
    ensures
        r.0 <= r.1 <= s@.len(),
        s@.subrange(r.0 as int, r.1 as int) == trimmed(s@),
{
    let n: usize = s.unicode_len();
    let mut lo: usize = 0;
    assert(s@.skip(0) =~= s@);
    while lo < n && is_white_space(s.get_char(lo))
        invariant
            lo <= n,
            n == s@.len(),
            trimmed_start(s@) == trimmed_start(s@.skip(lo as int)),
        decreases n - lo,
    {
        assert(s@.skip(lo as int).drop_first() =~= s@.skip(lo + 1));
        lo += 1;
    }
    let ghost rest = s@.skip(lo as int);
    assert(trimmed_start(s@) == rest);
    let mut hi: usize = n;
    assert(s@.subrange(lo as int, n as int) =~= rest);
    while hi > lo && is_white_space(s.get_char(hi - 1))
        invariant
            lo <= hi <= n,
            n == s@.len(),
            trimmed_end(rest) == trimmed_end(s@.subrange(lo as int, hi as int)),
        decreases hi - lo,
    {
        assert(s@.subrange(lo as int, hi as int).drop_last() =~= s@.subrange(
            lo as int,
            hi as int - 1,
        ));
        hi -= 1;
    }
    (lo, hi)
}

/// Text without white space around it is its own trimming.
pub proof fn law_trimming_is_idempotent(s: Seq<char>)
    ensures
        trimmed(trimmed(s)) == trimmed(s),
{
    lemma_trimmed_start(s);
    lemma_trimmed_end(trimmed_start(s));
}

proof fn lemma_trimmed_start(s: Seq<char>)
    ensures
        trimmed_start(s).len() > 0 ==> !is_white(trimmed_start(s)[0]),
    decreases s.len(),
{
    if s.len() > 0 && is_white(s[0]) {
        lemma_trimmed_start(s.drop_first());
    }
}

proof fn lemma_trimmed_end(s: Seq<char>)
    ensures
        trimmed_end(s).len() > 0 ==> !is_white(trimmed_end(s).last()),
        trimmed_end(s).len() > 0 ==> s.len() > 0 && trimmed_end(s)[0] == s[0],
    decreases s.len(),
{
    if s.len() > 0 && is_white(s.last()) {
        lemma_trimmed_end(s.drop_last());
    }
}

pub open spec fn is_digit(c: char) -> bool {
    '0' <= c && c <= '9'
}

/// The number that the digits of `s` stand for.
pub open spec fn digits_value(s: Seq<char>) -> nat
    decreases s.len(),
{
    if s.len() == 0 {
        0
    } else {
        10 * digits_value(s.drop_last()) + (if is_digit(s.last()) {
            (s.last() as u32 - '0' as u32) as nat
        } else {
            0
        })
    }
}

/// Whether `s` is digits throughout.
pub open spec fn all_digits(s: Seq<char>) -> bool {
    forall|i: int| 0 <= i < s.len() ==> is_digit(#[trigger] s[i])
}

/// `s` without a plus in front.
pub open spec fn unsigned(s: Seq<char>) -> Seq<char> {
    if s.len() > 0 && s[0] == '+' {
        s.drop_first()
    } else {
        s
    }
}

/// The number that digits read as, if it fits.
pub open spec fn read_digits(s: Seq<char>) -> Option<u64> {
    if s.len() > 0 && all_digits(s) && digits_value(s) <= u64::MAX {
        Some(digits_value(s) as u64)
    } else {
        None
    }
}

/// The number that `s` reads as: decimal digits, with or without one plus in front, of a
/// number that fits.
pub open spec fn read_u64(s: Seq<char>) -> Option<u64> {
    read_digits(unsigned(s))
}

proof fn lemma_digits_grow(s: Seq<char>, k: int)
    requires
        0 <= k <= s.len(),
    ensures
        digits_value(s.take(k)) <= digits_value(s),
    decreases s.len() - k,
{
    if k < s.len() {
        lemma_digits_grow(s, k + 1);
        assert(s.take(k + 1).drop_last() =~= s.take(k));
    } else {
        assert(s.take(k) =~= s);
    }
}

/// Read the number that stands between `lo` and `hi` in `s`.
pub fn parse_u64(s: &str, lo: usize, hi: usize) -> (r: Option<u64>)
    requires
        lo <= hi <= s@.len(),
    ensures
        r == read_u64(s@.subrange(lo as int, hi as int)),
{
    let n: usize = s.unicode_len();
    let ghost all = s@.subrange(lo as int, hi as int);
    let mut i: usize = lo;
    if lo < hi && s.get_char(lo) == '+' {
        i = lo + 1;
    }
    let start: usize = i;
    let ghost digits = s@.subrange(start as int, hi as int);
    assert(digits =~= unsigned(all));
    if start == hi {
        return None;
    }
    let mut value: u64 = 0;
    assert(digits.take(0) =~= Seq::<char>::empty());
    while i < hi
        invariant
            start <= i <= hi,
            start < hi <= n,
            n == s@.len(),
            digits == s@.subrange(start as int, hi as int),
            value == digits_value(digits.take(i - start)),
            forall|k: int| 0 <= k < i - start ==> is_digit(#[trigger] digits[k]),
            digits == unsigned(s@.subrange(lo as int, hi as int)),
        decreases hi - i,
    {
        let c: char = s.get_char(i);
        assert(c == digits[i - start]);
        if c < '0' || c > '9' {
            assert(!is_digit(digits[i - start]));
            assert(!all_digits(digits));
            return None;
        }
        let d: u64 = (c as u32 - '0' as u32) as u64;
        proof {
            assert(digits.take(i - start + 1).drop_last() =~= digits.take(i - start));
            assert(digits_value(digits.take(i - start + 1)) == 10 * value + d);
            lemma_digits_grow(digits, i - start + 1);
        }
        if value > (u64::MAX - d) / 10 {
            assert(10 * value + d > u64::MAX);
            return None;
        }
        value = value * 10 + d;
        i += 1;
    }
    assert(digits.take(i - start) =~= digits);
    Some(value)
}

/// A number is written in digits, and they read back as the number.
pub proof fn law_numbers_read_back(n: nat)
    ensures
        decimal(n).len() > 0,
        all_digits(decimal(n)),
        digits_value(decimal(n)) == n,
        n <= u64::MAX ==> read_u64(decimal(n)) == Some(n as u64),
        n > 0 ==> decimal(n)[0] != '0',
    decreases n,
{
    if n < 10 {
        lemma_digit(n);
        let s = digit_text(n);
        assert(s.drop_last().len() == 0);
        assert(digits_value(s.drop_last()) == 0);
        assert(s.last() == s[0]);
    } else {
        law_numbers_read_back(n / 10);
        lemma_digit(n % 10);
        let head = decimal(n / 10);
        let s = decimal(n);
        assert(s == head + digit_text(n % 10));
        assert(s.drop_last() =~= head);
        assert(s.last() == digit_text(n % 10)[0]);
        assert forall|i: int| 0 <= i < s.len() implies is_digit(#[trigger] s[i]) by {
            if i < head.len() {
                assert(s[i] == head[i]);
            }
        }
        assert(s[0] == head[0]);
        assert(10 * (n / 10) + n % 10 == n);
    }
    assert(unsigned(decimal(n)) == decimal(n));
}

proof fn lemma_digit(d: nat)
    requires
        d < 10,
    ensures
        digit_text(d).len() == 1,
        is_digit(digit_text(d)[0]),
        digit_text(d)[0] as u32 - '0' as u32 == d,
{
    reveal_strlit("0");
    reveal_strlit("1");
    reveal_strlit("2");
    reveal_strlit("3");
    reveal_strlit("4");
    reveal_strlit("5");
    reveal_strlit("6");
    reveal_strlit("7");
    reveal_strlit("8");
    reveal_strlit("9");
}

/// A text reads as a number exactly where it is digits, one or more, behind a plus or
/// none, and the number is not too great; each digit counts ten times the one after.
pub proof fn law_digits_make_a_number(s: Seq<char>, c: char)
    ensures
        read_u64(Seq::empty()) is None,
        '0' <= c && c <= '9' ==> digits_value(s.push(c)) == 10 * digits_value(s) + (c as u32
            - '0' as u32),
        !('0' <= c && c <= '9') ==> read_u64(s.push(c)) is None || (s.len() == 0 && c == '+'),
        read_digits(s) is Some ==> read_digits(s)->0 == digits_value(s),
        s.len() > 0 && s[0] != '+' ==> read_u64(s) == read_digits(s),
        read_u64(seq!['+'] + s) == read_digits(s),
{
    assert(s.push(c).drop_last() =~= s);
    assert(s.push(c).last() == c);
    if !('0' <= c && c <= '9') {
        let t = s.push(c);
        let u = unsigned(t);
        if u.len() > 0 {
            assert(u[u.len() - 1] == c);
            assert(!is_digit(u[u.len() - 1]));
        }
    }
    let plus = seq!['+'] + s;
    assert(plus.drop_first() =~= s);
}

/// What stands first where two strings of bytes part decides their order, and a beginning
/// comes before what it begins.
pub proof fn law_bytes_are_ordered_where_they_part(
    head: Seq<u8>,
    x: u8,
    y: u8,
    s: Seq<u8>,
    t: Seq<u8>,
)
    requires
        x != y,
    ensures
        bytes_before(head + seq![x] + s, head + seq![y] + t) <==> x < y,
        bytes_before(head, head + seq![x] + s),
        !bytes_before(head + seq![x] + s, head),
    decreases head.len(),
{
    let a = head + seq![x] + s;
    let b = head + seq![y] + t;
    if head.len() > 0 {
        let rest = head.drop_first();
        law_bytes_are_ordered_where_they_part(rest, x, y, s, t);
        assert(a.drop_first() =~= rest + seq![x] + s);
        assert(b.drop_first() =~= rest + seq![y] + t);
        assert(a[0] == head[0] && b[0] == head[0]);
    } else {
        assert(a[0] == x && b[0] == y);
    }
}

/// Trimming takes white space off both ends, all of it and nothing else.
pub proof fn law_trimming_takes_white_space(s: Seq<char>) -> (ends: (int, int))
    ensures
        0 <= ends.0 <= ends.1 <= s.len(),
        trimmed(s) == s.subrange(ends.0, ends.1),
        forall|i: int| 0 <= i < ends.0 ==> is_white(#[trigger] s[i]),
        forall|i: int| ends.1 <= i < s.len() ==> is_white(#[trigger] s[i]),
        ends.0 < ends.1 ==> !is_white(s[ends.0]) && !is_white(s[ends.1 - 1]),
{
    let lo = lemma_trim_start(s);
    let mid = trimmed_start(s);
    let len = lemma_trim_end(mid);
    assert(mid == s.skip(lo));
    assert(trimmed(s) =~= s.subrange(lo, lo + len));
    assert forall|i: int| lo + len <= i < s.len() implies is_white(#[trigger] s[i]) by {
        assert(mid[i - lo] == s[i]);
    }
    if len > 0 {
        assert(mid[0] == s[lo]);
        assert(mid[len - 1] == s[lo + len - 1]);
    }
    (lo, lo + len)
}

proof fn lemma_trim_start(s: Seq<char>) -> (lo: int)
    ensures
        0 <= lo <= s.len(),
        trimmed_start(s) == s.skip(lo),
        forall|i: int| 0 <= i < lo ==> is_white(#[trigger] s[i]),
        lo < s.len() ==> !is_white(s[lo]),
    decreases s.len(),
{
    if s.len() > 0 && is_white(s[0]) {
        let rest = s.drop_first();
        let lo = lemma_trim_start(rest);
        assert(rest.skip(lo) =~= s.skip(lo + 1));
        assert forall|i: int| 0 <= i < lo + 1 implies is_white(#[trigger] s[i]) by {
            if i > 0 {
                assert(rest[i - 1] == s[i]);
            }
        }
        lo + 1
    } else {
        assert(s.skip(0) =~= s);
        0
    }
}

proof fn lemma_trim_end(s: Seq<char>) -> (hi: int)
    ensures
        0 <= hi <= s.len(),
        trimmed_end(s) == s.take(hi),
        forall|i: int| hi <= i < s.len() ==> is_white(#[trigger] s[i]),
        hi > 0 ==> !is_white(s[hi - 1]),
    decreases s.len(),
{
    if s.len() > 0 && is_white(s.last()) {
        let fore = s.drop_last();
        let hi = lemma_trim_end(fore);
        assert(fore.take(hi) =~= s.take(hi));
        assert forall|i: int| hi <= i < s.len() implies is_white(#[trigger] s[i]) by {
            if i < fore.len() {
                assert(fore[i] == s[i]);
            }
        }
        hi
    } else {
        assert(s.take(s.len() as int) =~= s);
        s.len() as int
    }
}

/// A space, a tab and the ends of lines are white space; letters, digits and signs are not.
pub proof fn law_white_space(c: char)
    ensures
        c == ' ' || c == '\t' || c == '\n' || c == '\r' ==> is_white(c),
        '!' <= c && c <= '~' ==> !is_white(c),
{
}

/// Sixteen digits, of which the last six are small letters from a to f, and each stands
/// for sixteen times as much as the one behind it.
pub proof fn law_hex_digits(n: nat, width: nat, d: nat)
    ensures
        hex(n, 0).len() == 0,
        hex(n, width + 1) == hex(n / 16, width) + hex_digit_text(n % 16),
        d < 10 ==> hex_digit_text(d).len() == 1 && hex_digit_text(d)[0] as u32 == '0' as u32 + d,
        10 <= d < 16 ==> hex_digit_text(d).len() == 1 && hex_digit_text(d)[0] as u32 == 'a' as u32
            + d - 10,
{
    if d < 10 {
        lemma_digit(d);
    }
    reveal_strlit("a");
    reveal_strlit("b");
    reveal_strlit("c");
    reveal_strlit("d");
    reveal_strlit("e");
    reveal_strlit("f");
}

} // verus!
