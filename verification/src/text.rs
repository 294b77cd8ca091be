//! Numbers and strings as text.
use vstd::arithmetic::power::pow;
use vstd::prelude::*;
use vstd::string::StringExecFns;

verus! {

/// `String::push`: "Appends the given `char` to the end of this `String`."
pub assume_specification[ String::push ](s: &mut String, c: char)
    ensures
        final(s)@ == old(s)@.push(c),
;

/// The character of a digit below 16, in lower or upper case.
pub open spec fn digit(d: nat, upper: bool) -> char {
    if d < 10 {
        (d + 48) as char
    } else if upper {
        (d + 55) as char
    } else {
        (d + 87) as char
    }
}

/// `n` in decimal, without leading zeros.
pub open spec fn decimal(n: nat) -> Seq<char>
    decreases n,
{
    if n < 10 {
        seq![digit(n, false)]
    } else {
        decimal(n / 10).push(digit(n % 10, false))
    }
}

/// The last `width` hexadecimal digits of `n`.
pub open spec fn hex(n: nat, width: nat, upper: bool) -> Seq<char>
    decreases width,
{
    if width == 0 {
        Seq::empty()
    } else {
        hex(n / 16, (width - 1) as nat, upper).push(digit(n % 16, upper))
    }
}

/// The character of a digit.
pub fn digit_char(d: u8, upper: bool) -> (c: char)
    requires
        d < 16,
    ensures
        c == digit(d as nat, upper),
{
    if d < 10 {
        (d + 48u8) as char
    } else if upper {
        (d + 55u8) as char
    } else {
        (d + 87u8) as char
    }
}

/// Appends `n` in decimal.
pub fn push_decimal(out: &mut String, n: u64)
    ensures
        final(out)@ == old(out)@ + decimal(n as nat),
    decreases n,
{
    if n >= 10 {
        push_decimal(out, n / 10);
    }
    out.push(digit_char((n % 10) as u8, false));
    assert(out@ =~= old(out)@ + decimal(n as nat));
}

/// Appends the last `width` hexadecimal digits of `n`.
pub fn push_hex(out: &mut String, n: u64, width: u32, upper: bool)
    ensures
        final(out)@ == old(out)@ + hex(n as nat, width as nat, upper),
    decreases width,
{
    if width > 0 {
        push_hex(out, n / 16, width - 1, upper);
        out.push(digit_char((n % 16) as u8, upper));
    }
    assert(out@ =~= old(out)@ + hex(n as nat, width as nat, upper));
}

/// Hexadecimal digits of `n`, in upper case, without leading zeros.
pub open spec fn hex_number(n: nat) -> Seq<char>
    decreases n,
{
    if n < 16 {
        seq![digit(n, true)]
    } else {
        hex_number(n / 16).push(digit(n % 16, true))
    }
}

/// Appends the hexadecimal digits of `n`, in upper case, without leading zeros.
pub fn push_hex_number(out: &mut String, n: u64)
    ensures
        final(out)@ == old(out)@ + hex_number(n as nat),
    decreases n,
{
    if n >= 16 {
        push_hex_number(out, n / 16);
    }
    out.push(digit_char((n % 16) as u8, true));
    assert(out@ =~= old(out)@ + hex_number(n as nat));
}

/// `n` in decimal.
pub fn decimal_text(n: u64) -> (out: String)
    ensures
        out@ == decimal(n as nat),
{
    let mut out = String::new();
    push_decimal(&mut out, n);
    assert(out@ =~= decimal(n as nat));
    out
}

/// `b` as a word.
pub open spec fn truth(b: bool) -> Seq<char> {
    if b {
        "true"@
    } else {
        "false"@
    }
}

/// Appends `b` as a word.
pub fn push_bool(out: &mut String, b: bool)
    ensures
        final(out)@ == old(out)@ + truth(b),
{
    if b {
        out.append("true");
    } else {
        out.append("false");
    }
}

/// `s` flush left in a column of `width` characters.
pub open spec fn padded(s: Seq<char>, width: nat) -> Seq<char> {
    if s.len() < width {
        s + Seq::new((width - s.len()) as nat, |i: int| ' ')
    } else {
        s
    }
}

/// Appends `s` flush left in a column of `width` characters.
pub fn push_padded(out: &mut String, s: &str, width: usize)
    ensures
        final(out)@ == old(out)@ + padded(s@, width as nat),
{
    out.append(s);
    let n: usize = s.unicode_len();
    let mut i: usize = n;
    let ghost start = out@;
    while i < width
        invariant
            n <= i,
            i <= width || i == n,
            out@ =~= start + Seq::new((i - n) as nat, |j: int| ' '),
        decreases width - i,
    {
        out.push(' ');
        i = i + 1;
    }
    assert(out@ =~= old(out)@ + padded(s@, width as nat));
}

/// The number that decimal digits spell out.
pub open spec fn number(s: Seq<char>) -> nat
    decreases s.len(),
{
    if s.len() == 0 {
        0
    } else {
        number(s.drop_last()) * 10 + (s.last() as nat - 48) as nat
    }
}

/// Decimal digits alone, and at least one of them.
pub open spec fn all_digits(s: Seq<char>) -> bool {
    s.len() > 0 && forall|i: int| 0 <= i < s.len() ==> '0' <= #[trigger] s[i] && s[i] <= '9'
}

/// The digits of a number, behind an optional plus sign.
pub open spec fn unsigned_part(s: Seq<char>) -> Seq<char> {
    if s.len() > 0 && s[0] == '+' {
        s.drop_first()
    } else {
        s
    }
}

/// The number that `s` spells out in decimal, with an optional plus sign in front: `None`
/// unless the rest is digits alone and the number is at most `max`.
pub open spec fn parsed(s: Seq<char>, max: nat) -> Option<nat> {
    let d = unsigned_part(s);
    if all_digits(d) && number(d) <= max {
        Some(number(d))
    } else {
        None
    }
}

/// Reads a number of at most `max`.
pub fn parse_number(s: &str, max: u64) -> (r: Option<u64>)
    ensures
        match r {
            Some(n) => parsed(s@, max as nat) == Some(n as nat),
            None => parsed(s@, max as nat) is None,
        },
{
    let n: usize = s.unicode_len();
    let start: usize = if n > 0 && s.get_char(0) == '+' {
        1
    } else {
        0
    };
    let ghost d = unsigned_part(s@);
    assert(d =~= s@.skip(start as int));
    if start >= n {
        return None;
    }
    let mut value: u64 = 0;
    let mut i: usize = start;
    while i < n
        invariant
            n == s@.len(),
            start <= i <= n,
            d == s@.skip(start as int),
            d.len() > 0,
            d == unsigned_part(s@),
            value == number(d.take(i - start)),
            value <= max,
            forall|j: int| 0 <= j < i - start ==> '0' <= #[trigger] d[j] && d[j] <= '9',
        decreases n - i,
    {
        let c = s.get_char(i);
        proof {
            assert(c == d[i - start]);
        }
        if c < '0' || c > '9' {
            return None;
        }
        let digit: u64 = (c as u32 - 48) as u64;
        proof {
            let t = d.take(i - start + 1);
            assert(t.drop_last() =~= d.take(i - start));
            assert(number(t) == value * 10 + digit);
            if value * 10 + digit > max {
                lemma_number_grows(d, i - start + 1);
            }
        }
        let wide: u128 = value as u128 * 10 + digit as u128;
        if wide > max as u128 {
            return None;
        }
        value = wide as u64;
        i = i + 1;
    }
    assert(d.take(n - start) =~= d);
    Some(value)
}

/// Further digits do not make a number smaller.
proof fn lemma_number_grows(s: Seq<char>, n: int)
    requires
        0 <= n <= s.len(),
    ensures
        number(s.take(n)) <= number(s),
    decreases s.len() - n,
{
    if n < s.len() {
        assert(s.take(n + 1).drop_last() =~= s.take(n));
        lemma_number_grows(s, n + 1);
    } else {
        assert(s.take(n) =~= s);
    }
}

/// One character of a JSON string literal.
pub open spec fn json_char(c: char) -> Seq<char> {
    if c == '"' {
        "\\\""@
    } else if c == '\\' {
        "\\\\"@
    } else if (c as u32) < 0x20 {
        "\\u"@ + hex(c as nat, 4, false)
    } else {
        seq![c]
    }
}

/// The characters of a JSON string literal, without its quotes.
pub open spec fn json_body(s: Seq<char>) -> Seq<char>
    decreases s.len(),
{
    if s.len() == 0 {
        Seq::empty()
    } else {
        json_body(s.drop_last()) + json_char(s.last())
    }
}

/// JSON string literal for `s` (quotes, backslashes and control characters escaped).
pub fn json_str(s: &str) -> (out: String)
    ensures
        out@ == seq!['"'] + json_body(s@) + seq!['"'],
{
    let mut out = String::new();
    out.push('"');
    let n: usize = s.unicode_len();
    let mut i: usize = 0;
    while i < n
        invariant
            n == s@.len(),
            i <= n,
            out@ == seq!['"'] + json_body(s@.take(i as int)),
        decreases n - i,
    {
        let c = s.get_char(i);
        let ghost before = out@;
        if c == '"' {
            out.append("\\\"");
        } else if c == '\\' {
            out.append("\\\\");
        } else if (c as u32) < 0x20 {
            out.append("\\u");
            push_hex(&mut out, c as u64, 4, false);
        } else {
            out.push(c);
        }
        proof {
            let t = s@.take(i + 1);
            assert(t.drop_last() =~= s@.take(i as int));
            assert(out@ =~= before + json_char(c));
            assert(out@ =~= seq!['"'] + json_body(t));
        }
        i = i + 1;
    }
    assert(s@.take(n as int) =~= s@);
    out.push('"');
    assert(out@ =~= seq!['"'] + json_body(s@) + seq!['"']);
    out
}

/// The value of a lower-case hexadecimal digit.
pub open spec fn digit_value(c: char) -> nat {
    if c <= '9' {
        (c as nat - 48) as nat
    } else {
        (c as nat - 87) as nat
    }
}

/// What the characters between the quotes of a JSON string literal stand for.
pub open spec fn json_meaning(s: Seq<char>) -> Seq<char>
    decreases s.len(),
{
    if s.len() == 0 {
        Seq::empty()
    } else if s[0] == '\\' && s.len() >= 6 && s[1] == 'u' {
        seq![
            (digit_value(s[2]) * 4096 + digit_value(s[3]) * 256 + digit_value(s[4]) * 16
                + digit_value(s[5])) as char,
        ] + json_meaning(s.skip(6))
    } else if s[0] == '\\' && s.len() >= 2 {
        seq![s[1]] + json_meaning(s.skip(2))
    } else {
        seq![s[0]] + json_meaning(s.skip(1))
    }
}

proof fn lemma_json_char_meaning(c: char, rest: Seq<char>)
    ensures
        json_meaning(json_char(c) + rest) == seq![c] + json_meaning(rest),
        forall|i: int| 0 <= i < json_char(c).len() ==> #[trigger] json_char(c)[i] as u32 >= 0x20,
{
    reveal_strlit("\\\"");
    reveal_strlit("\\\\");
    reveal_strlit("\\u");
    let t = json_char(c);
    let s = t + rest;
    if c == '"' || c == '\\' {
        assert(s.skip(2) =~= rest);
    } else if (c as u32) < 0x20 {
        let n = c as nat;
        reveal_with_fuel(hex, 5);
        assert(n / 16 / 16 == 0 && n / 16 / 16 / 16 == 0);
        assert(t =~= seq!['\\', 'u', '0', '0', digit(n / 16, false), digit(n % 16, false)]);
        assert(s.skip(6) =~= rest);
        assert(digit_value(digit(n / 16, false)) == n / 16);
        assert(digit_value(digit(n % 16, false)) == n % 16);
    } else {
        assert(s.skip(1) =~= rest);
    }
}

/// Text survives JSON: the literal of a string stands for that string, and holds no control
/// character.
pub proof fn lemma_json_round_trip(s: Seq<char>, rest: Seq<char>)
    ensures
        json_meaning(json_body(s) + rest) == s + json_meaning(rest),
        json_meaning(json_body(s)) == s,
        forall|i: int| 0 <= i < json_body(s).len() ==> #[trigger] json_body(s)[i] as u32 >= 0x20,
    decreases s.len(),
{
    if s.len() == 0 {
        assert(json_body(s) + rest =~= rest);
        assert(s + json_meaning(rest) =~= json_meaning(rest));
        assert(s =~= Seq::empty());
    } else {
        let c = s.last();
        let t = s.drop_last();
        let empty = Seq::<char>::empty();
        lemma_json_round_trip(t, json_char(c) + rest);
        lemma_json_round_trip(t, json_char(c));
        lemma_json_char_meaning(c, rest);
        lemma_json_char_meaning(c, empty);
        assert(json_body(s) + rest =~= json_body(t) + (json_char(c) + rest));
        assert(json_char(c) + empty =~= json_char(c));
        assert(s =~= t + seq![c]);
        assert(t + (seq![c] + json_meaning(rest)) =~= s + json_meaning(rest));
        assert(seq![c] + json_meaning(empty) =~= seq![c]);
    }
}

/// A number in decimal reads back as that number: it is digits alone, without leading zeros,
/// and spells the number out.
pub proof fn lemma_decimal_reads_back(n: nat, max: nat)
    ensures
        all_digits(decimal(n)),
        number(decimal(n)) == n,
        decimal(n).len() > 1 ==> decimal(n)[0] != '0',
        n <= max ==> parsed(decimal(n), max) == Some(n),
        n > max ==> parsed(decimal(n), max) is None,
    decreases n,
{
    let s = decimal(n);
    if n < 10 {
        reveal_with_fuel(number, 2);
        assert(s.drop_last() =~= Seq::<char>::empty());
    } else {
        lemma_decimal_reads_back(n / 10, max);
        let t = decimal(n / 10);
        assert(s.drop_last() =~= t);
        assert forall|i: int| 0 <= i < s.len() implies '0' <= #[trigger] s[i] && s[i] <= '9' by {
            if i < t.len() {
                assert(s[i] == t[i]);
            }
        }
        assert(s[0] == t[0]);
        if t.len() == 1 {
            assert(number(t) == t[0] as nat - 48) by {
                reveal_with_fuel(number, 2);
                assert(t.drop_last() =~= Seq::<char>::empty());
            }
        }
    }
}

/// A plus sign and leading zeros do not change what a number spells out, and anything but
/// digits behind the sign makes it no number.
pub proof fn lemma_number_forms(s: Seq<char>, max: nat, i: int)
    requires
        all_digits(s),
    ensures
        parsed(s, max) == parsed(seq!['0'] + s, max),
        parsed(s, max) == parsed(seq!['+'] + s, max),
        parsed(s, max) is Some <==> number(s) <= max,
        parsed(s, max) matches Some(n) ==> n == number(s),
        parsed(Seq::<char>::empty(), max) is None,
        parsed(seq!['+'], max) is None,
        0 <= i < s.len() ==> parsed(s.update(i, '-'), max) is None,
{
    let z = seq!['0'] + s;
    lemma_number_zero(s);
    assert('0' <= s[0]);
    assert forall|j: int| 0 <= j < z.len() implies '0' <= #[trigger] z[j] && z[j] <= '9' by {
        if j > 0 {
            assert(z[j] == s[j - 1]);
        }
    }
    assert((seq!['+'] + s).drop_first() =~= s);
    assert(seq!['+'].drop_first() =~= Seq::<char>::empty());
    if 0 <= i < s.len() {
        let u = s.update(i, '-');
        assert(u[i] == '-');
        if u[0] == '+' {
            assert(u[0] == s[0]);
        }
        assert(!all_digits(u));
    }
}

proof fn lemma_number_zero(s: Seq<char>)
    ensures
        number(seq!['0'] + s) == number(s),
    decreases s.len(),
{
    let z = seq!['0'] + s;
    if s.len() == 0 {
        reveal_with_fuel(number, 2);
        assert(z.drop_last() =~= Seq::<char>::empty());
    } else {
        lemma_number_zero(s.drop_last());
        assert(z.drop_last() =~= seq!['0'] + s.drop_last());
    }
}

/// The number that hexadecimal digits of either case spell out.
pub open spec fn hex_value(s: Seq<char>) -> nat
    decreases s.len(),
{
    if s.len() == 0 {
        0
    } else {
        let c = s.last();
        hex_value(s.drop_last()) * 16 + (if c <= '9' {
            c as nat - 48
        } else if c <= 'F' {
            c as nat - 55
        } else {
            c as nat - 87
        }) as nat
    }
}

/// A number in hexadecimal reads back as that number. A field of `width` digits holds the
/// number if it is below 16^`width`, with zeros in front; without a width there are none.
pub proof fn lemma_hex_reads_back(n: nat, width: nat, upper: bool)
    ensures
        hex(n, width, upper).len() == width,
        n < pow(16, width) ==> hex_value(hex(n, width, upper)) == n,
        hex_value(hex_number(n)) == n,
        hex_number(n).len() > 1 ==> hex_number(n)[0] != '0',
{
    lemma_hex_field(n, width, upper);
    lemma_hex_number(n);
}

proof fn lemma_hex_field(n: nat, width: nat, upper: bool)
    ensures
        hex(n, width, upper).len() == width,
        n < pow(16, width) ==> hex_value(hex(n, width, upper)) == n,
    decreases width,
{
    reveal(pow);
    if width > 0 {
        let rest = (width - 1) as nat;
        lemma_hex_field(n / 16, rest, upper);
        let s = hex(n, width, upper);
        assert(s.drop_last() =~= hex(n / 16, rest, upper));
        assert(pow(16, width) == 16 * pow(16, rest));
    }
}

proof fn lemma_hex_number(n: nat)
    ensures
        hex_value(hex_number(n)) == n,
        hex_number(n).len() >= 1,
        hex_number(n)[0] == '0' ==> n == 0,
    decreases n,
{
    let s = hex_number(n);
    if n < 16 {
        reveal_with_fuel(hex_value, 2);
        assert(s.drop_last() =~= Seq::<char>::empty());
    } else {
        lemma_hex_number(n / 16);
        assert(s.drop_last() =~= hex_number(n / 16));
        assert(s[0] == hex_number(n / 16)[0]);
    }
}

/// A column starts with its text and is filled up with blanks, and text that is too long for
/// it is not cut.
pub proof fn lemma_column(s: Seq<char>, width: nat, i: int)
    ensures
        padded(s, width).len() >= width,
        padded(s, width).len() >= s.len(),
        padded(s, width).len() == width || padded(s, width).len() == s.len(),
        0 <= i < s.len() ==> padded(s, width)[i] == s[i],
        s.len() <= i < width ==> padded(s, width)[i] == ' ',
{
}

} // verus!
