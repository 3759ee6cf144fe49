//! The command line: what to scan, and the port range syntax `START-END`.
use vstd::prelude::*;

verus! {

/// The command-line arguments.
#[allow(non_snake_case)]
pub struct Args {
    /// The host name or address to scan.
    pub host: String,
    /// The port range, `START-END`.
    pub range: String,
    /// Whether to run a SYN (half-open) scan instead of a connect scan.
    pub sS: bool,
    /// Whether to list every scanned port, not only the open ones.
    pub verbose: bool,
}

/// Whether `c` is one of the ASCII digits `0`..`9`.
pub open spec fn is_ascii_digit(c: char) -> bool {
    '0' <= c && c <= '9'
}

/// Whether all characters of `s` are ASCII digits.
pub open spec fn all_ascii_digits(s: Seq<char>) -> bool {
    forall|i: int| 0 <= i < s.len() ==> is_ascii_digit(#[trigger] s[i])
}

/// The number that the decimal digits `s` write.
pub open spec fn digits_value(s: Seq<char>) -> nat
    decreases s.len(),
{
    if s.len() == 0 {
        0
    } else {
        digits_value(s.drop_last()) * 10 + (s.last() as nat - '0' as nat) as nat
    }
}

/// What `u16::from_str` gives for `s`: an optional `+`, then one or more
/// ASCII digits whose value fits in 16 bits; anything else is refused.
pub open spec fn spec_parse_u16(s: Seq<char>) -> Option<u16> {
    let digits = if s.len() > 0 && s[0] == '+' {
        s.drop_first()
    } else {
        s
    };
    if digits.len() > 0 && all_ascii_digits(digits) && digits_value(digits) <= u16::MAX {
        Some(digits_value(digits) as u16)
    } else {
        None
    }
}

/// The position of the first `-` in `s`, or -1.
pub open spec fn first_dash(s: Seq<char>) -> int
    decreases s.len(),
{
    if s.len() == 0 {
        -1
    } else if s[0] == '-' {
        0
    } else {
        let rest = first_dash(s.drop_first());
        if rest < 0 {
            -1
        } else {
            rest + 1
        }
    }
}

/// The range that `START-END` gives: the text is cut at its first `-`,
/// and both sides must read as ports.
pub open spec fn spec_parse_range(s: Seq<char>) -> Option<(u16, u16)> {
    let i = first_dash(s);
    if i < 0 {
        None
    } else {
        match (spec_parse_u16(s.take(i)), spec_parse_u16(s.skip(i + 1))) {
            (Some(start), Some(end)) => Some((start, end)),
            _ => None,
        }
    }
}

/// The character of the decimal digit `d` (`0` to `9`).
pub open spec fn digit_char(d: nat) -> char {
    (d + '0' as nat) as char
}

/// How a number is written in decimal: its digits, most significant
/// first, with no leading zero (`0` is written `0`).
pub open spec fn decimal(n: nat) -> Seq<char>
    decreases n,
{
    if n < 10 {
        seq![digit_char(n)]
    } else {
        decimal(n / 10).push(digit_char(n % 10))
    }
}

/// The decimal writing of `n` is made of digits, is not empty, and reads
/// back as `n`.
proof fn lemma_decimal(n: nat)
    ensures
        decimal(n).len() > 0,
        all_ascii_digits(decimal(n)),
        digits_value(decimal(n)) == n,
    decreases n,
{
    if n < 10 {
        let d = decimal(n);
        assert(d.drop_last() == Seq::<char>::empty());
        assert(digit_char(n) as nat == n + '0' as nat);
        assert(digits_value(d) == digits_value(Seq::<char>::empty()) * 10 + n);
    } else {
        lemma_decimal(n / 10);
        let d = decimal(n);
        assert(d.drop_last() == decimal(n / 10));
        assert(digit_char(n % 10) as nat == n % 10 + '0' as nat);
        assert forall|i: int| 0 <= i < d.len() implies is_ascii_digit(#[trigger] d[i]) by {
            if i < d.len() - 1 {
                assert(d[i] == decimal(n / 10)[i]);
            }
        }
        assert(d.last() == digit_char(n % 10));
        assert(digits_value(d) == digits_value(decimal(n / 10)) * 10 + n % 10);
        assert((n / 10) * 10 + n % 10 == n) by (nonlinear_arith);
    }
}

/// A port range written as two ports in decimal with a `-` between them
/// reads back as those two ports.
pub proof fn lemma_parse_range_reads_written_range(start: u16, end: u16)
    ensures
        spec_parse_range(decimal(start as nat) + seq!['-'] + decimal(end as nat)) == Some(
            (start, end),
        ),
{
    let a = decimal(start as nat);
    let b = decimal(end as nat);
    let s = a + seq!['-'] + b;
    lemma_decimal(start as nat);
    lemma_decimal(end as nat);
    lemma_first_dash(s);
    assert(s[a.len() as int] == '-');
    let f = first_dash(s);
    assert(f == a.len()) by {
        if f < 0 {
            assert(s[a.len() as int] != '-');
        } else if f < a.len() {
            assert(s[f] == a[f]);
            assert(is_ascii_digit(a[f]));
        } else if f > a.len() {
            assert(s[a.len() as int] != '-');
        }
    }
    assert(s.take(f) == a);
    assert(s.skip(f + 1) == b);
    assert(is_ascii_digit(a[0]));
    assert(is_ascii_digit(b[0]));
}

/// A range is cut at its first `-`: when `start` holds no `-`, the text
/// `start-end` reads as the two ports that `start` and `end` read as, and
/// as nothing when either side is not a port; text with no `-` at all
/// reads as nothing.
pub proof fn lemma_parse_range_cuts_at_first_dash(start: Seq<char>, end: Seq<char>, text: Seq<char>)
    ensures
        (forall|i: int| 0 <= i < start.len() ==> start[i] != '-') ==> spec_parse_range(
            start + seq!['-'] + end,
        ) == match (spec_parse_u16(start), spec_parse_u16(end)) {
            (Some(a), Some(b)) => Some((a, b)),
            _ => None,
        },
        (forall|i: int| 0 <= i < text.len() ==> text[i] != '-') ==> spec_parse_range(text) is None,
{
    lemma_first_dash(text);
    if forall|i: int| 0 <= i < text.len() ==> text[i] != '-' {
        if first_dash(text) >= 0 {
            assert(text[first_dash(text)] != '-');
        }
    }
    if forall|i: int| 0 <= i < start.len() ==> start[i] != '-' {
        let s = start + seq!['-'] + end;
        lemma_first_dash(s);
        assert(s[start.len() as int] == '-');
        let f = first_dash(s);
        assert(f == start.len()) by {
            if f < 0 {
                assert(s[start.len() as int] != '-');
            } else if f < start.len() {
                assert(s[f] == start[f]);
            } else if f > start.len() {
                assert(s[start.len() as int] != '-');
            }
        }
        assert(s.take(f) == start);
        assert(s.skip(f + 1) == end);
    }
}

/// `n` zeros.
pub open spec fn zeros(n: nat) -> Seq<char> {
    Seq::new(n, |i: int| '0')
}

/// Leading zeros do not change the value of digits.
proof fn lemma_digits_value_leading_zeros(z: nat, d: Seq<char>)
    ensures
        digits_value(zeros(z) + d) == digits_value(d),
    decreases d.len(),
{
    if d.len() == 0 {
        assert(zeros(z) + d == zeros(z));
        lemma_digits_value_zeros(z);
    } else {
        assert((zeros(z) + d).drop_last() == zeros(z) + d.drop_last());
        assert((zeros(z) + d).last() == d.last());
        lemma_digits_value_leading_zeros(z, d.drop_last());
    }
}

/// Zeros alone have the value 0.
proof fn lemma_digits_value_zeros(z: nat)
    ensures
        digits_value(zeros(z)) == 0,
    decreases z,
{
    if z > 0 {
        assert(zeros(z).drop_last() == zeros((z - 1) as nat));
        lemma_digits_value_zeros((z - 1) as nat);
    }
}

/// How a port is read: a port written in decimal, after any number of
/// zeros and after an optional `+`, reads as that port; nothing, a lone
/// `+`, any other character than a digit (but for one leading `+`), or
/// digits whose value is above 65535 read as no port.
pub proof fn lemma_parse_u16_reads_ports(n: u16, z: nat, s: Seq<char>)
    ensures
        spec_parse_u16(zeros(z) + decimal(n as nat)) == Some(n),
        spec_parse_u16(seq!['+'] + zeros(z) + decimal(n as nat)) == Some(n),
        spec_parse_u16(Seq::empty()) is None,
        spec_parse_u16(seq!['+']) is None,
        (exists|i: int|
            0 <= i < s.len() && !is_ascii_digit(#[trigger] s[i]) && !(i == 0 && s[0] == '+'))
            ==> spec_parse_u16(s) is None,
        all_ascii_digits(s) && digits_value(s) > 65535 ==> spec_parse_u16(s) is None,
{
    lemma_decimal(n as nat);
    let d = zeros(z) + decimal(n as nat);
    lemma_digits_value_leading_zeros(z, decimal(n as nat));
    assert forall|i: int| 0 <= i < d.len() implies is_ascii_digit(#[trigger] d[i]) by {
        if i >= z {
            assert(d[i] == decimal(n as nat)[i - z]);
        }
    }
    assert(d[0] != '+');
    assert((seq!['+'] + zeros(z) + decimal(n as nat)).drop_first() == d);
    assert(seq!['+'].drop_first() == Seq::<char>::empty());
    if exists|i: int| 0 <= i < s.len() && !is_ascii_digit(#[trigger] s[i]) && !(i == 0 && s[0] == '+') {
        let i = choose|i: int| 0 <= i < s.len() && !is_ascii_digit(#[trigger] s[i]) && !(i == 0 && s[0] == '+');
        if s.len() > 0 && s[0] == '+' {
            assert(s.drop_first()[i - 1] == s[i]);
        }
    }
    if all_ascii_digits(s) && s.len() > 0 {
        assert(is_ascii_digit(s[0]));
    }
}

/// What `first_dash` finds: the first `-`, or none.
proof fn lemma_first_dash(s: Seq<char>)
    ensures
        -1 <= first_dash(s) < s.len(),
        first_dash(s) >= 0 ==> s[first_dash(s)] == '-',
        forall|j: int| 0 <= j < s.len() && (first_dash(s) < 0 || j < first_dash(s)) ==> #[trigger] s[j] != '-',
    decreases s.len(),
{
    if s.len() > 0 {
        lemma_first_dash(s.drop_first());
        assert forall|j: int| 0 <= j < s.len() && (first_dash(s) < 0 || j < first_dash(s)) implies #[trigger] s[j]
            != '-' by {
            if j > 0 {
                assert(s[j] == s.drop_first()[j - 1]);
            }
        }
    }
}

/// The value of digits only grows as digits are appended.
proof fn lemma_digits_value_prefix(s: Seq<char>, k: int)
    requires
        0 <= k <= s.len(),
        all_ascii_digits(s),
    ensures
        digits_value(s.take(k)) <= digits_value(s),
    decreases s.len(),
{
    if k < s.len() {
        assert(s.drop_last().take(k) == s.take(k));
        lemma_digits_value_prefix(s.drop_last(), k);
    } else {
        assert(s.take(k) == s);
    }
}

/// Reads the characters `chars[start..end]` as `u16::from_str` does.
fn parse_u16(chars: &Vec<char>, start: usize, end: usize) -> (res: Option<u16>)
    requires
        start <= end <= chars@.len(),
    ensures
        res == spec_parse_u16(chars@.subrange(start as int, end as int)),
{
    let ghost s = chars@.subrange(start as int, end as int);
    if start == end {
        return None;
    }
    let mut first = start;
    if chars[start] == '+' {
        first = start + 1;
    }
    let ghost digits = chars@.subrange(first as int, end as int);
    proof {
        if chars[start as int] == '+' {
            assert(digits == s.drop_first());
        } else {
            assert(digits == s);
        }
    }
    if first == end {
        return None;
    }
    let mut value: u32 = 0;
    let mut i: usize = first;
    while i < end
        invariant
            start <= first <= i <= end <= chars@.len(),
            first < end,
            digits == chars@.subrange(first as int, end as int),
            s == chars@.subrange(start as int, end as int),
            spec_parse_u16(s) == (if digits.len() > 0 && all_ascii_digits(digits) && digits_value(digits)
                <= u16::MAX {
                Some(digits_value(digits) as u16)
            } else {
                None
            }),
            all_ascii_digits(digits.take(i - first)),
            value == digits_value(digits.take(i - first)),
            value <= u16::MAX,
        decreases end - i,
    {
        let c = chars[i];
        let ghost prefix = digits.take(i - first);
        let ghost next = digits.take(i - first + 1);
        proof {
            assert(next.drop_last() == prefix);
            assert(next.last() == c);
        }
        if !('0' <= c && c <= '9') {
            proof {
                assert(!is_ascii_digit(digits[i - first]));
            }
            return None;
        }
        let digit = (c as u32) - ('0' as u32);
        value = value * 10 + digit;
        proof {
            assert(all_ascii_digits(next)) by {
                assert forall|j: int| 0 <= j < next.len() implies is_ascii_digit(#[trigger] next[j]) by {
                    if j < next.len() - 1 {
                        assert(next[j] == prefix[j]);
                    }
                }
            }
        }
        if value > 65535 {
            proof {
                if all_ascii_digits(digits) {
                    lemma_digits_value_prefix(digits, i - first + 1);
                }
            }
            return None;
        }
        i += 1;
    }
    proof {
        assert(digits.take(i - first) == digits);
    }
    Some(value as u16)
}

impl Args {
    /// Reads a port range `START-END`: the text is cut at its first `-`,
    /// and each side is read as `u16::from_str` reads it. `None` when there
    /// is no `-` or either side is not a port.
    pub fn parse_range(range: &str) -> (res: Option<(u16, u16)>)
        ensures
            res == spec_parse_range(range@),
    {
        let mut chars: Vec<char> = Vec::new();
        for c in it: range.chars()
            invariant
                chars@ == it.seq().take(it.index()),
        {
            proof {
                assert(it.seq().take(it.index() + 1) == it.seq().take(it.index()).push(c));
            }
            chars.push(c);
        }
        proof {
            assert(chars@ == range@);
        }
        let ghost s = chars@;
        proof {
            lemma_first_dash(s);
        }
        let n = chars.len();
        let mut dash: usize = 0;
        while dash < n && chars[dash] != '-'
            invariant
                n == chars@.len(),
                dash <= n,
                s == chars@,
                forall|j: int| 0 <= j < dash ==> #[trigger] s[j] != '-',
            decreases n - dash,
        {
            dash += 1;
        }
        if dash == n {
            proof {
                lemma_first_dash(s);
                if first_dash(s) >= 0 {
                    assert(s[first_dash(s)] != '-');
                }
            }
            return None;
        }
        proof {
            lemma_first_dash(s);
            let f = first_dash(s);
            assert(f >= 0) by {
                if f < 0 {
                    assert(s[dash as int] != '-');
                }
            }
            if f < dash {
                assert(s[f] != '-');
            }
            if dash < f {
                assert(s[dash as int] != '-');
            }
            assert(s.take(dash as int) == s.subrange(0, dash as int));
            assert(s.skip(dash + 1) == s.subrange(dash + 1, n as int));
        }
        let start = parse_u16(&chars, 0, dash);
        let end = parse_u16(&chars, dash + 1, n);
        match (start, end) {
            (Some(start), Some(end)) => Some((start, end)),
            _ => None,
        }
    }
}

} // verus!
