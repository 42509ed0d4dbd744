//! Reading a port number from command-line text.
use vstd::prelude::*;

verus! {

/// The largest value a UDP port number can take.
pub const MAX_PORT: u16 = 65535;

/// Whether `c` is an ASCII decimal digit.
pub open spec fn is_digit(c: char) -> bool {
    '0' <= c && c <= '9'
}

/// The value of the decimal digit `c`.
pub open spec fn digit_value(c: char) -> nat {
    (c as nat - '0' as nat) as nat
}

/// The number that the digits of `s` spell, most significant first.
pub open spec fn digits_value(s: Seq<char>) -> nat
    decreases s.len(),
{
    if s.len() == 0 {
        0
    } else {
        digits_value(s.drop_last()) * 10 + digit_value(s.last())
    }
}

/// The part of the text that must be digits: a single leading `+` is allowed.
pub open spec fn unsigned_digits(s: Seq<char>) -> Seq<char> {
    if s.len() > 0 && s[0] == '+' {
        s.drop_first()
    } else {
        s
    }
}

/// Whether `s` is a decimal number, optionally signed with `+`, with at least one digit.
pub open spec fn is_decimal_text(s: Seq<char>) -> bool {
    let d = unsigned_digits(s);
    &&& d.len() > 0
    &&& forall|i: int| 0 <= i < d.len() ==> #[trigger] is_digit(d[i])
}

/// Whether `s` names a port: decimal text whose value fits in 16 bits.
pub open spec fn is_port_text(s: Seq<char>) -> bool {
    is_decimal_text(s) && digits_value(unsigned_digits(s)) <= MAX_PORT as nat
}

/// The port that `s` names, when `is_port_text(s)`.
pub open spec fn port_value(s: Seq<char>) -> nat {
    digits_value(unsigned_digits(s))
}

/// A port argument that does not name a port. It keeps the text that was given.
#[derive(Clone, Debug)]
pub struct PortError {
    pub text: String,
}

impl PortError {
    /// The text that was rejected.
    pub fn text(&self) -> (r: &str)
        ensures
            r@ == self.text@,
    {
        self.text.as_str()
    }

    /// A sentence saying that the argument is not valid.
    pub fn description(&self) -> (r: String)
        ensures
            r@ == port_error_description(self.text@),
    {
        let mut r = String::from_str("The argument '");
        r.append(self.text.as_str());
        r.append("' isn't a valid value");
        proof {
            reveal_strlit("The argument '");
            reveal_strlit("' isn't a valid value");
        }
        r
    }
}

/// The sentence that reports `text` as an invalid argument.
pub open spec fn port_error_description(text: Seq<char>) -> Seq<char> {
    "The argument '"@ + text + "' isn't a valid value"@
}

proof fn lemma_digits_value_push(s: Seq<char>, c: char)
    ensures
        digits_value(s.push(c)) == digits_value(s) * 10 + digit_value(c),
{
    assert(s.push(c).drop_last() =~= s);
}

proof fn lemma_digits_value_grows(s: Seq<char>, c: char)
    ensures
        digits_value(s.push(c)) >= digits_value(s),
{
    lemma_digits_value_push(s, c);
}

/// Reads a port number: decimal digits after an optional `+`, with a value of at
/// most 65535. Anything else is refused with the text that was given.
pub fn parse_port(s: &str) -> (r: Result<u16, PortError>)
    ensures
        r.is_ok() <==> is_port_text(s@),
        r matches Ok(p) ==> p as nat == port_value(s@),
        r matches Err(e) ==> e.text@ == s@,
{
    let n = s.unicode_len();
    let mut start: usize = 0;
    if n > 0 && s.get_char(0) == '+' {
        start = 1;
    }
    let ghost d = unsigned_digits(s@);
    assert(d =~= s@.subrange(start as int, n as int));
    if start >= n {
        return Err(PortError { text: String::from_str(s) });
    }
    let mut value: u32 = 0;
    let mut i: usize = start;
    while i < n
        invariant
            start <= i <= n,
            n == s@.len(),
            d == unsigned_digits(s@),
            d =~= s@.subrange(start as int, n as int),
            forall|k: int| start <= k < i ==> is_digit(#[trigger] s@[k]),
            value as nat == digits_value(s@.subrange(start as int, i as int)),
            value <= MAX_PORT,
        decreases n - i,
    {
        let c = s.get_char(i);
        proof {
            lemma_digits_value_push(s@.subrange(start as int, i as int), c);
            assert(s@.subrange(start as int, i as int).push(c) =~= s@.subrange(
                start as int,
                i + 1,
            ));
        }
        if !('0' <= c && c <= '9') {
            proof {
                assert(d[i - start] == c);
                assert(!is_digit(d[i - start]));
            }
            return Err(PortError { text: String::from_str(s) });
        }
        let next: u32 = value * 10 + (c as u32 - '0' as u32);
        if next > MAX_PORT as u32 {
            proof {
                lemma_digits_suffix_grows(d, (i + 1 - start) as int);
                assert(d.subrange(0, i + 1 - start) =~= s@.subrange(start as int, i + 1));

            }
            return Err(PortError { text: String::from_str(s) });
        }
        value = next;
        i = i + 1;
    }
    proof {
        assert(s@.subrange(start as int, i as int) =~= d);
        assert forall|k: int| 0 <= k < d.len() implies #[trigger] is_digit(d[k]) by {
            assert(is_digit(s@[k + start]));
        }
    }
    Ok(value as u16)
}

/// The value of a prefix of a digit string never exceeds the value of the whole.
proof fn lemma_digits_suffix_grows(d: Seq<char>, k: int)
    requires
        0 <= k <= d.len(),
    ensures
        digits_value(d.subrange(0, k)) <= digits_value(d),
    decreases d.len() - k,
{
    if k < d.len() {
        lemma_digits_suffix_grows(d, k + 1);
        lemma_digits_value_grows(d.subrange(0, k), d[k]);
        assert(d.subrange(0, k).push(d[k]) =~= d.subrange(0, k + 1));
    } else {
        assert(d.subrange(0, k) =~= d);
    }
}

} // verus!
