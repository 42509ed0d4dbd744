//! The text the listener writes for each packet, and the buffer it receives into.
use vstd::prelude::*;
use vstd::slice::slice_subrange;

use crate::text::{decode_lossy, lossy_text, push_char};

verus! {

/// The size of the receive buffer: room for the largest UDP payload there is.
pub const RECV_BUFFER_LEN: usize = 65536;

/// The character for the decimal digit `d`.
pub open spec fn digit_char(d: nat) -> char {
    ((d + 48) as u32) as char
}

/// The decimal form of `n`, without leading zeros.
pub open spec fn decimal(n: nat) -> Seq<char>
    decreases n,
{
    if n < 10 {
        seq![digit_char(n)]
    } else {
        decimal(n / 10).push(digit_char(n % 10))
    }
}

/// The numbers of `b` in decimal, separated by a comma and a space.
pub open spec fn joined_bytes(b: Seq<u8>) -> Seq<char>
    decreases b.len(),
{
    if b.len() == 0 {
        seq![]
    } else if b.len() == 1 {
        decimal(b[0] as nat)
    } else {
        joined_bytes(b.drop_last()) + seq![',', ' '] + decimal(b.last() as nat)
    }
}

/// The bytes `b` written as a list: `[104, 105]`, or `[]` when there are none.
pub open spec fn byte_list_text(b: Seq<u8>) -> Seq<char> {
    seq!['['] + joined_bytes(b) + seq![']']
}

/// The log entry for one packet: the sender's address, the packet shown as text,
/// the packet's bytes as a list, and a blank line.
pub open spec fn packet_entry(addr: Seq<char>, shown: Seq<char>, payload: Seq<u8>) -> Seq<char> {
    "Received a packet from "@ + addr + seq!['\n'] + "UTF-8 representation: "@ + shown
        + seq!['\n'] + "Byte array representation: "@ + byte_list_text(payload) + seq![
        '\n',
        '\n',
    ]
}

/// The line written once the listener's socket is bound.
pub open spec fn banner_text(port: nat) -> Seq<char> {
    "Listening on port "@ + decimal(port) + "..."@
}

/// The quoted and escaped form in which text is shown: it depends on the
/// characters alone.
pub uninterp spec fn debug_quoted(s: Seq<char>) -> Seq<char>;

/// Relies on the `Debug` impl of `str`: the text between double quotes, with
/// quotes, backslashes and unprintable characters escaped.
#[verifier::external_body]
fn quote_debug(s: &str) -> (r: String)
    ensures
        r@ == debug_quoted(s@),
{
    format!("{:?}", s)
}

/// Appends the decimal form of `n` to `out`.
pub fn push_decimal(out: &mut String, n: u64)
    ensures
        final(out)@ == old(out)@ + decimal(n as nat),
    decreases n,
{
    if n >= 10 {
        push_decimal(out, n / 10);
    }
    let d: u8 = (n % 10) as u8;
    let c = (48u8 + d) as char;
    assert(c == digit_char((n % 10) as nat));
    push_char(out, c);
    proof {
        if n >= 10 {
            assert(decimal(n as nat) == decimal((n / 10) as nat).push(digit_char((n % 10) as nat)));
        }
    }
    assert(final(out)@ =~= old(out)@ + decimal(n as nat));
}

/// The bytes `b` written as a list of decimal numbers, as in `[104, 105]`.
pub fn byte_list(b: &[u8]) -> (r: String)
    ensures
        r@ == byte_list_text(b@),
{
    let mut out = String::new();
    push_char(&mut out, '[');
    let n = b.len();
    let mut i: usize = 0;
    while i < n
        invariant
            i <= n,
            n == b@.len(),
            out@ == seq!['['] + joined_bytes(b@.take(i as int)),
        decreases n - i,
    {
        let ghost prev = out@;
        if i > 0 {
            push_char(&mut out, ',');
            push_char(&mut out, ' ');
        }
        push_decimal(&mut out, b[i] as u64);
        proof {
            assert(b@.take(i + 1).drop_last() =~= b@.take(i as int));
            if i == 0 {
                assert(b@.take(0) =~= seq![]);
            }
            assert(out@ =~= seq!['['] + joined_bytes(b@.take(i + 1)));
        }
        i = i + 1;
    }
    push_char(&mut out, ']');
    proof {
        assert(b@.take(n as int) =~= b@);
    }
    assert(out@ =~= byte_list_text(b@));
    out
}

/// The log entry for a packet from `addr`, given the form in which its text is
/// shown and its bytes.
pub fn packet_entry_text(addr: &str, shown: &str, payload: &[u8]) -> (r: String)
    ensures
        r@ == packet_entry(addr@, shown@, payload@),
{
    let mut out = String::from_str("Received a packet from ");
    out.append(addr);
    out.append("\nUTF-8 representation: ");
    out.append(shown);
    out.append("\nByte array representation: ");
    let list = byte_list(payload);
    out.append(list.as_str());
    out.append("\n\n");
    proof {
        reveal_strlit("Received a packet from ");
        reveal_strlit("\nUTF-8 representation: ");
        reveal_strlit("\nByte array representation: ");
        reveal_strlit("\n\n");
        reveal_strlit("UTF-8 representation: ");
        reveal_strlit("Byte array representation: ");
    }
    assert(out@ =~= packet_entry(addr@, shown@, payload@));
    out
}

/// The log entry for a packet from `addr` with contents `payload`: its text is
/// decoded lossily, so no payload makes this fail, and its bytes are listed as
/// they came.
pub fn render_packet(addr: &str, payload: &[u8]) -> (r: String)
    ensures
        r@ == packet_entry(addr@, debug_quoted(lossy_text(payload@)), payload@),
{
    let text = decode_lossy(payload);
    let shown = quote_debug(text.as_str());
    packet_entry_text(addr, shown.as_str(), payload)
}

/// The log entry for a packet of `size` bytes received into `buf`: only those
/// bytes are read, whatever the rest of the buffer holds.
pub fn render_received(addr: &str, buf: &[u8], size: usize) -> (r: String)
    requires
        size <= buf@.len(),
    ensures
        r@ == packet_entry(
            addr@,
            debug_quoted(lossy_text(buf@.take(size as int))),
            buf@.take(size as int),
        ),
{
    let payload = slice_subrange(buf, 0, size);
    assert(payload@ =~= buf@.take(size as int));
    render_packet(addr, payload)
}

/// A zeroed buffer to receive one packet into.
pub fn fresh_buffer() -> (r: Vec<u8>)
    ensures
        r@.len() == RECV_BUFFER_LEN,
        forall|i: int| 0 <= i < r@.len() ==> r@[i] == 0,
{
    vec![0u8; RECV_BUFFER_LEN]
}

/// The line that says on which port the listener waits.
pub fn listening_banner(port: u16) -> (r: String)
    ensures
        r@ == banner_text(port as nat),
{
    let mut out = String::from_str("Listening on port ");
    push_decimal(&mut out, port as u64);
    out.append("...");
    proof {
        reveal_strlit("Listening on port ");
        reveal_strlit("...");
    }
    assert(out@ =~= banner_text(port as nat));
    out
}

/// Two receive buffers that agree on the `size` bytes received give the same log
/// entry: what an earlier, longer packet left behind in the buffer never shows.
pub proof fn lemma_entry_ignores_stale_bytes(addr: Seq<char>, b1: Seq<u8>, b2: Seq<u8>, size: int)
    requires
        0 <= size <= b1.len(),
        size <= b2.len(),
        b1.take(size) == b2.take(size),
    ensures
        packet_entry(addr, debug_quoted(lossy_text(b1.take(size))), b1.take(size)) == packet_entry(
            addr,
            debug_quoted(lossy_text(b2.take(size))),
            b2.take(size),
        ),
{
}

proof fn lemma_digit_char(d: nat)
    requires
        d < 10,
    ensures
        digit_char(d) as u32 == d + 48,
{
}

/// The decimal form is never empty and holds digits only.
proof fn lemma_decimal_digits(n: nat)
    ensures
        decimal(n).len() >= 1,
        n >= 10 ==> decimal(n).len() >= 2,
        forall|i: int| 0 <= i < decimal(n).len() ==> 48 <= #[trigger] (decimal(n)[i] as u32) <= 57,
    decreases n,
{
    lemma_digit_char(n % 10);
    if n >= 10 {
        lemma_decimal_digits(n / 10);
    }
}

/// Different numbers have different decimal forms.
proof fn lemma_decimal_injective(n: nat, m: nat)
    requires
        decimal(n) == decimal(m),
    ensures
        n == m,
    decreases n,
{
    lemma_decimal_digits(n);
    lemma_decimal_digits(m);
    lemma_digit_char(n % 10);
    lemma_digit_char(m % 10);
    let dn = decimal(n);
    if n >= 10 && m >= 10 {
        assert(dn.last() == digit_char(n % 10));
        assert(decimal(m).last() == digit_char(m % 10));
        assert(decimal(n / 10) == dn.drop_last());
        assert(decimal(m / 10) == decimal(m).drop_last());
        lemma_decimal_injective(n / 10, m / 10);
    } else if n < 10 && m < 10 {
        assert(dn[0] == digit_char(n));
        assert(decimal(m)[0] == digit_char(m));
    }
}

/// The list of a nonempty payload is nonempty, and no list holds a comma but
/// between two numbers.
proof fn lemma_joined_shape(b: Seq<u8>)
    ensures
        b.len() >= 1 ==> joined_bytes(b).len() >= 1,
        b.len() <= 1 ==> forall|i: int|
            0 <= i < joined_bytes(b).len() ==> #[trigger] joined_bytes(b)[i] != ',',
        b.len() >= 2 ==> exists|i: int|
            0 <= i < joined_bytes(b).len() && #[trigger] joined_bytes(b)[i] == ',',
    decreases b.len(),
{
    if b.len() == 1 {
        lemma_decimal_digits(b[0] as nat);
        assert forall|i: int| 0 <= i < joined_bytes(b).len() implies #[trigger] joined_bytes(
            b,
        )[i] != ',' by {
            assert(48 <= (decimal(b[0] as nat)[i] as u32) <= 57);
        }
    } else if b.len() >= 2 {
        let prev = joined_bytes(b.drop_last());
        assert(joined_bytes(b)[prev.len() as int] == ',');
    }
}

/// The list of numbers determines the bytes: two payloads with the same list are
/// the same payload.
proof fn lemma_joined_injective(a: Seq<u8>, b: Seq<u8>)
    requires
        joined_bytes(a) == joined_bytes(b),
    ensures
        a == b,
    decreases a.len() + b.len(),
{
    lemma_joined_shape(a);
    lemma_joined_shape(b);
    if a.len() == 0 || b.len() == 0 {
        assert(a.len() == 0 && b.len() == 0);
        assert(a =~= b);
    } else if a.len() == 1 && b.len() == 1 {
        lemma_decimal_injective(a[0] as nat, b[0] as nat);
        assert(a =~= b);
    } else if a.len() >= 2 && b.len() >= 2 {
        let j = joined_bytes(a);
        let dx = decimal(a.last() as nat);
        let dy = decimal(b.last() as nat);
        let ja = joined_bytes(a.drop_last());
        let jb = joined_bytes(b.drop_last());
        let len = j.len() as int;
        lemma_decimal_digits(a.last() as nat);
        lemma_decimal_digits(b.last() as nat);
        assert(j == ja + seq![',', ' '] + dx);
        assert(j == jb + seq![',', ' '] + dy);
        if dx.len() < dy.len() {
            let p = len - dx.len() - 2;
            assert(j[p] == ',');
            if p >= len - dy.len() {
                assert(j[p] == dy[p - (len - dy.len())]);
                assert(48 <= (dy[p - (len - dy.len())] as u32) <= 57);
            } else {
                assert(j[p] == ' ');
            }
        } else if dy.len() < dx.len() {
            let p = len - dy.len() - 2;
            assert(j[p] == ',');
            if p >= len - dx.len() {
                assert(j[p] == dx[p - (len - dx.len())]);
                assert(48 <= (dx[p - (len - dx.len())] as u32) <= 57);
            } else {
                assert(j[p] == ' ');
            }
        }
        assert(dx.len() == dy.len());
        assert(dx =~= j.subrange(len - dx.len(), len));
        assert(dy =~= j.subrange(len - dy.len(), len));
        lemma_decimal_injective(a.last() as nat, b.last() as nat);
        assert(ja =~= j.subrange(0, len - dx.len() - 2));
        assert(jb =~= j.subrange(0, len - dy.len() - 2));
        lemma_joined_injective(a.drop_last(), b.drop_last());
        assert(a =~= a.drop_last().push(a.last()));
        assert(b =~= b.drop_last().push(b.last()));
    } else {
        let (one, many) = if a.len() == 1 {
            (a, b)
        } else {
            (b, a)
        };
        let i = choose|i: int|
            0 <= i < joined_bytes(many).len() && #[trigger] joined_bytes(many)[i] == ',';
        assert(joined_bytes(one)[i] != ',');
    }
}

/// The byte list shown for a packet gives back its bytes exactly: two payloads
/// whose lists are equal are equal, whatever text they decode to.
pub proof fn lemma_byte_list_faithful(a: Seq<u8>, b: Seq<u8>)
    requires
        byte_list_text(a) == byte_list_text(b),
    ensures
        a == b,
{
    let ta = byte_list_text(a);
    let n = ta.len() as int;
    assert(joined_bytes(a) =~= ta.subrange(1, n - 1));
    assert(joined_bytes(b) =~= ta.subrange(1, n - 1));
    lemma_joined_injective(a, b);
}

} // verus!
