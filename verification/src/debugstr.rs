use vstd::prelude::*;

use crate::is_graphic;

verus! {

/// The ASCII code of the lower-case hex digit for `d` (0 to 15).
pub open spec fn hex_digit(d: u8) -> u8 {
    if d < 10 {
        (48 + d) as u8
    } else {
        (87 + d) as u8
    }
}

/// How one byte appears in the debug form: itself when it is a space or a
/// graphic byte, and a backslash-x hex escape otherwise.
pub open spec fn escape_byte(b: u8) -> Seq<u8> {
    if b == 32 || is_graphic(b) {
        seq![b]
    } else {
        seq![92u8, 120u8, hex_digit(b / 16), hex_digit(b % 16)]
    }
}

/// The escaped form of all bytes of `bs`, in order.
pub open spec fn escape_bytes(bs: Seq<u8>) -> Seq<u8>
    decreases bs.len(),
{
    if bs.len() == 0 {
        Seq::empty()
    } else {
        escape_byte(bs[0]) + escape_bytes(bs.skip(1))
    }
}

/// The full debug form: a `b"` prefix, the escaped bytes, a closing quote.
pub open spec fn debug_repr(bs: Seq<u8>) -> Seq<u8> {
    seq![98u8, 34u8] + escape_bytes(bs) + seq![34u8]
}

/// ASCII bytes read as characters.
pub open spec fn ascii_chars(s: Seq<u8>) -> Seq<char> {
    s.map_values(|b: u8| b as char)
}

pub proof fn lemma_escape_push(bs: Seq<u8>, b: u8)
    ensures
        escape_bytes(bs.push(b)) == escape_bytes(bs) + escape_byte(b),
    decreases bs.len(),
{
    let ext = bs.push(b);
    if bs.len() == 0 {
        assert(ext[0] == b);
        assert(ext.skip(1) =~= Seq::<u8>::empty());
        assert(escape_bytes(ext) == escape_byte(b) + escape_bytes(ext.skip(1)));
        assert(escape_byte(b) + Seq::<u8>::empty() =~= escape_byte(b));
        assert(Seq::<u8>::empty() + escape_byte(b) =~= escape_byte(b));
    } else {
        assert(ext[0] == bs[0]);
        assert(ext.skip(1) =~= bs.skip(1).push(b));
        lemma_escape_push(bs.skip(1), b);
        assert(escape_byte(bs[0]) + (escape_bytes(bs.skip(1)) + escape_byte(b)) =~= (escape_byte(
            bs[0],
        ) + escape_bytes(bs.skip(1))) + escape_byte(b));
    }
}

/// Every byte of the escaped form is ASCII.
pub proof fn lemma_escape_ascii(bs: Seq<u8>)
    ensures
        forall|k: int| 0 <= k < escape_bytes(bs).len() ==> #[trigger] escape_bytes(bs)[k] < 128,
    decreases bs.len(),
{
    if bs.len() > 0 {
        lemma_escape_ascii(bs.skip(1));
        let head = escape_byte(bs[0]);
        assert(forall|k: int| 0 <= k < head.len() ==> #[trigger] head[k] < 128);
        assert(forall|k: int|
            0 <= k < escape_bytes(bs).len() ==> #[trigger] escape_bytes(bs)[k] == if k < head.len() {
                head[k]
            } else {
                escape_bytes(bs.skip(1))[k - head.len()]
            });
    }
}

/// Relies on String::from_utf8: a buffer of ASCII bytes decodes to the
/// string of exactly those characters.
#[verifier::external_body]
fn ascii_string(v: Vec<u8>) -> (r: String)
    requires
        forall|k: int| 0 <= k < v@.len() ==> v@[k] < 128,
    ensures
        r@ == ascii_chars(v@),
{
    match String::from_utf8(v) {
        Ok(s) => s,
        Err(_) => String::new(),
    }
}

/// The debug form of a byte string: `b"` followed by each byte, spaces and
/// graphic bytes as themselves and every other byte as a hex escape, and a
/// closing quote.
pub fn debug_bytestring(bs: &[u8]) -> (r: String)
    ensures
        r@ == ascii_chars(debug_repr(bs@)),
{
    let mut out: Vec<u8> = Vec::new();
    out.push(98);
    out.push(34);
    let n = bs.len();
    proof {
        assert(bs@.take(0) =~= Seq::<u8>::empty());
        assert(out@ =~= seq![98u8, 34u8] + escape_bytes(bs@.take(0)));
    }
    for i in 0..n
        invariant
            n == bs@.len(),
            out@ == seq![98u8, 34u8] + escape_bytes(bs@.take(i as int)),
            forall|k: int| 0 <= k < out@.len() ==> #[trigger] out@[k] < 128,
    {
        let b = bs[i];
        let ghost pre = out@;
        if b == 32 || (33 <= b && b <= 126) {
            out.push(b);
            proof {
                assert(out@ =~= pre + escape_byte(b));
            }
        } else {
            out.push(92);
            out.push(120);
            let hi = b / 16;
            let lo = b % 16;
            out.push(if hi < 10 {
                48 + hi
            } else {
                87 + hi
            });
            out.push(if lo < 10 {
                48 + lo
            } else {
                87 + lo
            });
            proof {
                assert(out@ =~= pre + escape_byte(b));
            }
        }
        proof {
            assert(bs@.take(i + 1) =~= bs@.take(i as int).push(b));
            lemma_escape_push(bs@.take(i as int), b);
            assert((seq![98u8, 34u8] + escape_bytes(bs@.take(i as int))) + escape_byte(b)
                =~= seq![98u8, 34u8] + (escape_bytes(bs@.take(i as int)) + escape_byte(b)));
        }
    }
    out.push(34);
    proof {
        assert(bs@.take(n as int) =~= bs@);
        assert(out@ =~= debug_repr(bs@));
    }
    ascii_string(out)
}

} // verus!
