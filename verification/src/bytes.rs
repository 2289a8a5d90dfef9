//! Big-endian integers in byte sequences.
use vstd::prelude::*;
use vstd::string::*;

verus! {

/// The number of values that `n` bytes can hold.
pub open spec fn byte_span(n: nat) -> nat
    decreases n,
{
    if n == 0 {
        1
    } else {
        byte_span((n - 1) as nat) * 256
    }
}

/// The last `n` base-256 digits of `x`, most significant first.
pub open spec fn be_bytes(x: nat, n: nat) -> Seq<u8>
    decreases n,
{
    if n == 0 {
        Seq::empty()
    } else {
        be_bytes(x / 256, (n - 1) as nat).push((x % 256) as u8)
    }
}

/// The number whose base-256 digits are `s`, most significant first.
pub open spec fn be_value(s: Seq<u8>) -> nat
    decreases s.len(),
{
    if s.len() == 0 {
        0
    } else {
        be_value(s.drop_last()) * 256 + s.last() as nat
    }
}

pub proof fn lemma_be_bytes_len(x: nat, n: nat)
    ensures
        be_bytes(x, n).len() == n,
    decreases n,
{
    if n > 0 {
        lemma_be_bytes_len(x / 256, (n - 1) as nat);
    }
}

/// Reading back an encoded number gives the number.
pub proof fn lemma_decode_encoded(x: nat, n: nat)
    requires
        x < byte_span(n),
    ensures
        be_value(be_bytes(x, n)) == x,
        be_bytes(x, n).len() == n,
    decreases n,
{
    if n > 0 {
        lemma_decode_encoded(x / 256, (n - 1) as nat);
        let s = be_bytes(x, n);
        assert(s.drop_last() =~= be_bytes(x / 256, (n - 1) as nat));
        assert(s.last() == (x % 256) as u8);
    }
}

/// Encoding a decoded number gives back the bytes.
pub proof fn lemma_encode_decoded(s: Seq<u8>)
    ensures
        be_bytes(be_value(s), s.len()) == s,
        be_value(s) < byte_span(s.len()),
    decreases s.len(),
{
    if s.len() > 0 {
        let p = s.drop_last();
        lemma_encode_decoded(p);
        let v = be_value(s);
        assert(v / 256 == be_value(p));
        assert(v % 256 == s.last() as nat);
        assert(be_bytes(v, s.len()) =~= p.push(s.last()));
        assert(s =~= p.push(s.last()));
    }
}

/// Numbers that fit the width are told apart by their bytes.
pub proof fn lemma_be_bytes_injective(x: nat, y: nat, n: nat)
    requires
        x < byte_span(n),
        y < byte_span(n),
        be_bytes(x, n) == be_bytes(y, n),
    ensures
        x == y,
{
    lemma_decode_encoded(x, n);
    lemma_decode_encoded(y, n);
}

/// The bytes of a two-digit number are the bytes of its digits in turn.
pub proof fn lemma_be_bytes_split(hi: nat, lo: nat, n: nat, m: nat)
    requires
        lo < byte_span(m),
    ensures
        be_bytes(hi * byte_span(m) + lo, n + m) == be_bytes(hi, n) + be_bytes(lo, m),
    decreases m,
{
    if m == 0 {
        assert(be_bytes(hi, n) + be_bytes(lo, 0) =~= be_bytes(hi, n));
        assert(hi * byte_span(0) == hi) by (nonlinear_arith)
            requires
                byte_span(0) == 1,
        ;
    } else {
        let k = (m - 1) as nat;
        let x = hi * byte_span(m) + lo;
        let h = hi * byte_span(k);
        assert(hi * byte_span(m) == h * 256) by (nonlinear_arith)
            requires
                byte_span(m) == byte_span(k) * 256,
                h == hi * byte_span(k),
        ;
        assert(x / 256 == h + lo / 256);
        assert(x % 256 == lo % 256);
        lemma_be_bytes_split(hi, lo / 256, n, k);
        assert(be_bytes(x, n + m) =~= be_bytes(hi, n) + be_bytes(lo, m));
    }
}

proof fn lemma_byte_span_monotonic(a: nat, b: nat)
    requires
        a <= b,
    ensures
        0 < byte_span(a) <= byte_span(b),
    decreases b,
{
    if a < b {
        lemma_byte_span_monotonic(a, (b - 1) as nat);
    } else if a > 0 {
        lemma_byte_span_monotonic((a - 1) as nat, (a - 1) as nat);
    }
}

pub proof fn lemma_byte_spans()
    ensures
        byte_span(1) == 0x100,
        byte_span(2) == 0x1_0000,
        byte_span(4) == 0x1_0000_0000,
        byte_span(8) == 0x1_0000_0000_0000_0000,
        byte_span(16) == 0x1_0000_0000_0000_0000_0000_0000_0000_0000,
{
    reveal_with_fuel(byte_span, 17);
}

/// Appends `x` in `width` big-endian bytes.
pub fn push_be(out: &mut Vec<u8>, x: u128, width: usize)
    ensures
        final(out)@ == old(out)@ + be_bytes(x as nat, width as nat),
    decreases width,
{
    if width > 0 {
        push_be(out, x / 256, width - 1);
        out.push((x % 256) as u8);
    }
    proof {
        assert(out@ =~= old(out)@ + be_bytes(x as nat, width as nat));
    }
}

/// Reads `width` big-endian bytes that start at `at`.
pub fn read_be(data: &Vec<u8>, at: usize, width: usize) -> (r: u128)
    requires
        width <= 16,
        at + width <= data@.len(),
    ensures
        r == be_value(data@.subrange(at as int, at + width)),
        r < byte_span(width as nat),
{
    let mut r: u128 = 0;
    for i in 0..width
        invariant
            width <= 16,
            at + width <= data.len(),
            r == be_value(data@.subrange(at as int, at + i)),
            r < byte_span(i as nat),
    {
        proof {
            lemma_byte_span_monotonic((i + 1) as nat, 16);
            lemma_byte_spans();
            assert(data@.subrange(at as int, at + i + 1).drop_last() =~= data@.subrange(at as int, at + i));
        }
        r = r * 256 + data[at + i] as u128;
    }
    r
}

/// Appends a copy of `more`.
pub fn push_all(out: &mut Vec<u8>, more: &Vec<u8>)
    ensures
        final(out)@ == old(out)@ + more@,
{
    for i in 0..more.len()
        invariant
            out@ == old(out)@ + more@.take(i as int),
    {
        out.push(more[i]);
        proof {
            assert(out@ =~= old(out)@ + more@.take(i + 1));
        }
    }
    proof {
        assert(more@.take(more@.len() as int) =~= more@);
    }
}

/// The UTF-8 bytes of a text.
pub open spec fn text_bytes(text: &str) -> Seq<u8> {
    text.spec_bytes()
}

/// Appends the bytes of a text.
pub fn push_text(out: &mut Vec<u8>, text: &str)
    ensures
        final(out)@ == old(out)@ + text_bytes(text),
{
    let bytes = text.as_bytes();
    for i in 0..bytes.len()
        invariant
            bytes@ == text_bytes(text),
            out@ == old(out)@ + bytes@.take(i as int),
    {
        out.push(bytes[i]);
        proof {
            assert(out@ =~= old(out)@ + bytes@.take(i + 1));
        }
    }
    proof {
        assert(bytes@.take(bytes@.len() as int) =~= bytes@);
    }
}

/// Numbers are written most significant byte first: the last byte is what is left over of
/// 256, and the bytes before it are the rest.
pub proof fn most_significant_byte_comes_first(high: nat, low: u8, n: nat)
    ensures
        be_bytes(256 * high + low as nat, n + 1) == be_bytes(high, n) + seq![low],
        be_value(be_bytes(high, n) + seq![low]) == 256 * be_value(be_bytes(high, n)) + low as nat,
{
    let x = 256 * high + low as nat;
    assert(x / 256 == high && x % 256 == low as nat);
    assert(be_bytes(x, n + 1) =~= be_bytes(high, n) + seq![low]);
    assert((be_bytes(high, n) + seq![low]).drop_last() =~= be_bytes(high, n));
}

}
