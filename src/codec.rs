use vstd::bytes::{spec_u64_from_le_bytes, spec_u64_to_le_bytes, lemma_auto_spec_u64_to_from_le_bytes};
use vstd::prelude::*;
use vstd::utf8::{encode_scalar, encode_utf8, valid_utf8};

use crate::graph::GraphModel;

verus! {

/// The weights, each as eight little-endian bytes, in order.
pub open spec fn weights_bytes(ws: Seq<u64>) -> Seq<u8>
    decreases ws.len(),
{
    if ws.len() == 0 {
        seq![]
    } else {
        weights_bytes(ws.drop_last()) + spec_u64_to_le_bytes(ws.last())
    }
}

/// Serialized form of a graph: the byte length of the UTF-8 vertex string as
/// a little-endian `u64`, that string, then the matrix row-major as
/// little-endian `u64`s.
pub open spec fn encode(g: GraphModel) -> Seq<u8> {
    spec_u64_to_le_bytes(encode_utf8(g.vertices).len() as u64) + encode_utf8(g.vertices)
        + weights_bytes(g.weights)
}

/// Length announced by the header of `b`.
pub open spec fn header_len(b: Seq<u8>) -> int {
    spec_u64_from_le_bytes(b.subrange(0, 8)) as int
}

/// `b` holds a header whose announced vertex string fits in what follows.
pub open spec fn header_ok(b: Seq<u8>) -> bool {
    b.len() >= 8 && header_len(b) <= b.len() - 8
}

/// The vertex string of `b`, as announced by its header.
pub open spec fn vertex_bytes(b: Seq<u8>) -> Seq<u8> {
    b.subrange(8, 8 + header_len(b))
}

/// Bytes after the vertex string.
pub open spec fn weight_bytes_len(b: Seq<u8>) -> int {
    b.len() - 8 - header_len(b)
}

pub proof fn lemma_weights_bytes_len(ws: Seq<u64>)
    ensures
        weights_bytes(ws).len() == 8 * ws.len(),
    decreases ws.len(),
{
    lemma_auto_spec_u64_to_from_le_bytes();
    if ws.len() > 0 {
        lemma_weights_bytes_len(ws.drop_last());
    }
}

pub proof fn lemma_weights_bytes_injective(a: Seq<u64>, b: Seq<u64>)
    requires
        weights_bytes(a) == weights_bytes(b),
    ensures
        a == b,
    decreases a.len(),
{
    lemma_auto_spec_u64_to_from_le_bytes();
    lemma_weights_bytes_len(a);
    lemma_weights_bytes_len(b);
    if a.len() > 0 {
        lemma_weights_bytes_len(a.drop_last());
        lemma_weights_bytes_len(b.drop_last());
        let k = 8 * (a.len() - 1);
        let wa = weights_bytes(a);
        assert(wa.subrange(0, k) =~= weights_bytes(a.drop_last()));
        assert(wa.subrange(0, k) =~= weights_bytes(b.drop_last()));
        assert(wa.subrange(k, k + 8) =~= spec_u64_to_le_bytes(a.last()));
        assert(wa.subrange(k, k + 8) =~= spec_u64_to_le_bytes(b.last()));
        lemma_weights_bytes_injective(a.drop_last(), b.drop_last());
        assert(a.last() == spec_u64_from_le_bytes(spec_u64_to_le_bytes(a.last())));
        assert(a =~= a.drop_last().push(a.last()));
        assert(b =~= b.drop_last().push(b.last()));
    }
}

/// UTF-8 encoding distributes over concatenation.
pub proof fn lemma_encode_utf8_append(a: Seq<char>, b: Seq<char>)
    ensures
        encode_utf8(a + b) == encode_utf8(a) + encode_utf8(b),
    decreases a.len(),
{
    if a.len() == 0 {
        assert(a + b =~= b);
        assert(encode_utf8(a) =~= Seq::<u8>::empty());
        assert(encode_utf8(a) + encode_utf8(b) =~= encode_utf8(b));
    } else {
        assert((a + b).drop_first() =~= a.drop_first() + b);
        lemma_encode_utf8_append(a.drop_first(), b);
        assert(encode_utf8(a + b) =~= encode_scalar(a[0] as u32) + (encode_utf8(a.drop_first())
            + encode_utf8(b)));
    }
}

proof fn lemma_encode_utf8_single(c: char)
    ensures
        encode_utf8(seq![c]) == encode_scalar(c as u32),
{
    let s = seq![c];
    assert(s.drop_first() =~= Seq::<char>::empty());
    assert(encode_utf8(s.drop_first()) == Seq::<u8>::empty());
    assert(encode_utf8(s) == encode_scalar(c as u32) + encode_utf8(s.drop_first()));
    assert(encode_scalar(c as u32) + Seq::<u8>::empty() =~= encode_scalar(c as u32));
}

/// `m` is the square of a positive `n` exactly when it divides into `n` rows of `n`.
pub proof fn lemma_square_check(m: int, n: int)
    requires
        n > 0,
        m >= 0,
    ensures
        (m == n * n) <==> (m % n == 0 && m / n == n),
{
    vstd::arithmetic::div_mod::lemma_fundamental_div_mod(m, n);
    if m == n * n {
        vstd::arithmetic::div_mod::lemma_div_multiples_vanish(n, n);
        vstd::arithmetic::div_mod::lemma_mod_multiples_basic(n, n);
    }
}

/// The parts of an encoded well-formed graph, and of that encoding less its
/// last byte.
pub proof fn lemma_encoded_parts(g: GraphModel)
    requires
        g.wf(),
        encode(g).len() <= u64::MAX + 1,
    ensures
        header_ok(encode(g)),
        vertex_bytes(encode(g)) == encode_utf8(g.vertices),
        weight_bytes_len(encode(g)) == 8 * (g.n() * g.n()),
        header_ok(encode(g).drop_last()),
        vertex_bytes(encode(g).drop_last()) == encode_utf8(g.vertices),
        weight_bytes_len(encode(g).drop_last()) == 8 * (g.n() * g.n()) - 1,
{
    lemma_auto_spec_u64_to_from_le_bytes();
    lemma_weights_bytes_len(g.weights);
    let e = encode_utf8(g.vertices);
    let b = encode(g);
    let l = e.len() as u64;
    assert(b.len() == 8 + e.len() + 8 * (g.n() * g.n()));
    assert(b.subrange(0, 8) =~= spec_u64_to_le_bytes(l));
    assert(header_len(b) == e.len());
    assert(b.subrange(8, 8 + e.len() as int) =~= e);
    assert(g.n() * g.n() >= 1) by (nonlinear_arith)
        requires
            g.n() >= 1,
    ;
    let t = b.drop_last();
    assert(t.subrange(0, 8) =~= spec_u64_to_le_bytes(l));
    assert(t.subrange(8, 8 + e.len() as int) =~= e);
}

/// Equal encodings come from equal graphs.
pub proof fn lemma_encode_injective(g1: GraphModel, g2: GraphModel)
    requires
        encode(g1) == encode(g2),
        encode(g1).len() <= u64::MAX + 1,
    ensures
        g1 == g2,
{
    lemma_auto_spec_u64_to_from_le_bytes();
    let e1 = encode_utf8(g1.vertices);
    let e2 = encode_utf8(g2.vertices);
    let b = encode(g1);
    lemma_weights_bytes_len(g1.weights);
    lemma_weights_bytes_len(g2.weights);
    assert(b.subrange(0, 8) =~= spec_u64_to_le_bytes(e1.len() as u64));
    assert(b.subrange(0, 8) =~= spec_u64_to_le_bytes(e2.len() as u64));
    assert(e1.len() == e2.len());
    assert(b.subrange(8, 8 + e1.len() as int) =~= e1);
    assert(b.subrange(8, 8 + e1.len() as int) =~= e2);
    vstd::utf8::encode_utf8_decode_utf8(g1.vertices);
    vstd::utf8::encode_utf8_decode_utf8(g2.vertices);
    assert(b.subrange(8 + e1.len() as int, b.len() as int) =~= weights_bytes(g1.weights));
    assert(b.subrange(8 + e1.len() as int, b.len() as int) =~= weights_bytes(g2.weights));
    lemma_weights_bytes_injective(g1.weights, g2.weights);
}

/// UTF-8 bytes of one character.
fn push_char_utf8(out: &mut Vec<u8>, c: char)
    ensures
        final(out)@ == old(out)@ + encode_scalar(c as u32),
{
    let u = c as u32;
    proof {
        vstd::utf8::char_is_scalar(c);
    }
    let ghost before = out@;
    if u <= 0x7F {
        out.push((u & 0x7F) as u8);
    } else if u <= 0x7FF {
        out.push(0xC0 | ((u >> 6) & 0x1F) as u8);
        out.push(0x80 | (u & 0x3F) as u8);
    } else if u <= 0xFFFF {
        out.push(0xE0 | ((u >> 12) & 0x0F) as u8);
        out.push(0x80 | ((u >> 6) & 0x3F) as u8);
        out.push(0x80 | (u & 0x3F) as u8);
    } else {
        out.push(0xF0 | ((u >> 18) & 0x7) as u8);
        out.push(0x80 | ((u >> 12) & 0x3F) as u8);
        out.push(0x80 | ((u >> 6) & 0x3F) as u8);
        out.push(0x80 | (u & 0x3F) as u8);
    }
    assert(out@ =~= before + encode_scalar(c as u32));
}

/// Appends the UTF-8 encoding of `v`.
pub fn push_utf8(out: &mut Vec<u8>, v: &[char])
    ensures
        final(out)@ == old(out)@ + encode_utf8(v@),
{
    let ghost start = out@;
    let mut i: usize = 0;
    assert(v@.take(0) =~= Seq::<char>::empty());
    assert(start + encode_utf8(Seq::<char>::empty()) =~= start);
    while i < v.len()
        invariant
            0 <= i <= v@.len(),
            out@ == start + encode_utf8(v@.take(i as int)),
        decreases v@.len() - i,
    {
        push_char_utf8(out, v[i]);
        proof {
            assert(v@.take(i + 1) =~= v@.take(i as int) + seq![v@[i as int]]);
            lemma_encode_utf8_append(v@.take(i as int), seq![v@[i as int]]);
            lemma_encode_utf8_single(v@[i as int]);
        }
        i += 1;
    }
    assert(v@.take(v@.len() as int) =~= v@);
}

/// Appends each weight as eight little-endian bytes.
pub fn push_weights(out: &mut Vec<u8>, ws: &[u64])
    ensures
        final(out)@ == old(out)@ + weights_bytes(ws@),
{
    let ghost start = out@;
    let mut i: usize = 0;
    assert(ws@.take(0) =~= Seq::<u64>::empty());
    assert(start + weights_bytes(Seq::<u64>::empty()) =~= start);
    while i < ws.len()
        invariant
            0 <= i <= ws@.len(),
            out@ == start + weights_bytes(ws@.take(i as int)),
        decreases ws@.len() - i,
    {
        let mut bytes = vstd::bytes::u64_to_le_bytes(ws[i]);
        out.append(&mut bytes);
        proof {
            assert(ws@.take(i + 1).drop_last() =~= ws@.take(i as int));
            assert(out@ =~= start + weights_bytes(ws@.take(i + 1)));
        }
        i += 1;
    }
    assert(ws@.take(ws@.len() as int) =~= ws@);
}

/// Relies on `std::str::from_utf8`: it accepts exactly the valid UTF-8
/// byte strings, and the string it returns has those bytes.
#[verifier::external_body]
pub fn utf8_str(b: &[u8]) -> (r: Option<&str>)
    ensures
        r is Some <==> valid_utf8(b@),
        r matches Some(s) ==> encode_utf8(s@) == b@,
{
    std::str::from_utf8(b).ok()
}

} // verus!
