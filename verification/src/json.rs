//! The JSON framing the error model puts on the wire: string escaping over
//! UTF-8 bytes. Escaping touches only bytes that JSON forbids inside a string
//! literal — the quote, the backslash and the control range — so the UTF-8
//! encoding of the surrounding text passes through unchanged.

use vstd::prelude::*;

verus! {

/// The lower-case hexadecimal digit for a value below 16.
pub open spec fn hex_digit(d: int) -> u8 {
    if d < 10 {
        (48 + d) as u8
    } else {
        (87 + d) as u8
    }
}

/// How one byte of a JSON string literal is written: short escapes for the
/// quote, backslash, newline, carriage return and tab, `\u00XX` for the other
/// control bytes, and the byte itself otherwise.
pub open spec fn esc_byte(b: u8) -> Seq<u8> {
    if b == 34 {
        seq![92u8, 34u8]
    } else if b == 92 {
        seq![92u8, 92u8]
    } else if b == 10 {
        seq![92u8, 110u8]
    } else if b == 13 {
        seq![92u8, 114u8]
    } else if b == 9 {
        seq![92u8, 116u8]
    } else if b < 32 {
        seq![92u8, 117u8, 48u8, 48u8, hex_digit(b as int / 16), hex_digit(b as int % 16)]
    } else {
        seq![b]
    }
}

/// A whole string's bytes, escaped for a JSON string literal.
pub open spec fn esc(bs: Seq<u8>) -> Seq<u8>
    decreases bs.len(),
{
    if bs.len() == 0 {
        Seq::empty()
    } else {
        esc_byte(bs[0]) + esc(bs.drop_first())
    }
}

/// Escaping distributes over concatenation.
pub proof fn lemma_esc_append(a: Seq<u8>, b: Seq<u8>)
    ensures
        esc(a + b) == esc(a) + esc(b),
    decreases a.len(),
{
    if a.len() == 0 {
        assert(a + b =~= b);
        assert(esc(a) + esc(b) =~= esc(b));
    } else {
        assert((a + b)[0] == a[0]);
        assert((a + b).drop_first() =~= a.drop_first() + b);
        lemma_esc_append(a.drop_first(), b);
        assert(esc_byte(a[0]) + (esc(a.drop_first()) + esc(b)) =~= (esc_byte(a[0]) + esc(
            a.drop_first(),
        )) + esc(b));
    }
}

/// Escaping one more byte extends the escaped prefix.
pub proof fn lemma_esc_snoc(bs: Seq<u8>, i: int)
    requires
        0 <= i < bs.len(),
    ensures
        esc(bs.take(i + 1)) == esc(bs.take(i)) + esc_byte(bs[i]),
{
    assert(bs.take(i + 1) =~= bs.take(i) + seq![bs[i]]);
    lemma_esc_append(bs.take(i), seq![bs[i]]);
    assert(seq![bs[i]].len() == 1);
    assert(seq![bs[i]][0] == bs[i]);
    assert(seq![bs[i]].drop_first() =~= Seq::<u8>::empty());
    assert(esc(seq![bs[i]]) == esc_byte(bs[i]) + esc(seq![bs[i]].drop_first()));
    assert(esc_byte(bs[i]) + Seq::<u8>::empty() =~= esc_byte(bs[i]));
}

/// Append every byte of `src` to `out`.
pub fn push_all(out: &mut Vec<u8>, src: Vec<u8>)
    ensures
        final(out)@ == old(out)@ + src@,
{
    let mut i: usize = 0;
    proof {
        assert(old(out)@ + src@.take(0) =~= old(out)@);
    }
    while i < src.len()
        invariant
            i <= src@.len(),
            out@ =~= old(out)@ + src@.take(i as int),
        decreases src@.len() - i,
    {
        out.push(src[i]);
        proof {
            assert(old(out)@ + src@.take(i + 1 as int) =~= (old(out)@ + src@.take(i as int)).push(
                src@[i as int],
            ));
        }
        i = i + 1;
    }
    proof {
        assert(src@.take(src@.len() as int) =~= src@);
    }
}

/// Append `src`, escaped for a JSON string literal, to `out`.
pub fn push_escaped(out: &mut Vec<u8>, src: &Vec<u8>)
    ensures
        final(out)@ == old(out)@ + esc(src@),
{
    let mut i: usize = 0;
    proof {
        assert(esc(src@.take(0)) =~= Seq::<u8>::empty());
        assert(old(out)@ + esc(src@.take(0)) =~= old(out)@);
    }
    while i < src.len()
        invariant
            i <= src@.len(),
            out@ =~= old(out)@ + esc(src@.take(i as int)),
        decreases src@.len() - i,
    {
        let b = src[i];
        if b == 34 {
            out.push(92);
            out.push(34);
        } else if b == 92 {
            out.push(92);
            out.push(92);
        } else if b == 10 {
            out.push(92);
            out.push(110);
        } else if b == 13 {
            out.push(92);
            out.push(114);
        } else if b == 9 {
            out.push(92);
            out.push(116);
        } else if b < 32 {
            out.push(92);
            out.push(117);
            out.push(48);
            out.push(48);
            let hi = b / 16;
            let lo = b % 16;
            out.push(if hi < 10 { 48 + hi } else { 87 + hi });
            out.push(if lo < 10 { 48 + lo } else { 87 + lo });
        } else {
            out.push(b);
        }
        proof {
            lemma_esc_snoc(src@, i as int);
            assert(out@ =~= old(out)@ + esc(src@.take(i + 1 as int)));
        }
        i = i + 1;
    }
    proof {
        assert(src@.take(src@.len() as int) =~= src@);
    }
}

} // verus!
