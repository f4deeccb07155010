//! Case folding of WTF-8 text.
//!
//! Folding is unit by unit: a code point whose lower-case form is a single code
//! point folds to it, everything else (lone surrogates, stray bytes, the few
//! code points whose lower case is longer) folds to itself. Folding therefore
//! never moves a separator, and folds the two sides of one independently.

use crate::wtf8::{decode_unit, push_unit, unit_bytes, units, STRAY};
use vstd::prelude::*;

verus! {

broadcast use vstd::seq::group_seq_axioms;

/// The lower-case form of a code point, as `char::to_lowercase` gives it.
pub uninterp spec fn char_lowercase(c: char) -> Seq<char>;

/// Lower-cases one code point with `char::to_lowercase`. What the mapping is for
/// a given code point is left to the Unicode tables of the standard library.
#[verifier::external_body]
fn lowercase(c: char) -> (lower: Vec<char>)
    ensures
        lower@ == char_lowercase(c),
{
    c.to_lowercase().collect()
}

/// A code point that is no surrogate.
pub open spec fn is_scalar(code: u32) -> bool {
    code < 0xD800 || 0xE000 <= code < 0x11_0000
}

/// Turns a code point into a `char` with `char::from_u32`, which gives one back
/// for every code point but the surrogates, and nothing for anything else.
#[verifier::external_body]
fn scalar(code: u32) -> (c: Option<char>)
    ensures
        c is Some == is_scalar(code),
        c is Some ==> c->0 as u32 == code,
{
    char::from_u32(code)
}

/// The lower-case form of an ASCII byte.
pub open spec fn ascii_lower(b: u8) -> u8 {
    if 0x41 <= b <= 0x5A {
        (b + 32) as u8
    } else {
        b
    }
}

/// What one unit folds to.
pub open spec fn folded_unit(code: u32) -> Seq<u8> {
    if code < 0x80 {
        seq![ascii_lower(code as u8)]
    } else if is_scalar(code) && char_lowercase(code as char).len() == 1 {
        unit_bytes(char_lowercase(code as char)[0] as u32)
    } else {
        unit_bytes(code)
    }
}

/// What a sequence of units folds to.
pub open spec fn folded_units(codes: Seq<u32>) -> Seq<u8>
    decreases codes.len(),
{
    if codes.len() == 0 {
        seq![]
    } else {
        folded_unit(codes[0]) + folded_units(codes.drop_first())
    }
}

/// What a byte string folds to.
pub open spec fn folded(s: Seq<u8>) -> Seq<u8> {
    folded_units(units(s))
}

/// Folding units distributes over concatenation.
pub proof fn lemma_folded_units_add(a: Seq<u32>, b: Seq<u32>)
    ensures
        folded_units(a + b) == folded_units(a) + folded_units(b),
    decreases a.len(),
{
    if a.len() == 0 {
        assert(a + b =~= b);
        assert(folded_units(a) + folded_units(b) =~= folded_units(b));
    } else {
        assert((a + b).drop_first() =~= a.drop_first() + b);
        lemma_folded_units_add(a.drop_first(), b);
        assert(folded_units(a + b) =~= folded_units(a) + folded_units(b));
    }
}

/// Folding distributes over a cut in front of an ASCII byte.
pub proof fn lemma_folded_add(s: Seq<u8>, t: Seq<u8>)
    requires
        t.len() == 0 || t[0] < 0x80,
    ensures
        folded(s + t) == folded(s) + folded(t),
{
    crate::wtf8::lemma_units_add(s, t);
    lemma_folded_units_add(units(s), units(t));
}

/// An ASCII byte folds on its own, whatever follows it.
pub proof fn lemma_folded_ascii_first(b: u8, t: Seq<u8>)
    requires
        b < 0x80,
    ensures
        folded(seq![b] + t) == seq![ascii_lower(b)] + folded(t),
{
    let s = seq![b] + t;
    assert(s[0] == b);
    assert(s.skip(1) =~= t);
    assert(units(s) =~= seq![b as u32] + units(t));
    assert(units(s).drop_first() =~= units(t));
}

/// Folding keeps what stands on either side of an ASCII separator apart: for an
/// ASCII byte `b` between `s` and `t`, the two sides fold independently.
pub proof fn lemma_folded_around_ascii(s: Seq<u8>, b: u8, t: Seq<u8>)
    requires
        b < 0x80,
    ensures
        folded(s + seq![b] + t) == folded(s) + seq![ascii_lower(b)] + folded(t),
{
    assert(s + seq![b] + t =~= s + (seq![b] + t));
    lemma_folded_add(s, seq![b] + t);
    lemma_folded_ascii_first(b, t);
    assert(folded(s) + (seq![ascii_lower(b)] + folded(t)) =~= folded(s) + seq![ascii_lower(b)]
        + folded(t));
}

/// An ASCII byte folds to its lower case, and on its own, wherever it stands.
pub proof fn law_ascii_folds(front: Seq<u8>, b: u8, back: Seq<u8>)
    requires
        b < 0x80,
    ensures
        folded(front + seq![b] + back) == folded(front) + seq![
            if 0x41 <= b <= 0x5A {
                (b + 0x20) as u8
            } else {
                b
            },
        ] + folded(back),
        folded(Seq::<u8>::empty()) == Seq::<u8>::empty(),
{
    lemma_folded_around_ascii(front, b, back);
    assert(units(Seq::<u8>::empty()) =~= Seq::<u32>::empty());
}

/// Any other code point folds to its lower case where that is a single code
/// point, and else to itself.
pub proof fn law_wide_folds(c: char, codes: Seq<u32>)
    requires
        c as u32 >= 0x80,
        codes == seq![c as u32],
    ensures
        char_lowercase(c).len() == 1 ==> folded_units(codes) == unit_bytes(
            char_lowercase(c)[0] as u32,
        ),
        char_lowercase(c).len() != 1 ==> folded_units(codes) == unit_bytes(c as u32),
{
    vstd::utf8::char_is_scalar(c);
    vstd::utf8::char_u32_cast(c, c as u32);
    assert(codes.drop_first() =~= Seq::<u32>::empty());
    assert(folded_units(codes.drop_first()) =~= Seq::<u8>::empty());
    assert(folded_units(codes) =~= folded_unit(c as u32));
}

/// Appends what the unit with this code folds to.
fn push_folded_unit(out: &mut Vec<u8>, code: u32)
    requires
        code <= STRAY + 0xFF,
    ensures
        final(out)@ == old(out)@ + folded_unit(code),
{
    if code < 0x80 {
        let b: u8 = code as u8;
        let lower: u8 = if b >= 0x41 && b <= 0x5A {
            b + 32
        } else {
            b
        };
        out.push(lower);
        assert(out@ =~= old(out)@ + folded_unit(code));
        return ;
    }
    match scalar(code) {
        Some(c) => {
            let lower = lowercase(c);
            proof {
                vstd::utf8::char_u32_cast(c, code);
            }
            if lower.len() == 1 {
                let low: char = lower[0];
                proof {
                    vstd::utf8::char_is_scalar(low);
                }
                push_unit(out, low as u32);
            } else {
                push_unit(out, code);
            }
        },
        None => {
            push_unit(out, code);
        },
    }
}

/// Appends what `text` folds to.
pub fn fold_into(text: &[u8], out: &mut Vec<u8>)
    ensures
        final(out)@ == old(out)@ + folded(text@),
{
    let mut i: usize = 0;
    proof {
        assert(text@.skip(0) =~= text@);
    }
    while i < text.len()
        invariant
            i <= text@.len(),
            old(out)@ + folded(text@) == out@ + folded(text@.skip(i as int)),
        decreases text@.len() - i,
    {
        let ghost rest = text@.skip(i as int);
        let ghost before = out@;
        let (code, len) = decode_unit(text, i);
        push_folded_unit(out, code);
        proof {
            assert(rest.skip(len as int) =~= text@.skip(i + len));
            assert(units(rest).drop_first() =~= units(rest.skip(len as int)));
            assert(before + folded(rest) =~= out@ + folded(text@.skip(i + len)));
        }
        i += len;
    }
    proof {
        assert(text@.skip(i as int) =~= seq![]);
        assert(out@ + folded(text@.skip(i as int)) =~= out@);
    }
}

/// What `text` folds to.
pub fn fold(text: &[u8]) -> (out: Vec<u8>)
    ensures
        out@ == folded(text@),
{
    let mut out: Vec<u8> = Vec::with_capacity(text.len());
    fold_into(text, &mut out);
    assert(Seq::<u8>::empty() + folded(text@) =~= folded(text@));
    out
}

} // verus!
