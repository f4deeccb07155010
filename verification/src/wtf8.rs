//! WTF-8 text as a sequence of units.
//!
//! File names are UTF-16 on disk and WTF-8 in the index: UTF-8 in which a lone
//! surrogate keeps its three-byte form. A *unit* is one code point, or one byte
//! that belongs to no well-formed code point; stray bytes get codes of their
//! own above the code point range, so splitting a byte string into units loses
//! nothing.

use vstd::prelude::*;

verus! {

/// The code of a stray byte `b` is `STRAY + b`.
pub const STRAY: u32 = 0x11_0000;

/// A continuation byte of a multi-byte code point.
pub open spec fn is_continuation(b: u8) -> bool {
    0x80 <= b <= 0xBF
}

/// The code point that a two-byte form spells.
pub open spec fn two_byte_code(s: Seq<u8>) -> int {
    (s[0] - 0xC0) * 64 + (s[1] - 0x80)
}

/// The code point that a three-byte form spells.
pub open spec fn three_byte_code(s: Seq<u8>) -> int {
    (s[0] - 0xE0) * 4096 + (s[1] - 0x80) * 64 + (s[2] - 0x80)
}

/// The code point that a four-byte form spells.
pub open spec fn four_byte_code(s: Seq<u8>) -> int {
    (s[0] - 0xF0) * 262144 + (s[1] - 0x80) * 4096 + (s[2] - 0x80) * 64 + (s[3] - 0x80)
}

/// The number of bytes of the first unit of the nonempty `s`.
pub open spec fn unit_len(s: Seq<u8>) -> int {
    if 0xC2 <= s[0] <= 0xDF && s.len() >= 2 && is_continuation(s[1]) {
        2
    } else if 0xE0 <= s[0] <= 0xEF && s.len() >= 3 && is_continuation(s[1]) && is_continuation(s[2])
        && 0x800 <= three_byte_code(s) {
        3
    } else if 0xF0 <= s[0] <= 0xF4 && s.len() >= 4 && is_continuation(s[1]) && is_continuation(s[2])
        && is_continuation(s[3]) && 0x1_0000 <= four_byte_code(s) <= 0x10_FFFF {
        4
    } else {
        1
    }
}

/// The code of the first unit of the nonempty `s`.
pub open spec fn unit_code(s: Seq<u8>) -> u32 {
    if unit_len(s) == 2 {
        two_byte_code(s) as u32
    } else if unit_len(s) == 3 {
        three_byte_code(s) as u32
    } else if unit_len(s) == 4 {
        four_byte_code(s) as u32
    } else if s[0] < 0x80 {
        s[0] as u32
    } else {
        (STRAY + s[0]) as u32
    }
}

/// The units of `s`, in order.
pub open spec fn units(s: Seq<u8>) -> Seq<u32>
    decreases s.len(),
{
    if s.len() == 0 {
        seq![]
    } else {
        seq![unit_code(s)] + units(s.skip(unit_len(s)))
    }
}

/// The bytes that a unit with this code has.
pub open spec fn unit_bytes(code: u32) -> Seq<u8> {
    if code < 0x80 {
        seq![code as u8]
    } else if code < 0x800 {
        seq![(0xC0 + code / 64) as u8, (0x80 + code % 64) as u8]
    } else if code < 0x1_0000 {
        seq![
            (0xE0 + code / 4096) as u8,
            (0x80 + (code / 64) % 64) as u8,
            (0x80 + code % 64) as u8,
        ]
    } else if code < STRAY {
        seq![
            (0xF0 + code / 262144) as u8,
            (0x80 + (code / 4096) % 64) as u8,
            (0x80 + (code / 64) % 64) as u8,
            (0x80 + code % 64) as u8,
        ]
    } else {
        seq![(code - STRAY) as u8]
    }
}

/// The bytes that a sequence of units has.
pub open spec fn joined(codes: Seq<u32>) -> Seq<u8>
    decreases codes.len(),
{
    if codes.len() == 0 {
        seq![]
    } else {
        unit_bytes(codes[0]) + joined(codes.drop_first())
    }
}

/// The base-64 digits of a code point.
proof fn lemma_digits(a: int, b: int, c: int, d: int)
    requires
        0 <= a < 64,
        0 <= b < 64,
        0 <= c < 64,
        0 <= d < 64,
    ensures
        ({
            let v = a * 262144 + b * 4096 + c * 64 + d;
            &&& v / 262144 == a
            &&& (v / 4096) % 64 == b
            &&& (v / 64) % 64 == c
            &&& v % 64 == d
            &&& a == 0 ==> v / 4096 == b
            &&& a == 0 && b == 0 ==> v / 64 == c
        }),
{
    let v = a * 262144 + b * 4096 + c * 64 + d;
    let v1 = a * 4096 + b * 64 + c;
    let v2 = a * 64 + b;
    assert(v / 64 == v1);
    assert(v1 / 64 == v2);
    assert(v / 4096 == v2);
}

/// A unit's code determines its bytes.
pub proof fn lemma_unit_bytes(s: Seq<u8>)
    requires
        s.len() > 0,
    ensures
        1 <= unit_len(s) <= s.len(),
        unit_bytes(unit_code(s)) == s.take(unit_len(s)),
{
    let n = unit_len(s);
    if n == 2 {
        let a = s[0] - 0xC0;
        let b = s[1] - 0x80;
        lemma_digits(0, 0, a, b);
    } else if n == 3 {
        let a = s[0] - 0xE0;
        let b = s[1] - 0x80;
        let c = s[2] - 0x80;
        lemma_digits(0, a, b, c);
    } else if n == 4 {
        let a = s[0] - 0xF0;
        let b = s[1] - 0x80;
        let c = s[2] - 0x80;
        let d = s[3] - 0x80;
        lemma_digits(a, b, c, d);
    }
    assert(unit_bytes(unit_code(s)).len() == n);
    assert forall|i: int| 0 <= i < n implies unit_bytes(unit_code(s))[i] == s[i] by {}
    assert(unit_bytes(unit_code(s)) =~= s.take(n));
}

/// Splitting into units loses nothing.
pub proof fn lemma_joined_units(s: Seq<u8>)
    ensures
        joined(units(s)) == s,
    decreases s.len(),
{
    if s.len() > 0 {
        lemma_unit_bytes(s);
        let rest = s.skip(unit_len(s));
        lemma_joined_units(rest);
        assert(units(s).drop_first() =~= units(rest));
        assert(s =~= s.take(unit_len(s)) + rest);
    } else {
        assert(s =~= seq![]);
    }
}

/// Joining distributes over concatenation.
pub proof fn lemma_joined_add(a: Seq<u32>, b: Seq<u32>)
    ensures
        joined(a + b) == joined(a) + joined(b),
    decreases a.len(),
{
    if a.len() == 0 {
        assert(a + b =~= b);
        assert(joined(a) + joined(b) =~= joined(b));
    } else {
        assert((a + b).drop_first() =~= a.drop_first() + b);
        lemma_joined_add(a.drop_first(), b);
        assert(joined(a + b) =~= joined(a) + joined(b));
    }
}

/// The first unit of `s` does not reach past the end of `s` when what follows
/// `s` starts with an ASCII byte.
proof fn lemma_first_unit_stops_at_ascii(s: Seq<u8>, t: Seq<u8>)
    requires
        s.len() > 0,
        t.len() == 0 || t[0] < 0x80,
    ensures
        unit_len(s + t) == unit_len(s),
        unit_code(s + t) == unit_code(s),
{
    let u = s + t;
    assert(u[0] == s[0]);
    assert(forall|i: int| 0 <= i < s.len() ==> u[i] == s[i]);
    assert(t.len() > 0 ==> u[s.len() as int] == t[0]);
}

/// Splitting into units distributes over a cut in front of an ASCII byte.
pub proof fn lemma_units_add(s: Seq<u8>, t: Seq<u8>)
    requires
        t.len() == 0 || t[0] < 0x80,
    ensures
        units(s + t) == units(s) + units(t),
    decreases s.len(),
{
    if s.len() == 0 {
        assert(s + t =~= t);
        assert(units(s) + units(t) =~= units(t));
    } else {
        lemma_unit_bytes(s);
        lemma_first_unit_stops_at_ascii(s, t);
        let rest = s.skip(unit_len(s));
        assert((s + t).skip(unit_len(s)) =~= rest + t);
        lemma_units_add(rest, t);
        assert(units(s + t) =~= units(s) + units(t));
    }
}

/// Decodes the unit of `s` that starts at `at`: its code and its length.
pub fn decode_unit(s: &[u8], at: usize) -> (unit: (u32, usize))
    requires
        at < s@.len(),
    ensures
        unit.0 == unit_code(s@.skip(at as int)),
        unit.1 == unit_len(s@.skip(at as int)),
        1 <= unit.1 <= s@.len() - at,
{
    let ghost tail = s@.skip(at as int);
    proof {
        lemma_unit_bytes(tail);
    }
    let left: usize = s.len() - at;
    let b0: u8 = s[at];
    if b0 < 0x80 {
        return (b0 as u32, 1);
    }
    if b0 >= 0xC2 && b0 <= 0xDF && left >= 2 {
        let b1: u8 = s[at + 1];
        if b1 >= 0x80 && b1 <= 0xBF {
            let code: u32 = (b0 as u32 - 0xC0) * 64 + (b1 as u32 - 0x80);
            return (code, 2);
        }
    }
    if b0 >= 0xE0 && b0 <= 0xEF && left >= 3 {
        let b1: u8 = s[at + 1];
        let b2: u8 = s[at + 2];
        if b1 >= 0x80 && b1 <= 0xBF && b2 >= 0x80 && b2 <= 0xBF {
            let code: u32 = (b0 as u32 - 0xE0) * 4096 + (b1 as u32 - 0x80) * 64 + (b2 as u32
                - 0x80);
            if code >= 0x800 {
                return (code, 3);
            }
        }
    }
    if b0 >= 0xF0 && b0 <= 0xF4 && left >= 4 {
        let b1: u8 = s[at + 1];
        let b2: u8 = s[at + 2];
        let b3: u8 = s[at + 3];
        if b1 >= 0x80 && b1 <= 0xBF && b2 >= 0x80 && b2 <= 0xBF && b3 >= 0x80 && b3 <= 0xBF {
            let code: u32 = (b0 as u32 - 0xF0) * 262144 + (b1 as u32 - 0x80) * 4096 + (b2 as u32
                - 0x80) * 64 + (b3 as u32 - 0x80);
            if code >= 0x1_0000 && code <= 0x10_FFFF {
                return (code, 4);
            }
        }
    }
    (STRAY + b0 as u32, 1)
}

/// Appends the bytes of the unit with this code.
pub fn push_unit(out: &mut Vec<u8>, code: u32)
    ensures
        final(out)@ == old(out)@ + unit_bytes(code),
{
    if code < 0x80 {
        out.push(code as u8);
    } else if code < 0x800 {
        out.push((0xC0 + code / 64) as u8);
        out.push((0x80 + code % 64) as u8);
    } else if code < 0x1_0000 {
        out.push((0xE0 + code / 4096) as u8);
        out.push((0x80 + (code / 64) % 64) as u8);
        out.push((0x80 + code % 64) as u8);
    } else if code < STRAY {
        out.push((0xF0 + code / 262144) as u8);
        out.push((0x80 + (code / 4096) % 64) as u8);
        out.push((0x80 + (code / 64) % 64) as u8);
        out.push((0x80 + code % 64) as u8);
    } else {
        out.push((code - STRAY) as u8);
    }
    assert(out@ =~= old(out)@ + unit_bytes(code));
}

/// A UTF-16 code unit that opens a surrogate pair.
pub open spec fn is_lead_surrogate(u: u16) -> bool {
    0xD800 <= u <= 0xDBFF
}

/// A UTF-16 code unit that closes a surrogate pair.
pub open spec fn is_trail_surrogate(u: u16) -> bool {
    0xDC00 <= u <= 0xDFFF
}

/// Whether `wide` starts with a surrogate pair.
pub open spec fn starts_with_pair(wide: Seq<u16>) -> bool {
    wide.len() >= 2 && is_lead_surrogate(wide[0]) && is_trail_surrogate(wide[1])
}

/// The code point that a surrogate pair spells.
pub open spec fn pair_code(lead: u16, trail: u16) -> u32 {
    (0x1_0000 + (lead - 0xD800) * 1024 + (trail - 0xDC00)) as u32
}

/// The code points of UTF-16 text, an unpaired surrogate standing for itself.
pub open spec fn wide_codes(wide: Seq<u16>) -> Seq<u32>
    decreases wide.len(),
{
    if wide.len() == 0 {
        seq![]
    } else if starts_with_pair(wide) {
        seq![pair_code(wide[0], wide[1])] + wide_codes(wide.skip(2))
    } else {
        seq![wide[0] as u32] + wide_codes(wide.skip(1))
    }
}

/// Whether every surrogate of `wide` is one half of a pair.
pub open spec fn well_paired(wide: Seq<u16>) -> bool
    decreases wide.len(),
{
    if wide.len() == 0 {
        true
    } else if starts_with_pair(wide) {
        well_paired(wide.skip(2))
    } else {
        !is_lead_surrogate(wide[0]) && !is_trail_surrogate(wide[0]) && well_paired(wide.skip(1))
    }
}

/// Appends `wide` as WTF-8. Returns whether it was well-formed UTF-16; a lone
/// surrogate keeps its three-byte form.
pub fn from_utf16(wide: &[u16], out: &mut Vec<u8>) -> (well_formed: bool)
    ensures
        final(out)@ == old(out)@ + joined(wide_codes(wide@)),
        well_formed == well_paired(wide@),
{
    let mut ok: bool = true;
    let mut i: usize = 0;
    proof {
        assert(wide@.skip(0) =~= wide@);
    }
    while i < wide.len()
        invariant
            i <= wide@.len(),
            old(out)@ + joined(wide_codes(wide@)) == out@ + joined(wide_codes(wide@.skip(i as int))),
            well_paired(wide@) == (ok && well_paired(wide@.skip(i as int))),
        decreases wide@.len() - i,
    {
        let ghost rest = wide@.skip(i as int);
        let ghost before = out@;
        let u: u16 = wide[i];
        let left: usize = wide.len() - i;
        if u >= 0xD800 && u <= 0xDBFF && left >= 2 && wide[i + 1] >= 0xDC00 && wide[i + 1]
            <= 0xDFFF {
            let code: u32 = 0x1_0000 + (u as u32 - 0xD800) * 1024 + (wide[i + 1] as u32 - 0xDC00);
            push_unit(out, code);
            proof {
                assert(rest.skip(2) =~= wide@.skip(i + 2));
                assert(wide_codes(rest).drop_first() =~= wide_codes(rest.skip(2)));
                assert(before + joined(wide_codes(rest)) =~= out@ + joined(
                    wide_codes(wide@.skip(i + 2)),
                ));
            }
            i += 2;
        } else {
            if u >= 0xD800 && u <= 0xDFFF {
                ok = false;
            }
            push_unit(out, u as u32);
            proof {
                assert(rest.skip(1) =~= wide@.skip(i + 1));
                assert(wide_codes(rest).drop_first() =~= wide_codes(rest.skip(1)));
                assert(before + joined(wide_codes(rest)) =~= out@ + joined(
                    wide_codes(wide@.skip(i + 1)),
                ));
            }
            i += 1;
        }
    }
    proof {
        assert(wide@.skip(i as int) =~= seq![]);
        assert(out@ + joined(wide_codes(wide@.skip(i as int))) =~= out@);
    }
    ok
}

/// Scratch space for the units of one name, reused across names.
pub struct CodePointBuf {
    units: Vec<u32>,
}

impl CodePointBuf {
    /// The units held.
    pub closed spec fn codes(&self) -> Seq<u32> {
        self.units@
    }

    /// An empty buffer.
    pub fn new() -> (buf: CodePointBuf)
        ensures
            buf.codes() == Seq::<u32>::empty(),
    {
        CodePointBuf { units: Vec::new() }
    }

    /// Replaces the contents by the units of `text`.
    pub fn fill(&mut self, text: &[u8])
        ensures
            final(self).codes() == units(text@),
    {
        self.units.clear();
        let mut i: usize = 0;
        proof {
            assert(text@.skip(0) =~= text@);
            assert(self.units@ + units(text@) =~= units(text@));
        }
        while i < text.len()
            invariant
                i <= text@.len(),
                units(text@) == self.units@ + units(text@.skip(i as int)),
            decreases text@.len() - i,
        {
            let ghost rest = text@.skip(i as int);
            let ghost before = self.units@;
            let (code, len) = decode_unit(text, i);
            self.units.push(code);
            proof {
                assert(rest.skip(len as int) =~= text@.skip(i + len));
                assert(before + units(rest) =~= self.units@ + units(text@.skip(i + len)));
            }
            i += len;
        }
        proof {
            assert(text@.skip(i as int) =~= seq![]);
            assert(self.units@ + units(text@.skip(i as int)) =~= self.units@);
        }
    }

    /// The units held, as a slice.
    pub fn as_slice(&self) -> (codes: &[u32])
        ensures
            codes@ == self.codes(),
    {
        self.units.as_slice()
    }
}

/// What wide characters stand for: two surrogates that make a pair for one code
/// point beyond the first 65536, any other wide character for the code point of
/// its own number, be it a lone surrogate or not; and what follows is read on its
/// own.
pub proof fn law_wide_characters(wide: Seq<u16>)
    requires
        wide.len() > 0,
    ensures
        wide.len() >= 2 && 0xD800 <= wide[0] <= 0xDBFF && 0xDC00 <= wide[1] <= 0xDFFF ==> {
            &&& wide_codes(wide) == seq![
                (0x1_0000 + (wide[0] - 0xD800) * 1024 + (wide[1] - 0xDC00)) as u32,
            ] + wide_codes(wide.skip(2))
            &&& well_paired(wide) == well_paired(wide.skip(2))
        },
        !(wide.len() >= 2 && 0xD800 <= wide[0] <= 0xDBFF && 0xDC00 <= wide[1] <= 0xDFFF) ==> {
            &&& wide_codes(wide) == seq![wide[0] as u32] + wide_codes(wide.skip(1))
            &&& well_paired(wide) == (!(0xD800 <= wide[0] <= 0xDFFF) && well_paired(wide.skip(1)))
        },
        wide_codes(Seq::<u16>::empty()) == Seq::<u32>::empty(),
        well_paired(Seq::<u16>::empty()),
{
}

/// How a code point is spelt: in one byte below 0x80, in two below 0x800, in
/// three below 0x10000, surrogates among them, and else in four. Every byte but
/// the first carries six bits.
pub proof fn law_spelling(code: u32)
    requires
        code < 0x11_0000,
    ensures
        ({
            let b = unit_bytes(code);
            &&& code < 0x80 ==> b.len() == 1 && b[0] == code
            &&& 0x80 <= code < 0x800 ==> b.len() == 2 && 0xC0 <= b[0] < 0xE0 && code == (b[0]
                - 0xC0) * 64 + (b[1] - 0x80)
            &&& 0x800 <= code < 0x1_0000 ==> b.len() == 3 && 0xE0 <= b[0] < 0xF0 && code == (b[0]
                - 0xE0) * 4096 + (b[1] - 0x80) * 64 + (b[2] - 0x80)
            &&& 0x1_0000 <= code ==> b.len() == 4 && 0xF0 <= b[0] < 0xF8 && code == (b[0] - 0xF0)
                * 262144 + (b[1] - 0x80) * 4096 + (b[2] - 0x80) * 64 + (b[3] - 0x80)
            &&& forall|k: int| 0 < k < b.len() ==> 0x80 <= #[trigger] b[k] < 0xC0
        }),
{
    let c = code as int;
    assert(c == (c / 64) * 64 + c % 64);
    assert(c / 64 == (c / 4096) * 64 + (c / 64) % 64);
    assert(c / 4096 == (c / 262144) * 64 + (c / 4096) % 64);
}

/// Code points put together as bytes come apart again as they were.
pub proof fn law_spelling_is_read(codes: Seq<u32>)
    requires
        forall|k: int| 0 <= k < codes.len() ==> #[trigger] codes[k] < 0x11_0000,
    ensures
        units(joined(codes)) == codes,
    decreases codes.len(),
{
    if codes.len() > 0 {
        let code = codes[0];
        let rest = codes.drop_first();
        law_spelling_is_read(rest);
        law_spelling(code);
        let b = unit_bytes(code);
        let s = joined(codes);
        assert(s == b + joined(rest));
        assert(forall|k: int| 0 <= k < b.len() ==> #[trigger] s[k] == b[k]);
        assert(unit_len(s) == b.len());
        assert(unit_code(s) == code);
        assert(s.skip(b.len() as int) =~= joined(rest));
        assert(units(s) =~= codes);
    } else {
        assert(joined(codes) =~= Seq::<u8>::empty());
        assert(units(joined(codes)) =~= codes);
    }
}

} // verus!
