//! The argument of `size:`.
//!
//! A named class (`empty`, `tiny`, `small`, `medium`, `large`, `huge`,
//! `gigantic`), an amount, a comparison (`>1mb`, `<=10kb`, `=5`), or two amounts
//! with `..` between them. An amount is a decimal number of bytes, or of the
//! unit written behind it: `kb`, `mb`, `gb`, `tb`, each 1024 of the one before.

use super::parse::SizeRange;
use crate::bytes::same_bytes;
use vstd::prelude::*;
use vstd::slice::slice_subrange;

verus! {

/// `s` starts with `lit`.
pub open spec fn starts_with(s: Seq<u8>, lit: Seq<u8>) -> bool {
    lit.len() <= s.len() && s.take(lit.len() as int) == lit
}

/// `s` ends with `lit`.
pub open spec fn ends_with(s: Seq<u8>, lit: Seq<u8>) -> bool {
    lit.len() <= s.len() && s.skip(s.len() - lit.len()) == lit
}

/// Whether `s` starts with `lit`.
pub fn has_prefix(s: &[u8], lit: &[u8]) -> (res: bool)
    ensures
        res == starts_with(s@, lit@),
{
    if lit.len() > s.len() {
        return false;
    }
    assert(s@.subrange(0, lit@.len() as int) =~= s@.take(lit@.len() as int));
    same_bytes(slice_subrange(s, 0, lit.len()), lit)
}

/// Whether `s` ends with `lit`.
pub fn has_suffix(s: &[u8], lit: &[u8]) -> (res: bool)
    ensures
        res == ends_with(s@, lit@),
{
    if lit.len() > s.len() {
        return false;
    }
    assert(s@.subrange(s@.len() - lit@.len(), s@.len() as int) =~= s@.skip(s@.len() - lit@.len()));
    same_bytes(slice_subrange(s, s.len() - lit.len(), s.len()), lit)
}

/// The value of a string of decimal digits.
pub open spec fn digits_value(s: Seq<u8>) -> nat
    decreases s.len(),
{
    if s.len() == 0 {
        0
    } else {
        10 * digits_value(s.drop_last()) + (s.last() - 0x30) as nat
    }
}

/// `s` is a decimal number.
pub open spec fn is_number(s: Seq<u8>) -> bool {
    s.len() > 0 && forall|k: int| 0 <= k < s.len() ==> 0x30 <= #[trigger] s[k] <= 0x39
}

/// The number and the unit of an amount.
pub open spec fn unit_of(s: Seq<u8>) -> (Seq<u8>, nat) {
    if ends_with(s, seq![0x6Bu8, 0x62u8]) {
        (s.take(s.len() - 2), 0x400)
    } else if ends_with(s, seq![0x6Du8, 0x62u8]) {
        (s.take(s.len() - 2), 0x10_0000)
    } else if ends_with(s, seq![0x67u8, 0x62u8]) {
        (s.take(s.len() - 2), 0x4000_0000)
    } else if ends_with(s, seq![0x74u8, 0x62u8]) {
        (s.take(s.len() - 2), 0x100_0000_0000)
    } else {
        (s, 1)
    }
}

/// An amount in bytes, where `s` is one that fits.
pub open spec fn amount(s: Seq<u8>) -> Option<u64> {
    let (number, unit) = unit_of(s);
    if is_number(number) && digits_value(number) * unit <= u64::MAX {
        Some((digits_value(number) * unit) as u64)
    } else {
        None
    }
}

/// A number of bytes times a unit, where it fits.
fn read_number(s: &[u8], unit: u64) -> (n: Option<u64>)
    requires
        unit > 0,
    ensures
        n == if is_number(s@) && digits_value(s@) * unit <= u64::MAX {
            Some((digits_value(s@) * unit) as u64)
        } else {
            None::<u64>
        },
{
    if s.len() == 0 {
        return None;
    }
    let mut value: u64 = 0;
    let mut fits = true;
    let mut i: usize = 0;
    assert(s@.take(0) =~= Seq::<u8>::empty());
    while i < s.len()
        invariant
            i <= s@.len(),
            forall|k: int| 0 <= k < i ==> 0x30 <= #[trigger] s@[k] <= 0x39,
            fits ==> value == digits_value(s@.take(i as int)),
            !fits ==> digits_value(s@.take(i as int)) > u64::MAX,
        decreases s@.len() - i,
    {
        let b = s[i];
        if b < 0x30 || b > 0x39 {
            assert(!is_number(s@));
            return None;
        }
        proof {
            let before = s@.take(i as int);
            assert(s@.take(i + 1).drop_last() =~= before);
            assert(digits_value(s@.take(i + 1)) == 10 * digits_value(before) + (b - 0x30) as nat);
        }
        if fits {
            let d = (b - 0x30) as u64;
            if value > (u64::MAX - d) / 10 {
                fits = false;
            } else {
                value = value * 10 + d;
            }
        }
        i += 1;
    }
    assert(s@.take(i as int) =~= s@);
    if !fits {
        assert(digits_value(s@) * unit >= digits_value(s@)) by (nonlinear_arith)
            requires
                unit > 0,
        ;
        return None;
    }
    value.checked_mul(unit)
}

fn read_amount(s: &[u8]) -> (n: Option<u64>)
    ensures
        n == amount(s@),
{
    let kb: [u8; 2] = [0x6B, 0x62];
    let mb: [u8; 2] = [0x6D, 0x62];
    let gb: [u8; 2] = [0x67, 0x62];
    let tb: [u8; 2] = [0x74, 0x62];
    assert(kb@ =~= seq![0x6Bu8, 0x62u8]);
    assert(mb@ =~= seq![0x6Du8, 0x62u8]);
    assert(gb@ =~= seq![0x67u8, 0x62u8]);
    assert(tb@ =~= seq![0x74u8, 0x62u8]);
    let unit: u64 = if has_suffix(s, kb.as_slice()) {
        0x400
    } else if has_suffix(s, mb.as_slice()) {
        0x10_0000
    } else if has_suffix(s, gb.as_slice()) {
        0x4000_0000
    } else if has_suffix(s, tb.as_slice()) {
        0x100_0000_0000
    } else {
        1
    };
    let number = if unit == 1 {
        s
    } else {
        assert(s@.subrange(0, s@.len() - 2) =~= s@.take(s@.len() - 2));
        slice_subrange(s, 0, s.len() - 2)
    };
    read_number(number, unit)
}

/// The range from `min` to `max`, where there is anything in it.
pub open spec fn range(min: int, max: int) -> Option<SizeRange> {
    if 0 <= min <= max <= u64::MAX {
        Some(SizeRange { min: min as u64, max: max as u64 })
    } else {
        None
    }
}

/// The class of sizes that goes by this name.
pub open spec fn named(s: Seq<u8>) -> Option<SizeRange> {
    if s == seq![0x65u8, 0x6Du8, 0x70u8, 0x74u8, 0x79u8] {
        // empty
        range(0, 0)
    } else if s == seq![0x74u8, 0x69u8, 0x6Eu8, 0x79u8] {
        // tiny
        range(1, 0x2800)
    } else if s == seq![0x73u8, 0x6Du8, 0x61u8, 0x6Cu8, 0x6Cu8] {
        // small
        range(0x2801, 0x1_9000)
    } else if s == seq![0x6Du8, 0x65u8, 0x64u8, 0x69u8, 0x75u8, 0x6Du8] {
        // medium
        range(0x1_9001, 0x10_0000)
    } else if s == seq![0x6Cu8, 0x61u8, 0x72u8, 0x67u8, 0x65u8] {
        // large
        range(0x10_0001, 0x100_0000)
    } else if s == seq![0x68u8, 0x75u8, 0x67u8, 0x65u8] {
        // huge
        range(0x100_0001, 0x800_0000)
    } else if s == seq![0x67u8, 0x69u8, 0x67u8, 0x61u8, 0x6Eu8, 0x74u8, 0x69u8, 0x63u8] {
        // gigantic
        range(0x800_0001, u64::MAX as int)
    } else {
        None
    }
}

fn read_named(s: &[u8]) -> (r: Option<SizeRange>)
    ensures
        r == named(s@),
{
    let empty: [u8; 5] = [0x65, 0x6D, 0x70, 0x74, 0x79];
    let tiny: [u8; 4] = [0x74, 0x69, 0x6E, 0x79];
    let small: [u8; 5] = [0x73, 0x6D, 0x61, 0x6C, 0x6C];
    let medium: [u8; 6] = [0x6D, 0x65, 0x64, 0x69, 0x75, 0x6D];
    let large: [u8; 5] = [0x6C, 0x61, 0x72, 0x67, 0x65];
    let huge: [u8; 4] = [0x68, 0x75, 0x67, 0x65];
    let gigantic: [u8; 8] = [0x67, 0x69, 0x67, 0x61, 0x6E, 0x74, 0x69, 0x63];
    proof {
        assert(empty@ =~= seq![0x65u8, 0x6Du8, 0x70u8, 0x74u8, 0x79u8]);
        assert(tiny@ =~= seq![0x74u8, 0x69u8, 0x6Eu8, 0x79u8]);
        assert(small@ =~= seq![0x73u8, 0x6Du8, 0x61u8, 0x6Cu8, 0x6Cu8]);
        assert(medium@ =~= seq![0x6Du8, 0x65u8, 0x64u8, 0x69u8, 0x75u8, 0x6Du8]);
        assert(large@ =~= seq![0x6Cu8, 0x61u8, 0x72u8, 0x67u8, 0x65u8]);
        assert(huge@ =~= seq![0x68u8, 0x75u8, 0x67u8, 0x65u8]);
        assert(gigantic@ =~= seq![
            0x67u8,
            0x69u8,
            0x67u8,
            0x61u8,
            0x6Eu8,
            0x74u8,
            0x69u8,
            0x63u8,
        ]);
    }
    if same_bytes(s, empty.as_slice()) {
        Some(SizeRange { min: 0, max: 0 })
    } else if same_bytes(s, tiny.as_slice()) {
        Some(SizeRange { min: 1, max: 0x2800 })
    } else if same_bytes(s, small.as_slice()) {
        Some(SizeRange { min: 0x2801, max: 0x1_9000 })
    } else if same_bytes(s, medium.as_slice()) {
        Some(SizeRange { min: 0x1_9001, max: 0x10_0000 })
    } else if same_bytes(s, large.as_slice()) {
        Some(SizeRange { min: 0x10_0001, max: 0x100_0000 })
    } else if same_bytes(s, huge.as_slice()) {
        Some(SizeRange { min: 0x100_0001, max: 0x800_0000 })
    } else if same_bytes(s, gigantic.as_slice()) {
        Some(SizeRange { min: 0x800_0001, max: u64::MAX })
    } else {
        None
    }
}

/// The place of the first `..` in `s`.
pub open spec fn dots(s: Seq<u8>) -> Option<int>
    decreases s.len(),
{
    if s.len() < 2 {
        None
    } else if s[0] == 0x2E && s[1] == 0x2E {
        Some(0)
    } else {
        match dots(s.drop_first()) {
            Some(k) => Some(k + 1),
            None => None,
        }
    }
}

fn find_dots(s: &[u8]) -> (at: Option<usize>)
    ensures
        match at {
            Some(k) => dots(s@) == Some(k as int) && k + 2 <= s@.len(),
            None => dots(s@) is None,
        },
{
    let mut i: usize = 0;
    assert(s@.skip(0) =~= s@);
    while i < s.len() && s.len() - i >= 2
        invariant
            i <= s@.len(),
            dots(s@) == match dots(s@.skip(i as int)) {
                Some(k) => Some(k + i),
                None => None,
            },
        decreases s@.len() - i,
    {
        assert(s@.skip(i as int).drop_first() =~= s@.skip(i + 1));
        if s[i] == 0x2E && s[i + 1] == 0x2E {
            assert(dots(s@.skip(i as int)) == Some(0int));
            return Some(i);
        }
        i += 1;
    }
    None
}

/// What the argument of `size:` asks for; nothing where it cannot be read, or
/// no size is meant by it.
pub open spec fn size_range(s: Seq<u8>) -> Option<SizeRange> {
    if named(s) is Some {
        named(s)
    } else if starts_with(s, seq![0x3Eu8, 0x3Du8]) {
        // >=
        match amount(s.skip(2)) {
            Some(n) => range(n as int, u64::MAX as int),
            None => None,
        }
    } else if starts_with(s, seq![0x3Cu8, 0x3Du8]) {
        // <=
        match amount(s.skip(2)) {
            Some(n) => range(0, n as int),
            None => None,
        }
    } else if starts_with(s, seq![0x3Eu8]) {
        match amount(s.skip(1)) {
            Some(n) => range(n + 1, u64::MAX as int),
            None => None,
        }
    } else if starts_with(s, seq![0x3Cu8]) {
        match amount(s.skip(1)) {
            Some(n) => range(0, n - 1),
            None => None,
        }
    } else if starts_with(s, seq![0x3Du8]) {
        match amount(s.skip(1)) {
            Some(n) => range(n as int, n as int),
            None => None,
        }
    } else {
        match dots(s) {
            Some(k) => match (amount(s.take(k)), amount(s.skip(k + 2))) {
                (Some(lo), Some(hi)) => range(lo as int, hi as int),
                _ => None,
            },
            None => match amount(s) {
                Some(n) => range(n as int, n as int),
                None => None,
            },
        }
    }
}

/// The bytes of `s` from `from` on.
fn from_on(s: &[u8], from: usize) -> (t: &[u8])
    requires
        from <= s@.len(),
    ensures
        t@ == s@.skip(from as int),
{
    assert(s@.subrange(from as int, s@.len() as int) =~= s@.skip(from as int));
    slice_subrange(s, from, s.len())
}

/// Reads the argument of `size:`, already folded.
pub fn read_size(s: &[u8]) -> (r: Option<SizeRange>)
    ensures
        r == size_range(s@),
{
    if let Some(r) = read_named(s) {
        return Some(r);
    }
    let at_least: [u8; 2] = [0x3E, 0x3D];
    let at_most: [u8; 2] = [0x3C, 0x3D];
    let more: [u8; 1] = [0x3E];
    let less: [u8; 1] = [0x3C];
    let exactly: [u8; 1] = [0x3D];
    proof {
        assert(at_least@ =~= seq![0x3Eu8, 0x3Du8]);
        assert(at_most@ =~= seq![0x3Cu8, 0x3Du8]);
        assert(more@ =~= seq![0x3Eu8]);
        assert(less@ =~= seq![0x3Cu8]);
        assert(exactly@ =~= seq![0x3Du8]);
    }
    if has_prefix(s, at_least.as_slice()) {
        return match read_amount(from_on(s, 2)) {
            Some(n) => Some(SizeRange { min: n, max: u64::MAX }),
            None => None,
        };
    }
    if has_prefix(s, at_most.as_slice()) {
        return match read_amount(from_on(s, 2)) {
            Some(n) => Some(SizeRange { min: 0, max: n }),
            None => None,
        };
    }
    if has_prefix(s, more.as_slice()) {
        return match read_amount(from_on(s, 1)) {
            Some(n) => if n < u64::MAX {
                Some(SizeRange { min: n + 1, max: u64::MAX })
            } else {
                None
            },
            None => None,
        };
    }
    if has_prefix(s, less.as_slice()) {
        return match read_amount(from_on(s, 1)) {
            Some(n) => if n > 0 {
                Some(SizeRange { min: 0, max: n - 1 })
            } else {
                None
            },
            None => None,
        };
    }
    if has_prefix(s, exactly.as_slice()) {
        return match read_amount(from_on(s, 1)) {
            Some(n) => Some(SizeRange { min: n, max: n }),
            None => None,
        };
    }
    match find_dots(s) {
        Some(k) => {
            assert(s@.subrange(0, k as int) =~= s@.take(k as int));
            assert(s.len() == s@.len());
            match (read_amount(slice_subrange(s, 0, k)), read_amount(from_on(s, k + 2))) {
                (Some(lo), Some(hi)) => if lo <= hi {
                    Some(SizeRange { min: lo, max: hi })
                } else {
                    None
                },
                _ => None,
            }
        },
        None => match read_amount(s) {
            Some(n) => Some(SizeRange { min: n, max: n }),
            None => None,
        },
    }
}

/// A decimal number goes up tenfold with each digit behind it.
pub proof fn law_decimal(s: Seq<u8>, d: u8)
    requires
        0x30 <= d <= 0x39,
    ensures
        digits_value(Seq::<u8>::empty()) == 0,
        digits_value(s.push(d)) == 10 * digits_value(s) + (d - 0x30),
{
    assert(s.push(d).drop_last() =~= s);
}

/// `n` where it fits.
pub open spec fn fitting(n: nat) -> Option<u64> {
    if n <= u64::MAX {
        Some(n as u64)
    } else {
        None
    }
}

/// What a number with a unit behind it amounts to: `kb` are 1024 bytes, and each
/// of `mb`, `gb` and `tb` is 1024 of the one before.
pub proof fn law_amount_units(s: Seq<u8>)
    requires
        s.len() > 0,
        forall|k: int| 0 <= k < s.len() ==> 0x30 <= #[trigger] s[k] <= 0x39,
    ensures
        amount(s) == fitting(digits_value(s)),
        amount(s + seq![0x6Bu8, 0x62u8]) == fitting(digits_value(s) * 1024),
        amount(s + seq![0x6Du8, 0x62u8]) == fitting(digits_value(s) * 1048576),
        amount(s + seq![0x67u8, 0x62u8]) == fitting(digits_value(s) * 1073741824),
        amount(s + seq![0x74u8, 0x62u8]) == fitting(digits_value(s) * 1099511627776),
{
    let kb = seq![0x6Bu8, 0x62u8];
    let mb = seq![0x6Du8, 0x62u8];
    let gb = seq![0x67u8, 0x62u8];
    let tb = seq![0x74u8, 0x62u8];
    assert(s[s.len() - 1] <= 0x39);
    assert forall|unit: Seq<u8>| unit.len() == 2 && unit[1] == 0x62 implies !(#[trigger] ends_with(
        s,
        unit,
    )) by {
        if ends_with(s, unit) {
            assert(s.skip(s.len() - 2)[1] == unit[1]);
        }
    }
    assert(unit_of(s) == (s, 1nat));
    lemma_unit_behind(s, kb);
    lemma_unit_behind(s, mb);
    lemma_unit_behind(s, gb);
    lemma_unit_behind(s, tb);
}

/// What stands in front of a unit, and that no other unit stands there.
proof fn lemma_unit_behind(s: Seq<u8>, unit: Seq<u8>)
    requires
        unit.len() == 2,
    ensures
        (s + unit).take((s + unit).len() - 2) == s,
        forall|other: Seq<u8>|
            other.len() == 2 ==> (#[trigger] ends_with(s + unit, other) <==> other == unit),
{
    let t = s + unit;
    assert(t.take(t.len() - 2) =~= s);
    assert(t.skip(t.len() - 2) =~= unit);
}

/// Nothing else is an amount: it is a number, or a number and one of the units.
pub proof fn law_amount_shape(t: Seq<u8>) -> (s: Seq<u8>)
    requires
        amount(t) is Some,
    ensures
        s.len() > 0,
        forall|k: int| 0 <= k < s.len() ==> 0x30 <= #[trigger] s[k] <= 0x39,
        t == s || t == s + seq![0x6Bu8, 0x62u8] || t == s + seq![0x6Du8, 0x62u8] || t == s + seq![
            0x67u8,
            0x62u8,
        ] || t == s + seq![0x74u8, 0x62u8],
{
    let (s, unit) = unit_of(t);
    if unit != 1 {
        assert(t =~= t.take(t.len() - 2) + t.skip(t.len() - 2));
    }
    s
}

/// An amount starts with a digit, and holds neither a dot nor any of `<`, `>` and
/// `=`.
proof fn lemma_amount_bytes(t: Seq<u8>)
    requires
        amount(t) is Some,
    ensures
        t.len() > 0,
        0x30 <= t[0] <= 0x39,
        forall|k: int| 0 <= k < t.len() ==> #[trigger] t[k] != 0x2E,
{
    let s = law_amount_shape(t);
    assert(t[0] == s[0]);
    assert forall|k: int| 0 <= k < t.len() implies #[trigger] t[k] != 0x2E by {
        if k < s.len() {
            assert(t[k] == s[k]);
        }
    }
}

/// The name of a class of sizes starts with a letter.
proof fn lemma_named_bytes(t: Seq<u8>)
    requires
        t.len() > 0,
        t[0] < 0x61,
    ensures
        named(t) is None,
{
}

/// Where the first two dots in a row stand.
proof fn lemma_dots_at(a: Seq<u8>, b: Seq<u8>)
    requires
        forall|k: int| 0 <= k < a.len() ==> #[trigger] a[k] != 0x2E,
    ensures
        dots(a + seq![0x2Eu8, 0x2Eu8] + b) == Some(a.len() as int),
    decreases a.len(),
{
    let t = a + seq![0x2Eu8, 0x2Eu8] + b;
    if a.len() > 0 {
        let rest = a.drop_first();
        assert(t[0] == a[0]);
        assert forall|k: int| 0 <= k < rest.len() implies #[trigger] rest[k] != 0x2E by {
            assert(rest[k] == a[k + 1]);
        }
        lemma_dots_at(rest, b);
        assert(t.drop_first() =~= rest + seq![0x2Eu8, 0x2Eu8] + b);
    } else {
        assert(t[0] == 0x2E && t[1] == 0x2E);
    }
}

proof fn lemma_no_dots(a: Seq<u8>)
    requires
        forall|k: int| 0 <= k < a.len() ==> #[trigger] a[k] != 0x2E,
    ensures
        dots(a) is None,
    decreases a.len(),
{
    if a.len() >= 2 {
        let rest = a.drop_first();
        assert forall|k: int| 0 <= k < rest.len() implies #[trigger] rest[k] != 0x2E by {
            assert(rest[k] == a[k + 1]);
        }
        lemma_no_dots(rest);
    }
}

/// The range holds exactly the sizes from `min` to `max`; there is none where
/// no size is between them.
pub open spec fn holds_from_to(r: Option<SizeRange>, min: int, max: int) -> bool {
    if min <= max {
        r is Some && r->0.min == min && r->0.max == max
    } else {
        r is None
    }
}

/// What a comparison asks for, for every amount: more, less, at least, at most
/// or exactly that. Nothing is asked for where no size can be meant.
pub proof fn law_size_compared(a: Seq<u8>, op: Seq<u8>)
    requires
        amount(a) is Some,
        op == seq![0x3Eu8] || op == seq![0x3Cu8] || op == seq![0x3Du8] || op == seq![0x3Eu8, 0x3Du8]
            || op == seq![0x3Cu8, 0x3Du8],
    ensures
        ({
            let n = amount(a)->0;
            let r = size_range(op + a);
            &&& op == seq![0x3Eu8] ==> holds_from_to(r, n + 1, u64::MAX as int)
            &&& op == seq![0x3Cu8] ==> holds_from_to(r, 0, n - 1)
            &&& op == seq![0x3Eu8, 0x3Du8] ==> holds_from_to(r, n as int, u64::MAX as int)
            &&& op == seq![0x3Cu8, 0x3Du8] ==> holds_from_to(r, 0, n as int)
            &&& op == seq![0x3Du8] ==> holds_from_to(r, n as int, n as int)
        }),
{
    lemma_amount_bytes(a);
    let t = op + a;
    assert(t[0] == op[0]);
    assert(op.len() == 2 ==> t[1] == op[1]);
    assert(op.len() == 1 ==> t[1] == a[0]);
    assert(seq![0x3Eu8][0] == 0x3E && seq![0x3Cu8][0] == 0x3C && seq![0x3Du8][0] == 0x3D);
    assert(seq![0x3Eu8, 0x3Du8][0] == 0x3E && seq![0x3Eu8, 0x3Du8][1] == 0x3D);
    assert(seq![0x3Cu8, 0x3Du8][0] == 0x3C && seq![0x3Cu8, 0x3Du8][1] == 0x3D);
    assert(seq![0x3Eu8].len() == 1 && seq![0x3Cu8].len() == 1 && seq![0x3Du8].len() == 1);
    assert(seq![0x3Eu8, 0x3Du8].len() == 2 && seq![0x3Cu8, 0x3Du8].len() == 2);
    lemma_named_bytes(t);
    lemma_starts(t);
    assert(t.skip(op.len() as int) =~= a);
}

/// An amount alone asks for exactly that size.
pub proof fn law_size_alone(a: Seq<u8>)
    requires
        amount(a) is Some,
    ensures
        holds_from_to(size_range(a), amount(a)->0 as int, amount(a)->0 as int),
{
    lemma_amount_bytes(a);
    lemma_named_bytes(a);
    lemma_starts(a);
    lemma_no_dots(a);
}

/// Two amounts ask for the sizes from the one to the other, both included.
pub proof fn law_size_span(a: Seq<u8>, b: Seq<u8>)
    requires
        amount(a) is Some,
        amount(b) is Some,
    ensures
        holds_from_to(
            size_range(a + seq![0x2Eu8, 0x2Eu8] + b),
            amount(a)->0 as int,
            amount(b)->0 as int,
        ),
{
    lemma_amount_bytes(a);
    let span = a + seq![0x2Eu8, 0x2Eu8] + b;
    assert(span[0] == a[0]);
    lemma_named_bytes(span);
    lemma_starts(span);
    lemma_dots_at(a, b);
    assert(span.take(a.len() as int) =~= a);
    assert(span.skip((a.len() + 2) as int) =~= b);
}

/// Which comparison a text starts with, by its first bytes.
proof fn lemma_starts(t: Seq<u8>)
    requires
        t.len() > 0,
    ensures
        starts_with(t, seq![0x3Eu8]) <==> t[0] == 0x3E,
        starts_with(t, seq![0x3Cu8]) <==> t[0] == 0x3C,
        starts_with(t, seq![0x3Du8]) <==> t[0] == 0x3D,
        starts_with(t, seq![0x3Eu8, 0x3Du8]) <==> t.len() > 1 && t[0] == 0x3E && t[1] == 0x3D,
        starts_with(t, seq![0x3Cu8, 0x3Du8]) <==> t.len() > 1 && t[0] == 0x3C && t[1] == 0x3D,
{
    assert(t.take(1) =~= seq![t[0]]);
    assert(seq![t[0]][0] == t[0]);
    assert(seq![0x3Eu8][0] == 0x3E && seq![0x3Cu8][0] == 0x3C && seq![0x3Du8][0] == 0x3D);
    if t.len() > 1 {
        assert(t.take(2) =~= seq![t[0], t[1]]);
        assert(t.take(2)[0] == t[0] && t.take(2)[1] == t[1]);
        assert(seq![0x3Eu8, 0x3Du8][0] == 0x3E && seq![0x3Eu8, 0x3Du8][1] == 0x3D);
        assert(seq![0x3Cu8, 0x3Du8][0] == 0x3C && seq![0x3Cu8, 0x3Du8][1] == 0x3D);
    }
}

/// The named classes part all sizes between them: each size is in exactly one of
/// `empty`, `tiny`, `small`, `medium`, `large`, `huge` and `gigantic`, and a size
/// of a later class is larger than one of an earlier.
pub proof fn law_classes_part(x: u64)
    ensures
        ({
            let empty = size_range(seq![0x65u8, 0x6Du8, 0x70u8, 0x74u8, 0x79u8]);
            let tiny = size_range(seq![0x74u8, 0x69u8, 0x6Eu8, 0x79u8]);
            let small = size_range(seq![0x73u8, 0x6Du8, 0x61u8, 0x6Cu8, 0x6Cu8]);
            let medium = size_range(seq![0x6Du8, 0x65u8, 0x64u8, 0x69u8, 0x75u8, 0x6Du8]);
            let large = size_range(seq![0x6Cu8, 0x61u8, 0x72u8, 0x67u8, 0x65u8]);
            let huge = size_range(seq![0x68u8, 0x75u8, 0x67u8, 0x65u8]);
            let gigantic = size_range(
                seq![0x67u8, 0x69u8, 0x67u8, 0x61u8, 0x6Eu8, 0x74u8, 0x69u8, 0x63u8],
            );
            let all = seq![empty, tiny, small, medium, large, huge, gigantic];
            &&& forall|k: int| 0 <= k < 7 ==> #[trigger] all[k] is Some
            &&& exists|k: int|
                0 <= k < 7 && (#[trigger] all[k])->0.min <= x && x <= all[k]->0.max
            &&& forall|j: int, k: int|
                0 <= j < k < 7 ==> (#[trigger] all[j])->0.max < (#[trigger] all[k])->0.min
            &&& empty->0.max == 0
        }),
{
    let e = seq![0x65u8, 0x6Du8, 0x70u8, 0x74u8, 0x79u8];
    let t = seq![0x74u8, 0x69u8, 0x6Eu8, 0x79u8];
    let s = seq![0x73u8, 0x6Du8, 0x61u8, 0x6Cu8, 0x6Cu8];
    let m = seq![0x6Du8, 0x65u8, 0x64u8, 0x69u8, 0x75u8, 0x6Du8];
    let l = seq![0x6Cu8, 0x61u8, 0x72u8, 0x67u8, 0x65u8];
    let h = seq![0x68u8, 0x75u8, 0x67u8, 0x65u8];
    let g = seq![0x67u8, 0x69u8, 0x67u8, 0x61u8, 0x6Eu8, 0x74u8, 0x69u8, 0x63u8];
    assert(e[0] == 0x65 && t[0] == 0x74 && s[0] == 0x73 && m[0] == 0x6D && l[0] == 0x6C && h[0]
        == 0x68 && g[0] == 0x67);
    let all = seq![
        size_range(e),
        size_range(t),
        size_range(s),
        size_range(m),
        size_range(l),
        size_range(h),
        size_range(g),
    ];
    assert(all[0] == named(e) && all[1] == named(t) && all[2] == named(s) && all[3] == named(m)
        && all[4] == named(l) && all[5] == named(h) && all[6] == named(g));
    assert(all[0]->0.min == 0 && all[0]->0.max == 0);
    if x == 0 {
        assert(all[0]->0.min <= x <= all[0]->0.max);
    } else if x <= all[1]->0.max {
        assert(all[1]->0.min <= x <= all[1]->0.max);
    } else if x <= all[2]->0.max {
        assert(all[2]->0.min <= x <= all[2]->0.max);
    } else if x <= all[3]->0.max {
        assert(all[3]->0.min <= x <= all[3]->0.max);
    } else if x <= all[4]->0.max {
        assert(all[4]->0.min <= x <= all[4]->0.max);
    } else if x <= all[5]->0.max {
        assert(all[5]->0.min <= x <= all[5]->0.max);
    } else {
        assert(all[6]->0.min <= x <= all[6]->0.max);
    }
}

} // verus!
