//! Fixed-width octal ASCII numbers, as used by the size and checksum fields
//! of the on-disk record format.

use vstd::prelude::*;

verus! {

/// ASCII code of the digit `0`.
pub const DIGIT_ZERO: u8 = 48;

pub open spec fn is_octal_digit(b: u8) -> bool {
    48 <= b <= 55
}

pub open spec fn all_octal(s: Seq<u8>) -> bool {
    forall|i: int| 0 <= i < s.len() ==> is_octal_digit(#[trigger] s[i])
}

/// Value of a most-significant-first octal digit string.
pub open spec fn octal_value(s: Seq<u8>) -> nat
    decreases s.len(),
{
    if s.len() == 0 {
        0
    } else {
        octal_value(s.drop_last()) * 8 + (if is_octal_digit(s.last()) {
            (s.last() - 48) as nat
        } else {
            0
        })
    }
}

pub open spec fn pow8(w: nat) -> nat
    decreases w,
{
    if w == 0 {
        1
    } else {
        8 * pow8((w - 1) as nat)
    }
}

/// The `width` least significant octal digits of `v`, most significant first,
/// zero padded on the left.
pub open spec fn octal_digits(v: nat, width: nat) -> Seq<u8>
    decreases width,
{
    if width == 0 {
        Seq::empty()
    } else {
        octal_digits(v / 8, (width - 1) as nat) + seq![(v % 8 + 48) as u8]
    }
}

pub proof fn lemma_octal_value_bound(s: Seq<u8>)
    requires
        all_octal(s),
    ensures
        octal_value(s) < pow8(s.len()),
    decreases s.len(),
{
    if s.len() > 0 {
        assert(all_octal(s.drop_last()));
        lemma_octal_value_bound(s.drop_last());
    }
}

pub proof fn lemma_octal_digits_shape(v: nat, width: nat)
    ensures
        octal_digits(v, width).len() == width,
        all_octal(octal_digits(v, width)),
    decreases width,
{
    if width > 0 {
        lemma_octal_digits_shape(v / 8, (width - 1) as nat);
        let s = octal_digits(v / 8, (width - 1) as nat);
        let t = octal_digits(v, width);
        assert(t =~= s + seq![(v % 8 + 48) as u8]);
        assert forall|i: int| 0 <= i < t.len() implies is_octal_digit(#[trigger] t[i]) by {
            if i < s.len() {
                assert(t[i] == s[i]);
            }
        }
    }
}

/// Formatting a value that fits in `width` octal digits and parsing the
/// digits back yields the value again.
pub proof fn lemma_octal_round_trip(v: nat, width: nat)
    requires
        v < pow8(width),
    ensures
        octal_value(octal_digits(v, width)) == v,
    decreases width,
{
    if width == 0 {
        assert(v == 0);
    } else {
        let s = octal_digits(v / 8, (width - 1) as nat);
        let t = octal_digits(v, width);
        lemma_octal_digits_shape(v / 8, (width - 1) as nat);
        assert(t.drop_last() =~= s);
        assert(t.last() == (v % 8 + 48) as u8);
        lemma_octal_round_trip(v / 8, (width - 1) as nat);
    }
}

/// Writes `v` as exactly `width` octal digits, most significant first;
/// values too large to fit keep only their low digits.
pub fn format_octal(v: u64, width: usize) -> (r: Vec<u8>)
    ensures
        r@ == octal_digits(v as nat, width as nat),
    decreases width,
{
    if width == 0 {
        Vec::new()
    } else {
        let mut r = format_octal(v / 8, width - 1);
        r.push((v % 8) as u8 + 48);
        assert(r@ =~= octal_digits(v as nat, width as nat));
        r
    }
}

/// Reads a most-significant-first octal digit string; any string that is
/// empty or holds a non-digit byte is read as zero, the lenient reading
/// an unparsable size field has always received.
pub fn parse_octal(s: &Vec<u8>) -> (r: u64)
    requires
        s@.len() <= 20,
    ensures
        r == if all_octal(s@) && s@.len() > 0 {
            octal_value(s@) as u64
        } else {
            0u64
        },
{
    let n = s.len();
    let mut acc: u64 = 0;
    let mut i: usize = 0;
    let mut ok: bool = n > 0;
    proof {
        lemma_pow8_le(0, n as nat);
    }
    while i < n
        invariant
            0 <= i <= n,
            n == s@.len() <= 20,
            ok == (n > 0 && all_octal(s@.subrange(0, i as int))),
            ok ==> acc as nat == octal_value(s@.subrange(0, i as int)),
            !ok ==> acc == 0,
            (acc as nat) < pow8(i as nat),
            pow8(i as nat) <= pow8(n as nat),
        decreases n - i,
    {
        let b = s[i];
        proof {
            assert(s@.subrange(0, i + 1).drop_last() =~= s@.subrange(0, i as int));
            assert(pow8((i + 1) as nat) == 8 * pow8(i as nat));
            lemma_pow8_le((i + 1) as nat, n as nat);
            lemma_pow8_le(n as nat, 20);
            lemma_pow8_20_value();
        }
        if b < 48 || b > 55 {
            ok = false;
            acc = 0;
            proof {
                assert(!is_octal_digit(s@.subrange(0, i + 1)[i as int]));
                assert(!all_octal(s@.subrange(0, i + 1)));
            }
        } else if ok {
            acc = acc * 8 + (b - 48) as u64;
        }
        i = i + 1;
        proof {
            if !ok {
                assert(!all_octal(s@.subrange(0, i as int)) || n == 0);
                if n > 0 {
                    let j = choose|j: int|
                        0 <= j < i && !is_octal_digit(s@.subrange(0, i as int)[j]);
                    assert(!is_octal_digit(s@[j]));
                    assert(!all_octal(s@));
                }
            }
        }
    }
    proof {
        assert(s@.subrange(0, n as int) =~= s@);
    }
    acc
}

pub proof fn lemma_pow8_20_value()
    ensures
        pow8(20) == 0x1000_0000_0000_0000,
{
    reveal_with_fuel(pow8, 21);
}

pub proof fn lemma_pow8_le(a: nat, b: nat)
    requires
        a <= b,
    ensures
        pow8(a) <= pow8(b),
    decreases b,
{
    if a < b {
        lemma_pow8_le(a, (b - 1) as nat);
    }
}

} // verus!
