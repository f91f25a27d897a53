//! The record codec: 512-byte on-disk headers.
//!
//! A header carries a name (100 bytes, NUL padded), an octal size, an opaque
//! timestamp string, a checksum, a type flag (`'0'` file, `'5'` directory),
//! a magic sequence, and a name prefix field.  The checksum of a header is
//! 256 plus the sum of all its bytes outside the checksum field, which is
//! the sum of all bytes with the checksum field read as spaces.

use vstd::prelude::*;
use crate::octal::{
    all_octal, format_octal, lemma_octal_digits_shape, lemma_octal_round_trip, octal_digits,
    octal_value, parse_octal, pow8,
};
use crate::paths::push_copy;

verus! {

/// Bytes per sector; the unit of all device transfer.
pub const SECTOR_SIZE: usize = 512;

/// Stored type flag of a file record: ASCII `0`.
pub const TYPE_FILE: u8 = 48;

/// Stored type flag of a directory record: ASCII `5`.
pub const TYPE_DIR: u8 = 53;

/// Sentinel block id of an item that has never been written to the device.
pub const NOT_PERSISTED: u64 = 0xffff_ffff_ffff_ffff;

/// Largest value the ten-digit octal size field can carry, plus one.
pub const SIZE_LIMIT: u64 = 0x4000_0000;

pub open spec fn zeros(n: nat) -> Seq<u8> {
    Seq::new(n, |i: int| 0u8)
}

/// The magic sequence at bytes 257 to 264: `ustar`, NUL, `00`.
pub open spec fn magic_seq() -> Seq<u8> {
    seq![117u8, 115u8, 116u8, 97u8, 114u8, 0u8, 48u8, 48u8]
}

/// What decoding keeps of a fixed-width name field: the ASCII content, with
/// NUL padding dropped.
pub open spec fn keep_byte(b: u8) -> bool {
    0 < b < 128
}

pub open spec fn ascii_content(s: Seq<u8>) -> Seq<u8> {
    s.filter(|b: u8| keep_byte(b))
}

/// A whole header with the given value in its checksum field.
pub open spec fn header_with_cksum(
    name: Seq<u8>,
    size: u64,
    time: Seq<u8>,
    prefix: Seq<u8>,
    tf: u8,
    ck: nat,
) -> Seq<u8>
    recommends
        name.len() <= 100,
        time.len() == 11,
        prefix.len() == 155,
{
    name + zeros((100 - name.len()) as nat)  // 0..100: name
    + seq![48u8, 48u8, 48u8, 48u8, 55u8, 55u8, 55u8, 0u8]  // 100..108: mode
    + seq![48u8, 48u8, 48u8, 48u8, 52u8, 50u8, 48u8, 0u8]  // 108..116: owner id
    + seq![48u8, 48u8, 48u8, 48u8, 52u8, 50u8, 48u8, 0u8]  // 116..124: group id
    + seq![48u8] + octal_digits(size as nat, 10) + seq![0u8]  // 124..136: size
    + time + seq![0u8]  // 136..148: timestamp
    + octal_digits(ck, 6) + seq![0u8, 32u8]  // 148..156: checksum
    + seq![tf]  // 156: type flag
    + zeros(100)  // 157..257: link name, unused
    + magic_seq()  // 257..265: magic
    + seq![119u8, 101u8, 101u8, 100u8] + zeros(28)  // 265..297: owner name
    + seq![119u8, 101u8, 101u8, 100u8] + zeros(28)  // 297..329: group name
    + seq![48u8, 48u8, 48u8, 48u8, 48u8, 48u8, 48u8, 0u8]  // 329..337: device major
    + seq![48u8, 48u8, 48u8, 48u8, 48u8, 48u8, 48u8, 0u8]  // 337..345: device minor
    + prefix  // 345..500: name prefix
    + zeros(12)  // 500..512: reserved
}

/// The byte that the checksum computation reads at index `i`: the checksum
/// digits and their NUL terminator count as spaces.  The space that closes
/// the field is a space already.
pub open spec fn cksum_view(b: Seq<u8>, i: int) -> u8 {
    if 147 < i < 155 {
        32
    } else {
        b[i]
    }
}

pub open spec fn header_sum_upto(b: Seq<u8>, n: int) -> nat
    decreases n,
{
    if n <= 0 {
        0
    } else {
        header_sum_upto(b, n - 1) + cksum_view(b, n - 1) as nat
    }
}

/// The header checksum: the sum of all bytes, with the checksum field read
/// as spaces.
pub open spec fn header_sum(b: Seq<u8>) -> nat {
    header_sum_upto(b, b.len() as int)
}

/// A fully encoded header: the fields, with the checksum of the result
/// written into the checksum field.
pub open spec fn encode_header(
    name: Seq<u8>,
    size: u64,
    time: Seq<u8>,
    prefix: Seq<u8>,
    tf: u8,
) -> Seq<u8> {
    let h0 = header_with_cksum(name, size, time, prefix, tf, 0);
    header_with_cksum(name, size, time, prefix, tf, header_sum(h0))
}

/// The size field as decoding reads it: ten octal digits, or zero when the
/// field does not parse.
pub open spec fn decoded_size(b: Seq<u8>) -> u64
    recommends
        b.len() == 512,
{
    let s = b.subrange(125, 135);
    if all_octal(s) {
        octal_value(s) as u64
    } else {
        0u64
    }
}

pub proof fn lemma_header_sum_bound(b: Seq<u8>, n: int)
    requires
        0 <= n <= b.len(),
    ensures
        header_sum_upto(b, n) <= 255 * n,
    decreases n,
{
    if n > 0 {
        lemma_header_sum_bound(b, n - 1);
    }
}

/// The checksum computation never reads the checksum field, so two headers
/// that agree outside it have the same sum.
pub proof fn lemma_header_sum_same(b1: Seq<u8>, b2: Seq<u8>, n: int)
    requires
        b1.len() == b2.len(),
        n <= b1.len(),
        forall|i: int| 0 <= i < b1.len() && !(147 < i < 155) ==> b1[i] == b2[i],
    ensures
        header_sum_upto(b1, n) == header_sum_upto(b2, n),
    decreases n,
{
    if n > 0 {
        lemma_header_sum_same(b1, b2, n - 1);
        assert(cksum_view(b1, n - 1) == cksum_view(b2, n - 1));
    }
}

/// Where each field of a header lies.
pub proof fn lemma_header_layout(
    name: Seq<u8>,
    size: u64,
    time: Seq<u8>,
    prefix: Seq<u8>,
    tf: u8,
    ck: nat,
)
    requires
        name.len() <= 100,
        time.len() == 11,
        prefix.len() == 155,
    ensures
        ({
            let b = header_with_cksum(name, size, time, prefix, tf, ck);
            &&& b.len() == 512
            &&& b.subrange(0, 100) == name + zeros((100 - name.len()) as nat)
            &&& b.subrange(125, 135) == octal_digits(size as nat, 10)
            &&& b.subrange(136, 147) == time
            &&& b.subrange(148, 154) == octal_digits(ck, 6)
            &&& b[154] == 0u8
            &&& b[155] == 32u8
            &&& b[156] == tf
            &&& b.subrange(257, 265) == magic_seq()
            &&& b.subrange(345, 500) == prefix
        }),
{
    lemma_octal_digits_shape(size as nat, 10);
    lemma_octal_digits_shape(ck, 6);
    let b = header_with_cksum(name, size, time, prefix, tf, ck);
    assert(b.len() == 512);
    assert(b.subrange(0, 100) =~= name + zeros((100 - name.len()) as nat));
    assert(b.subrange(125, 135) =~= octal_digits(size as nat, 10));
    assert(b.subrange(136, 147) =~= time);
    assert(b.subrange(148, 154) =~= octal_digits(ck, 6));
    assert(b.subrange(257, 265) =~= magic_seq());
    assert(b.subrange(345, 500) =~= prefix);
}

/// Headers that differ only in the checksum value agree outside the checksum
/// digits.
pub proof fn lemma_header_cksum_indep(
    name: Seq<u8>,
    size: u64,
    time: Seq<u8>,
    prefix: Seq<u8>,
    tf: u8,
    ck1: nat,
    ck2: nat,
)
    requires
        name.len() <= 100,
        time.len() == 11,
        prefix.len() == 155,
    ensures
        ({
            let b1 = header_with_cksum(name, size, time, prefix, tf, ck1);
            let b2 = header_with_cksum(name, size, time, prefix, tf, ck2);
            &&& forall|i: int| 0 <= i < 512 && !(147 < i < 155) ==> b1[i] == b2[i]
            &&& header_sum(b1) == header_sum(b2)
        }),
{
    lemma_octal_digits_shape(size as nat, 10);
    lemma_octal_digits_shape(ck1, 6);
    lemma_octal_digits_shape(ck2, 6);
    let b1 = header_with_cksum(name, size, time, prefix, tf, ck1);
    let b2 = header_with_cksum(name, size, time, prefix, tf, ck2);
    lemma_header_layout(name, size, time, prefix, tf, ck1);
    lemma_header_layout(name, size, time, prefix, tf, ck2);
    assert forall|i: int| 0 <= i < 512 && !(147 < i < 155) implies b1[i] == b2[i] by {
        if i < 148 {
            assert(b1.subrange(0, 148) =~= b2.subrange(0, 148));
            assert(b1.subrange(0, 148)[i] == b1[i]);
            assert(b2.subrange(0, 148)[i] == b2[i]);
        } else if i >= 155 {
            assert(b1.subrange(155, 512) =~= b2.subrange(155, 512));
            assert(b1.subrange(155, 512)[i - 155] == b1[i]);
            assert(b2.subrange(155, 512)[i - 155] == b2[i]);
        }
    }
    lemma_header_sum_same(b1, b2, 512);
}

/// The encoded checksum field parses back to the sum of the encoded header:
/// feeding a record through the header-sum computation with its checksum
/// field blanked to spaces yields the stored value.
pub proof fn lemma_checksum_field(name: Seq<u8>, size: u64, time: Seq<u8>, prefix: Seq<u8>, tf: u8)
    requires
        name.len() <= 100,
        time.len() == 11,
        prefix.len() == 155,
    ensures
        ({
            let b = encode_header(name, size, time, prefix, tf);
            &&& all_octal(b.subrange(148, 154))
            &&& octal_value(b.subrange(148, 154)) == header_sum(b)
        }),
{
    let h0 = header_with_cksum(name, size, time, prefix, tf, 0);
    let ck = header_sum(h0);
    let b = header_with_cksum(name, size, time, prefix, tf, ck);
    lemma_header_layout(name, size, time, prefix, tf, ck);
    lemma_header_layout(name, size, time, prefix, tf, 0);
    lemma_header_cksum_indep(name, size, time, prefix, tf, 0, ck);
    lemma_header_sum_bound(h0, 512);
    assert(ck <= 255 * 512);
    assert(pow8(6) == 0x40000) by {
        reveal_with_fuel(pow8, 7);
    }
    lemma_octal_round_trip(ck, 6);
    lemma_octal_digits_shape(ck, 6);
}

/// Encoding and then decoding a record reproduces its name, size, type
/// flag, timestamp and prefix, and the encoded record carries the magic
/// sequence.
pub proof fn lemma_record_round_trip(
    name: Seq<u8>,
    size: u64,
    time: Seq<u8>,
    prefix: Seq<u8>,
    tf: u8,
)
    requires
        name.len() <= 100,
        forall|i: int| 0 <= i < name.len() ==> keep_byte(#[trigger] name[i]),
        time.len() == 11,
        prefix.len() == 155,
        size < SIZE_LIMIT,
    ensures
        ({
            let b = encode_header(name, size, time, prefix, tf);
            &&& ascii_content(b.subrange(0, 100)) == name
            &&& decoded_size(b) == size
            &&& b[156] == tf
            &&& b.subrange(136, 147) == time
            &&& b.subrange(345, 500) == prefix
            &&& b.subrange(257, 265) == magic_seq()
        }),
{
    let h0 = header_with_cksum(name, size, time, prefix, tf, 0);
    let ck = header_sum(h0);
    let b = encode_header(name, size, time, prefix, tf);
    lemma_header_layout(name, size, time, prefix, tf, ck);
    // the name field: the padding is dropped and the name kept
    Seq::<u8>::filter_distributes_over_add(
        name,
        zeros((100 - name.len()) as nat),
        |x: u8| keep_byte(x),
    );
    lemma_filter_all_kept(name);
    lemma_filter_none_kept(zeros((100 - name.len()) as nat));
    // the size field: ten octal digits parse back to the value
    assert(pow8(10) == 0x40000000) by {
        reveal_with_fuel(pow8, 11);
    }
    lemma_octal_round_trip(size as nat, 10);
    lemma_octal_digits_shape(size as nat, 10);
}

proof fn lemma_filter_all_kept(s: Seq<u8>)
    requires
        forall|i: int| 0 <= i < s.len() ==> keep_byte(#[trigger] s[i]),
    ensures
        ascii_content(s) == s,
    decreases s.len(),
{
    reveal(Seq::filter);
    if s.len() > 0 {
        assert(forall|i: int|
            0 <= i < s.drop_last().len() ==> keep_byte(#[trigger] s.drop_last()[i]));
        lemma_filter_all_kept(s.drop_last());
        assert(ascii_content(s) =~= s);
    }
}

proof fn lemma_filter_none_kept(s: Seq<u8>)
    requires
        forall|i: int| 0 <= i < s.len() ==> !keep_byte(#[trigger] s[i]),
    ensures
        ascii_content(s) == Seq::<u8>::empty(),
    decreases s.len(),
{
    reveal(Seq::filter);
    if s.len() > 0 {
        assert(forall|i: int|
            0 <= i < s.drop_last().len() ==> !keep_byte(#[trigger] s.drop_last()[i]));
        lemma_filter_none_kept(s.drop_last());
    }
}

/// Computes the header checksum of a 512-byte block.
pub fn compute_header_sum(b: &Vec<u8>) -> (s: u64)
    requires
        b@.len() == 512,
    ensures
        s as nat == header_sum(b@),
{
    let mut acc: u64 = 0;
    let mut i: usize = 0;
    while i < 512
        invariant
            0 <= i <= 512,
            b@.len() == 512,
            acc as nat == header_sum_upto(b@, i as int),
            acc <= 255 * i,
        decreases 512 - i,
    {
        if i > 147 && i < 155 {
            acc = acc + 32;
        } else {
            acc = acc + b[i] as u64;
        }
        i = i + 1;
    }
    acc
}

/// Appends `n` zero bytes.
pub fn push_zeros(dst: &mut Vec<u8>, n: usize)
    ensures
        final(dst)@ == old(dst)@ + zeros(n as nat),
{
    let mut i: usize = 0;
    while i < n
        invariant
            0 <= i <= n,
            dst@ == old(dst)@ + zeros(i as nat),
        decreases n - i,
    {
        dst.push(0);
        proof {
            assert(old(dst)@ + zeros((i + 1) as nat) =~= (old(dst)@ + zeros(i as nat)).push(0u8));
        }
        i = i + 1;
    }
}

/// Keeps the ASCII content of a field, dropping NUL padding.
pub fn ascii_content_exec(s: &Vec<u8>) -> (r: Vec<u8>)
    ensures
        r@ == ascii_content(s@),
{
    let mut r: Vec<u8> = Vec::new();
    let n = s.len();
    let mut i: usize = 0;
    proof {
        reveal(Seq::filter);
    }
    while i < n
        invariant
            0 <= i <= n,
            n == s@.len(),
            r@ == ascii_content(s@.subrange(0, i as int)),
        decreases n - i,
    {
        let b = s[i];
        if b > 0 && b < 128 {
            r.push(b);
        }
        proof {
            reveal(Seq::filter);
            let pre = s@.subrange(0, i as int);
            let post = s@.subrange(0, i + 1);
            assert(post.drop_last() =~= pre);
            assert(post.last() == b);
        }
        i = i + 1;
    }
    proof {
        assert(s@.subrange(0, n as int) =~= s@);
    }
    r
}

/// Whether the block carries the magic sequence at bytes 257 to 264.
pub fn check_magic(b: &Vec<u8>) -> (r: bool)
    requires
        b@.len() == 512,
    ensures
        r == (b@.subrange(257, 265) == magic_seq()),
{
    let ok = b[257] == 117 && b[258] == 115 && b[259] == 116 && b[260] == 97 && b[261] == 114
        && b[262] == 0 && b[263] == 48 && b[264] == 48;
    proof {
        if ok {
            assert(b@.subrange(257, 265) =~= magic_seq());
        } else {
            assert(b@.subrange(257, 265) != magic_seq()) by {
                if b@.subrange(257, 265) == magic_seq() {
                    assert(b@[257] == magic_seq()[0]);
                    assert(b@[258] == magic_seq()[1]);
                    assert(b@[259] == magic_seq()[2]);
                    assert(b@[260] == magic_seq()[3]);
                    assert(b@[261] == magic_seq()[4]);
                    assert(b@[262] == magic_seq()[5]);
                    assert(b@[263] == magic_seq()[6]);
                    assert(b@[264] == magic_seq()[7]);
                }
            }
        }
    }
    ok
}

/// Builds the encoded header for the given fields, and returns it with its
/// checksum value.
pub fn encode_fields(name: &Vec<u8>, size: u64, time: &Vec<u8>, prefix: &Vec<u8>, tf: u8) -> (r: (
    Vec<u8>,
    u64,
))
    requires
        name@.len() <= 100,
        time@.len() == 11,
        prefix@.len() == 155,
    ensures
        r.0@ == encode_header(name@, size, time@, prefix@, tf),
        r.1 as nat == header_sum(r.0@),
{
    let ghost gname = name@;
    let mut b: Vec<u8> = Vec::new();
    push_copy(&mut b, name);
    push_zeros(&mut b, 100 - name.len());
    // mode, owner id, group id
    push_lit8(&mut b, 48, 48, 48, 48, 55, 55, 55, 0);
    push_lit8(&mut b, 48, 48, 48, 48, 52, 50, 48, 0);
    push_lit8(&mut b, 48, 48, 48, 48, 52, 50, 48, 0);
    // size
    b.push(48);
    let sz = format_octal(size, 10);
    push_copy(&mut b, &sz);
    b.push(0);
    // timestamp
    push_copy(&mut b, time);
    b.push(0);
    // checksum, written as zero first and patched below
    let zck = format_octal(0, 6);
    push_copy(&mut b, &zck);
    b.push(0);
    b.push(32);
    // type flag, link name
    b.push(tf);
    push_zeros(&mut b, 100);
    // magic
    push_lit8(&mut b, 117, 115, 116, 97, 114, 0, 48, 48);
    // owner and group name
    push_lit4(&mut b, 119, 101, 101, 100);
    push_zeros(&mut b, 28);
    push_lit4(&mut b, 119, 101, 101, 100);
    push_zeros(&mut b, 28);
    // device major and minor
    push_lit8(&mut b, 48, 48, 48, 48, 48, 48, 48, 0);
    push_lit8(&mut b, 48, 48, 48, 48, 48, 48, 48, 0);
    // name prefix, reserved tail
    push_copy(&mut b, prefix);
    push_zeros(&mut b, 12);
    proof {
        assert(b@ =~= header_with_cksum(name@, size, time@, prefix@, tf, 0));
        lemma_header_layout(name@, size, time@, prefix@, tf, 0);
    }
    let ck = compute_header_sum(&b);
    let ghost h0 = b@;
    let ckd = format_octal(ck, 6);
    proof {
        lemma_octal_digits_shape(ck as nat, 6);
    }
    let mut j: usize = 0;
    while j < 6
        invariant
            0 <= j <= 6,
            b@.len() == 512,
            ckd@.len() == 6,
            ckd@ == octal_digits(ck as nat, 6),
            forall|i: int|
                0 <= i < 512 ==> b@[i] == if 148 <= i < 148 + j {
                    ckd@[i - 148]
                } else {
                    h0[i]
                },
        decreases 6 - j,
    {
        let v = ckd[j];
        b.set(148 + j, v);
        j = j + 1;
    }
    proof {
        lemma_header_layout(name@, size, time@, prefix@, tf, header_sum(h0));
        lemma_header_cksum_indep(name@, size, time@, prefix@, tf, 0, header_sum(h0));
        let hc = header_with_cksum(name@, size, time@, prefix@, tf, header_sum(h0));
        assert forall|i: int| 0 <= i < 512 implies b@[i] == hc[i] by {
            if 148 <= i < 154 {
                assert(hc.subrange(148, 154)[i - 148] == hc[i]);
            }
        }
        assert(b@ =~= hc);
    }
    (b, ck)
}

fn push_lit8(dst: &mut Vec<u8>, b0: u8, b1: u8, b2: u8, b3: u8, b4: u8, b5: u8, b6: u8, b7: u8)
    ensures
        final(dst)@ == old(dst)@ + seq![b0, b1, b2, b3, b4, b5, b6, b7],
{
    dst.push(b0);
    dst.push(b1);
    dst.push(b2);
    dst.push(b3);
    dst.push(b4);
    dst.push(b5);
    dst.push(b6);
    dst.push(b7);
    proof {
        assert(dst@ =~= old(dst)@ + seq![b0, b1, b2, b3, b4, b5, b6, b7]);
    }
}

fn push_lit4(dst: &mut Vec<u8>, b0: u8, b1: u8, b2: u8, b3: u8)
    ensures
        final(dst)@ == old(dst)@ + seq![b0, b1, b2, b3],
{
    dst.push(b0);
    dst.push(b1);
    dst.push(b2);
    dst.push(b3);
    proof {
        assert(dst@ =~= old(dst)@ + seq![b0, b1, b2, b3]);
    }
}

/// Reads the size field of a block, as `decoded_size` describes.
pub fn decode_size(b: &Vec<u8>) -> (r: u64)
    requires
        b@.len() == 512,
    ensures
        r == decoded_size(b@),
{
    let s = crate::paths::copy_range(b, 125, 135);
    parse_octal(&s)
}

} // verus!
