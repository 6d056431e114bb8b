//! Binary primitives over an in-memory byte store: fixed-width little-endian
//! reads, null-terminated UTF-8 string reads, and the relocation-footer codec
//! that stores a list of ascending pointer offsets as delta/base-128 bytes.

use crate::flowdata::FlowDataError;
use vstd::prelude::*;
use vstd::string::StringSliceAdditionalSpecFns;
use vstd::utf8::{decode_utf8, encode_utf8, valid_utf8};

verus! {

/// Whether two string slices hold the same characters.
pub(crate) fn str_eq(a: &str, b: &str) -> (r: bool)
    ensures
        r == (a@ == b@),
{
    proof {
        vstd::utf8::encode_utf8_decode_utf8(a@);
        vstd::utf8::encode_utf8_decode_utf8(b@);
    }
    let ab = a.as_bytes();
    let bb = b.as_bytes();
    if ab.len() != bb.len() {
        return false;
    }
    let mut i: usize = 0;
    while i < ab.len()
        invariant
            i <= ab@.len(),
            ab@.len() == bb@.len(),
            forall|j: int| 0 <= j < i ==> ab@[j] == bb@[j],
            ab@ == encode_utf8(a@),
            bb@ == encode_utf8(b@),
            decode_utf8(encode_utf8(a@)) == a@,
            decode_utf8(encode_utf8(b@)) == b@,
        decreases ab@.len() - i,
    {
        if ab[i] != bb[i] {
            return false;
        }
        i = i + 1;
    }
    proof {
        assert(ab@ =~= bb@);
    }
    true
}

/// The 16-bit little-endian integer held by the two bytes at `pos`.
pub open spec fn u16_le_at(data: Seq<u8>, pos: int) -> u16
    recommends
        0 <= pos,
        pos + 2 <= data.len(),
{
    (data[pos] + data[pos + 1] * 0x100) as u16
}

/// The 32-bit little-endian integer held by the four bytes at `pos`.
pub open spec fn u32_le_at(data: Seq<u8>, pos: int) -> u32
    recommends
        0 <= pos,
        pos + 4 <= data.len(),
{
    (data[pos] + data[pos + 1] * 0x100 + data[pos + 2] * 0x10000 + data[pos + 3] * 0x1000000) as u32
}

/// Read the 32-bit little-endian integer at `pos`, failing when fewer than
/// four bytes remain.
pub fn read_u32_le(data: &[u8], pos: usize) -> (r: Result<u32, FlowDataError>)
    ensures
        match r {
            Ok(v) => pos + 4 <= data@.len() && v == u32_le_at(data@, pos as int),
            Err(e) => pos + 4 > data@.len() && e is IOError,
        },
{
    if pos < data.len() && data.len() - pos >= 4 {
        let b0 = data[pos] as u32;
        let b1 = data[pos + 1] as u32;
        let b2 = data[pos + 2] as u32;
        let b3 = data[pos + 3] as u32;
        Ok(b0 + b1 * 0x100 + b2 * 0x10000 + b3 * 0x1000000)
    } else {
        Err(FlowDataError::IOError)
    }
}

/// Read the 16-bit little-endian integer at `pos`, failing when fewer than
/// two bytes remain.
pub fn read_u16_le(data: &[u8], pos: usize) -> (r: Result<u16, FlowDataError>)
    ensures
        match r {
            Ok(v) => pos + 2 <= data@.len() && v == u16_le_at(data@, pos as int),
            Err(e) => pos + 2 > data@.len() && e is IOError,
        },
{
    if pos < data.len() && data.len() - pos >= 2 {
        let b0 = data[pos] as u16;
        let b1 = data[pos + 1] as u16;
        Ok(b0 + b1 * 0x100)
    } else {
        Err(FlowDataError::IOError)
    }
}

/// The position of the first zero byte at or after `pos`, if there is one.
pub open spec fn find_nul(data: Seq<u8>, pos: int) -> Option<int>
    decreases data.len() - pos,
{
    if pos < 0 || pos >= data.len() {
        None
    } else if data[pos] == 0 {
        Some(pos)
    } else {
        find_nul(data, pos + 1)
    }
}

/// The bytes of the null-terminated string starting at `pos`, terminator
/// excluded.
pub open spec fn cstring_bytes(data: Seq<u8>, pos: int) -> Seq<u8>
    recommends
        find_nul(data, pos) is Some,
{
    data.subrange(pos, find_nul(data, pos)->Some_0)
}

/// Relies on `String::from_utf8`: it returns the string whose UTF-8 encoding
/// the given bytes are, and refuses bytes that are not valid UTF-8.
#[verifier::external_body]
fn vec_to_string(bytes: Vec<u8>) -> (r: Option<String>)
    ensures
        r is Some <==> valid_utf8(bytes@),
        r matches Some(s) ==> s@ == decode_utf8(bytes@),
{
    String::from_utf8(bytes).ok()
}

/// Read the null-terminated UTF-8 string starting at `pos`. A missing
/// terminator is an I/O error; bytes that are not UTF-8 are a structured
/// error of their own.
pub fn read_string_utf8(data: &[u8], pos: usize) -> (r: Result<String, FlowDataError>)
    ensures
        match r {
            Ok(s) => {
                &&& find_nul(data@, pos as int) is Some
                &&& valid_utf8(cstring_bytes(data@, pos as int))
                &&& s@ == decode_utf8(cstring_bytes(data@, pos as int))
            },
            Err(e) => match e {
                FlowDataError::IOError => find_nul(data@, pos as int) is None,
                FlowDataError::InvalidUtf8 => {
                    &&& find_nul(data@, pos as int) is Some
                    &&& !valid_utf8(cstring_bytes(data@, pos as int))
                },
                _ => false,
            },
        },
{
    if pos >= data.len() {
        return Err(FlowDataError::IOError);
    }
    let mut result: Vec<u8> = Vec::new();
    let mut cur: usize = pos;
    loop
        invariant
            pos <= cur <= data@.len(),
            forall|k: int| pos <= k < cur ==> data@[k] != 0,
            find_nul(data@, pos as int) == find_nul(data@, cur as int),
            result@ == data@.subrange(pos as int, cur as int),
        decreases data@.len() - cur,
    {
        if cur >= data.len() {
            return Err(FlowDataError::IOError);
        }
        let b = data[cur];
        if b == 0 {
            assert(find_nul(data@, cur as int) == Some(cur as int));
            assert(cstring_bytes(data@, pos as int) == result@);
            return match vec_to_string(result) {
                Some(s) => Ok(s),
                None => Err(FlowDataError::InvalidUtf8),
            };
        }
        result.push(b);
        assert(data@.subrange(pos as int, cur + 1) == data@.subrange(pos as int, cur as int).push(
            data@[cur as int],
        ));
        cur = cur + 1;
    }
}

/// The two little-endian bytes of a 16-bit integer.
pub open spec fn u16_le_bytes(v: u16) -> Seq<u8> {
    seq![(v % 0x100) as u8, (v / 0x100) as u8]
}

/// The four little-endian bytes of a 32-bit integer.
pub open spec fn u32_le_bytes(v: u32) -> Seq<u8> {
    seq![
        (v % 0x100) as u8,
        ((v / 0x100) % 0x100) as u8,
        ((v / 0x10000) % 0x100) as u8,
        (v / 0x1000000) as u8,
    ]
}

/// Reading two bytes that were written little-endian gives the integer back.
pub proof fn lemma_u16_le_at_bytes(data: Seq<u8>, pos: int, v: u16)
    requires
        0 <= pos,
        pos + 2 <= data.len(),
        data.subrange(pos, pos + 2) == u16_le_bytes(v),
    ensures
        u16_le_at(data, pos) == v,
{
    assert(data[pos] == u16_le_bytes(v)[0]);
    assert(data[pos + 1] == u16_le_bytes(v)[1]);
}

/// Reading four bytes that were written little-endian gives the integer
/// back.
pub proof fn lemma_u32_le_at_bytes(data: Seq<u8>, pos: int, v: u32)
    requires
        0 <= pos,
        pos + 4 <= data.len(),
        data.subrange(pos, pos + 4) == u32_le_bytes(v),
    ensures
        u32_le_at(data, pos) == v,
{
    assert(data[pos] == u32_le_bytes(v)[0]);
    assert(data[pos + 1] == u32_le_bytes(v)[1]);
    assert(data[pos + 2] == u32_le_bytes(v)[2]);
    assert(data[pos + 3] == u32_le_bytes(v)[3]);
}

/// Integers read inside a preserved prefix read the same in the whole.
pub proof fn lemma_le_at_prefix(pre: Seq<u8>, whole: Seq<u8>)
    requires
        pre.len() <= whole.len(),
        whole.subrange(0, pre.len() as int) == pre,
    ensures
        forall|p: int|
            0 <= p && p + 4 <= pre.len() ==> #[trigger] u32_le_at(whole, p) == u32_le_at(pre, p),
        forall|p: int|
            0 <= p && p + 2 <= pre.len() ==> #[trigger] u16_le_at(whole, p) == u16_le_at(pre, p),
{
    assert forall|p: int|
        0 <= p && p + 4 <= pre.len() implies #[trigger] u32_le_at(whole, p) == u32_le_at(
        pre,
        p,
    ) by {
        assert(whole[p] == whole.subrange(0, pre.len() as int)[p]);
        assert(whole[p + 1] == whole.subrange(0, pre.len() as int)[p + 1]);
        assert(whole[p + 2] == whole.subrange(0, pre.len() as int)[p + 2]);
        assert(whole[p + 3] == whole.subrange(0, pre.len() as int)[p + 3]);
    }
    assert forall|p: int|
        0 <= p && p + 2 <= pre.len() implies #[trigger] u16_le_at(whole, p) == u16_le_at(
        pre,
        p,
    ) by {
        assert(whole[p] == whole.subrange(0, pre.len() as int)[p]);
        assert(whole[p + 1] == whole.subrange(0, pre.len() as int)[p + 1]);
    }
}

/// Every subrange inside a preserved prefix reads the same in the whole.
pub proof fn lemma_subrange_prefix(pre: Seq<u8>, whole: Seq<u8>)
    requires
        pre.len() <= whole.len(),
        whole.subrange(0, pre.len() as int) == pre,
    ensures
        forall|a: int, b: int|
            0 <= a <= b <= pre.len() ==> #[trigger] whole.subrange(a, b) == pre.subrange(a, b),
{
    assert forall|a: int, b: int|
        0 <= a <= b <= pre.len() implies #[trigger] whole.subrange(a, b) == pre.subrange(
        a,
        b,
    ) by {
        assert forall|p: int| a <= p < b implies whole[p] == pre[p] by {
            assert(whole.subrange(0, pre.len() as int)[p] == pre[p]);
        }
        assert(whole.subrange(a, b) =~= pre.subrange(a, b));
    }
}

/// Every subrange inside a block placed at `off` reads the same in the
/// whole.
pub proof fn lemma_subrange_at(pre: Seq<u8>, whole: Seq<u8>, off: int)
    requires
        0 <= off,
        off + pre.len() <= whole.len(),
        whole.subrange(off, off + pre.len() as int) == pre,
    ensures
        forall|a: int, b: int|
            0 <= a <= b <= pre.len() ==> #[trigger] whole.subrange(off + a, off + b)
                == pre.subrange(a, b),
{
    assert forall|a: int, b: int|
        0 <= a <= b <= pre.len() implies #[trigger] whole.subrange(off + a, off + b)
        == pre.subrange(a, b) by {
        assert forall|p: int| a <= p < b implies whole[off + p] == pre[p] by {
            assert(whole.subrange(off, off + pre.len() as int)[p] == pre[p]);
        }
        assert(whole.subrange(off + a, off + b) =~= pre.subrange(a, b));
    }
}

/// Append the two little-endian bytes of a 16-bit integer.
pub fn push_u16_le(out: &mut Vec<u8>, v: u16)
    ensures
        final(out)@ == old(out)@ + u16_le_bytes(v),
{
    out.push((v % 0x100) as u8);
    out.push((v / 0x100) as u8);
    assert(final(out)@ =~= old(out)@ + u16_le_bytes(v));
}

/// Append the four little-endian bytes of a 32-bit integer.
pub fn push_u32_le(out: &mut Vec<u8>, v: u32)
    ensures
        final(out)@ == old(out)@ + u32_le_bytes(v),
{
    out.push((v % 0x100) as u8);
    out.push(((v / 0x100) % 0x100) as u8);
    out.push(((v / 0x10000) % 0x100) as u8);
    out.push((v / 0x1000000) as u8);
    assert(final(out)@ =~= old(out)@ + u32_le_bytes(v));
}

/// Pad the byte store with zeros up to the next multiple of
/// `pad_indication_number`; a store already on the boundary is left alone.
pub fn add_padding(file: &mut Vec<u8>, pad_indication_number: u64)
    requires
        pad_indication_number > 0,
        old(file)@.len() + pad_indication_number <= u64::MAX,
    ensures
        (final(file)@.len() as int) % (pad_indication_number as int) == 0,
        final(file)@.len() - old(file)@.len() < pad_indication_number,
        final(file)@.subrange(0, old(file)@.len() as int) == old(file)@,
        forall|k: int|
            old(file)@.len() <= k < final(file)@.len() ==> #[trigger] final(file)@[k] == 0,
{
    let len = file.len() as u64;
    let rem = len % pad_indication_number;
    if rem == 0 {
        return;
    }
    let need = pad_indication_number - rem;
    let mut i: u64 = 0;
    while i < need
        invariant
            i <= need,
            need == pad_indication_number - rem,
            rem == (old(file)@.len() as u64) % pad_indication_number,
            0 < rem < pad_indication_number,
            pad_indication_number > 0,
            file@.len() == old(file)@.len() + i,
            file@.subrange(0, old(file)@.len() as int) == old(file)@,
            forall|k: int| old(file)@.len() <= k < file@.len() ==> #[trigger] file@[k] == 0,
        decreases need - i,
    {
        let ghost pre = file@;
        file.push(0);
        proof {
            assert(file@.subrange(0, old(file)@.len() as int) =~= pre.subrange(
                0,
                old(file)@.len() as int,
            ));
        }
        i = i + 1;
    }
    proof {
        let p = pad_indication_number as int;
        let n = old(file)@.len() as int;
        assert((n + (p - n % p)) % p == 0) by (nonlinear_arith)
            requires
                p > 0,
        ;
    }
}

/// The continuation bytes that carry the high 7-bit groups of a delta:
/// most significant group first, each with the high bit set.
pub open spec fn footer_cont_bytes(x: u32) -> Seq<u8>
    decreases x,
{
    if x == 0 {
        Seq::empty()
    } else {
        footer_cont_bytes(x / 128) + seq![(x % 128 + 128) as u8]
    }
}

/// The bytes that encode one delta: its 7-bit groups, most significant group
/// first, the high bit set on every byte but the last. A zero delta is the
/// single byte 0.
pub open spec fn footer_delta_bytes(delta: u32) -> Seq<u8> {
    footer_cont_bytes(delta / 128) + seq![(delta % 128) as u8]
}

/// The whole relocation footer for `list`, deltas taken against `prev`.
pub open spec fn footer_bytes_from(list: Seq<u32>, prev: u32) -> Seq<u8>
    recommends
        ascending_from(list, prev),
    decreases list.len(),
{
    if list.len() == 0 {
        Seq::empty()
    } else {
        footer_delta_bytes((list[0] - prev) as u32) + footer_bytes_from(list.skip(1), list[0])
    }
}

/// The relocation footer for a list of absolute offsets, as this library
/// writes it.
pub open spec fn footer_bytes(list: Seq<u32>) -> Seq<u8> {
    footer_bytes_from(list, 0)
}

/// Every element is at least `prev`, and the list never decreases.
pub open spec fn ascending_from(list: Seq<u32>, prev: u32) -> bool {
    forall|i: int|
        0 <= i < list.len() ==> (if i == 0 {
            prev as int
        } else {
            list[i - 1] as int
        }) <= #[trigger] list[i]
}

/// The list never decreases (its first element may be anything, deltas being
/// taken against 0).
pub open spec fn ascending(list: Seq<u32>) -> bool {
    ascending_from(list, 0)
}

/// Append the continuation bytes of `x` to `file`.
fn emit_footer_cont(file: &mut Vec<u8>, x: u32)
    ensures
        final(file)@ == old(file)@ + footer_cont_bytes(x),
    decreases x,
{
    if x == 0 {
        assert(final(file)@ =~= old(file)@ + footer_cont_bytes(0));
    } else {
        emit_footer_cont(file, x / 128);
        file.push((x % 128 + 128) as u8);
        assert(final(file)@ =~= old(file)@ + footer_cont_bytes(x));
    }
}

/// Append the encoding of one delta to `file`.
fn emit_footer_delta(file: &mut Vec<u8>, delta: u32)
    ensures
        final(file)@ == old(file)@ + footer_delta_bytes(delta),
{
    emit_footer_cont(file, delta / 128);
    file.push((delta % 128) as u8);
    assert(final(file)@ =~= old(file)@ + footer_delta_bytes(delta));
}

/// Append the relocation footer for the ascending offset list `dic` to
/// `file`: per offset, the delta against the previous offset as base-128
/// groups, most significant group first, the high bit marking continuation;
/// a zero delta is a single zero byte.
#[verifier::rlimit(100)]
pub fn write_sir0_footer(file: &mut Vec<u8>, dic: &Vec<u32>)
    requires
        ascending(dic@),
    ensures
        final(file)@ == old(file)@ + footer_bytes(dic@),
{
    let mut latest: u32 = 0;
    let mut i: usize = 0;
    while i < dic.len()
        invariant
            ascending(dic@),
            i <= dic@.len(),
            latest == (if i == 0 {
                0u32
            } else {
                dic@[i - 1]
            }),
            file@ == old(file)@ + footer_bytes(dic@.take(i as int)),
        decreases dic@.len() - i,
    {
        let current = dic[i];
        assert(latest <= current);
        let delta = current - latest;
        emit_footer_delta(file, delta);
        proof {
            assert(dic@.take(i + 1).drop_last() =~= dic@.take(i as int));
            lemma_footer_bytes_push(dic@.take(i as int), 0, current);
            assert(dic@.take(i + 1) =~= dic@.take(i as int).push(current));
            assert(file@ =~= old(file)@ + footer_bytes(dic@.take(i + 1)));
        }
        latest = current;
        i = i + 1;
    }
    assert(dic@.take(dic@.len() as int) =~= dic@);
}

/// The relocation footer as `pmd_sir0` writes it: the same delta encoding,
/// but a zero delta contributes no byte at all.
pub open spec fn footer_bytes_skip_from(list: Seq<u32>, prev: u32) -> Seq<u8>
    recommends
        ascending_from(list, prev),
    decreases list.len(),
{
    if list.len() == 0 {
        Seq::empty()
    } else if list[0] == prev {
        footer_bytes_skip_from(list.skip(1), list[0])
    } else {
        footer_delta_bytes((list[0] - prev) as u32) + footer_bytes_skip_from(list.skip(1), list[0])
    }
}

/// The relocation footer for a list of absolute offsets, zero deltas
/// omitted.
pub open spec fn footer_bytes_skip(list: Seq<u32>) -> Seq<u8> {
    footer_bytes_skip_from(list, 0)
}

/// A non-decreasing list stays non-decreasing when an element at least as
/// large as its last is appended.
pub proof fn lemma_ascending_push(s: Seq<u32>, x: u32)
    requires
        ascending(s),
        s.len() > 0 ==> s.last() <= x,
    ensures
        ascending(s.push(x)),
{
    assert forall|i: int|
        0 < i < s.push(x).len() implies s.push(x)[i - 1] <= #[trigger] s.push(x)[i] by {
        if i < s.len() {
            assert(s[i - 1] <= s[i]);
        }
    }
}

/// One step of footer decoding: `acc` is the value of the 7-bit groups read
/// so far of the current delta, `mid` says whether a delta is half-read,
/// `prev` is the last offset produced. `None` on a half-read delta at the end
/// of the data or on a value that exceeds the 32-bit range.
pub open spec fn footer_decode_go(
    data: Seq<u8>,
    i: int,
    acc: int,
    mid: bool,
    prev: int,
    out: Seq<u32>,
) -> Option<Seq<u32>>
    decreases data.len() - i,
{
    if i < 0 || i >= data.len() {
        if mid {
            None
        } else {
            Some(out)
        }
    } else {
        let b = data[i] as int;
        let acc2 = acc * 128 + (b % 128);
        if b >= 128 {
            if acc2 > u32::MAX {
                None
            } else {
                footer_decode_go(data, i + 1, acc2, true, prev, out)
            }
        } else {
            if prev + acc2 > u32::MAX {
                None
            } else {
                footer_decode_go(data, i + 1, 0, false, prev + acc2, out.push((prev + acc2) as u32))
            }
        }
    }
}

/// The offset list a relocation footer stands for, if it is well formed.
pub open spec fn footer_decode(data: Seq<u8>) -> Option<Seq<u32>> {
    footer_decode_go(data, 0, 0, false, 0, Seq::empty())
}

/// Decode a relocation footer back into the absolute offsets it points at:
/// the inverse of [`write_sir0_footer`]. Fails when the data ends in the
/// middle of a delta or when an offset exceeds the 32-bit range.
pub fn read_sir0_footer(data: &[u8]) -> (r: Result<Vec<u32>, FlowDataError>)
    ensures
        match r {
            Ok(v) => footer_decode(data@) == Some(v@),
            Err(e) => footer_decode(data@) is None && (e is TryFromIntError || e is IOError),
        },
{
    let mut out: Vec<u32> = Vec::new();
    let mut acc: u32 = 0;
    let mut mid: bool = false;
    let mut prev: u32 = 0;
    let mut i: usize = 0;
    while i < data.len()
        invariant
            i <= data@.len(),
            footer_decode(data@) == footer_decode_go(
                data@,
                i as int,
                acc as int,
                mid,
                prev as int,
                out@,
            ),
        decreases data@.len() - i,
    {
        let b = data[i];
        let payload = (b % 128) as u32;
        proof {
            lemma_group_overflow(acc as int, payload as int);
        }
        if acc > (u32::MAX - payload) / 128 {
            return Err(FlowDataError::TryFromIntError);
        }
        let acc2 = acc * 128 + payload;
        if b >= 128 {
            acc = acc2;
            mid = true;
        } else {
            if prev > u32::MAX - acc2 {
                return Err(FlowDataError::TryFromIntError);
            }
            prev = prev + acc2;
            out.push(prev);
            acc = 0;
            mid = false;
        }
        i = i + 1;
    }
    if mid {
        return Err(FlowDataError::IOError);
    }
    Ok(out)
}

/// The overflow test the decoder runs before widening the accumulator agrees
/// with the mathematical bound.
proof fn lemma_group_overflow(acc: int, payload: int)
    requires
        0 <= acc,
        0 <= payload < 128,
    ensures
        (acc > (u32::MAX - payload) / 128) <==> (acc * 128 + payload > u32::MAX),
{
    assert((acc > (u32::MAX - payload) / 128) <==> (acc * 128 + payload > u32::MAX))
        by (nonlinear_arith)
        requires
            0 <= acc,
            0 <= payload < 128,
    ;
}

/// Appending one offset to a footer's list appends exactly the encoding of
/// its delta against the list's last offset.
proof fn lemma_footer_bytes_push(list: Seq<u32>, prev: u32, x: u32)
    ensures
        footer_bytes_from(list.push(x), prev) == footer_bytes_from(list, prev)
            + footer_delta_bytes(
            (x - (if list.len() == 0 {
                prev
            } else {
                list.last()
            })) as u32,
        ),
    decreases list.len(),
{
    if list.len() == 0 {
        assert(list.push(x).skip(1) =~= Seq::<u32>::empty());
        assert(list.push(x)[0] == x);
        assert(footer_bytes_from(list.push(x), prev) == footer_delta_bytes((x - prev) as u32)
            + footer_bytes_from(list.push(x).skip(1), x));
        assert(footer_bytes_from(list.push(x).skip(1), x) == Seq::<u8>::empty());
        assert(footer_bytes_from(list, prev) == Seq::<u8>::empty());
        assert(footer_bytes_from(list.push(x), prev) =~= footer_bytes_from(list, prev)
            + footer_delta_bytes((x - prev) as u32));
    } else {
        assert(list.push(x).skip(1) =~= list.skip(1).push(x));
        assert(list.push(x)[0] == list[0]);
        assert(footer_bytes_from(list.push(x), prev) == footer_delta_bytes(
            (list[0] - prev) as u32,
        ) + footer_bytes_from(list.skip(1).push(x), list[0]));
        lemma_footer_bytes_push(list.skip(1), list[0], x);
        assert(list.skip(1).len() == 0 ==> list.last() == list[0]);
        assert(list.skip(1).len() > 0 ==> list.skip(1).last() == list.last());
        let d = (x - list.last()) as u32;
        assert(footer_bytes_from(list.skip(1).push(x), list[0]) == footer_bytes_from(
            list.skip(1),
            list[0],
        ) + footer_delta_bytes(d));
        assert(footer_bytes_from(list, prev) == footer_delta_bytes((list[0] - prev) as u32)
            + footer_bytes_from(list.skip(1), list[0]));
        assert(footer_bytes_from(list.push(x), prev) =~= footer_bytes_from(list, prev)
            + footer_delta_bytes(d));
    }
}

/// 128 to the power `k`.
pub open spec fn pow128(k: nat) -> int
    decreases k,
{
    if k == 0 {
        1
    } else {
        128 * pow128((k - 1) as nat)
    }
}

/// Powers of 128 are positive.
proof fn lemma_pow128_pos(k: nat)
    ensures
        0 < pow128(k),
    decreases k,
{
    if k > 0 {
        lemma_pow128_pos((k - 1) as nat);
    }
}

/// Reading the continuation bytes of `x` folds `x` into the accumulator,
/// shifted under whatever the accumulator already held.
proof fn lemma_decode_cont(data: Seq<u8>, i: int, x: u32, acc: int, mid: bool, prev: int, out: Seq<
    u32,
>)
    requires
        0 <= i,
        i + footer_cont_bytes(x).len() <= data.len(),
        data.subrange(i, i + footer_cont_bytes(x).len() as int) == footer_cont_bytes(x),
        0 <= acc,
        acc * pow128(footer_cont_bytes(x).len() as nat) + x <= u32::MAX,
    ensures
        footer_decode_go(data, i, acc, mid, prev, out) == footer_decode_go(
            data,
            i + footer_cont_bytes(x).len(),
            acc * pow128(footer_cont_bytes(x).len() as nat) + x,
            if x == 0 {
                mid
            } else {
                true
            },
            prev,
            out,
        ),
    decreases x,
{
    if x == 0 {
        assert(footer_cont_bytes(0u32).len() == 0);
    } else {
        let head = footer_cont_bytes(x / 128);
        let k = head.len() as int;
        assert(footer_cont_bytes(x) == head + seq![(x % 128 + 128) as u8]);
        let n = k + 1;
        assert(footer_cont_bytes(x).len() == n);
        assert(pow128(n as nat) == 128 * pow128(k as nat));
        assert(data.subrange(i, i + k) =~= head) by {
            assert forall|j: int| 0 <= j < k implies data.subrange(i, i + k)[j] == head[j] by {
                assert(data.subrange(i, i + n)[j] == footer_cont_bytes(x)[j]);
            }
        }
        lemma_pow128_pos(k as nat);
        let acck = acc * pow128(k as nat) + (x / 128);
        assert(acck * 128 + (x % 128) == acc * pow128(n as nat) + x) by (nonlinear_arith)
            requires
                acck == acc * pow128(k as nat) + (x / 128),
                pow128(n as nat) == 128 * pow128(k as nat),
                x >= 0,
        ;
        assert(0 <= acck) by (nonlinear_arith)
            requires
                0 <= acc,
                0 < pow128(k as nat),
                acck == acc * pow128(k as nat) + (x / 128),
                x >= 0,
        ;
        assert(acc * pow128(n as nat) + x <= u32::MAX);
        assert(acck * 128 + (x % 128) <= u32::MAX);
        assert(acck <= u32::MAX) by (nonlinear_arith)
            requires
                0 <= acck,
                0 <= x % 128,
                acck * 128 + (x % 128) <= u32::MAX,
        ;
        lemma_decode_cont(data, i, x / 128, acc, mid, prev, out);
        let b = data[i + k] as int;
        assert(b == footer_cont_bytes(x)[k] as int);
        assert(b == (x % 128 + 128));
        assert(b % 128 == x % 128);
        assert(b >= 128);
        assert(footer_decode_go(data, i + k, acck, if x / 128 == 0 {
            mid
        } else {
            true
        }, prev, out) == footer_decode_go(data, i + n, acck * 128 + (b % 128), true, prev, out));
    }
}

/// Reading the encoding of one delta yields exactly one new offset,
/// `prev + delta`.
proof fn lemma_decode_delta(data: Seq<u8>, i: int, delta: u32, prev: int, out: Seq<u32>)
    requires
        0 <= i,
        i + footer_delta_bytes(delta).len() <= data.len(),
        data.subrange(i, i + footer_delta_bytes(delta).len() as int) == footer_delta_bytes(delta),
        0 <= prev,
        prev + delta <= u32::MAX,
    ensures
        footer_decode_go(data, i, 0, false, prev, out) == footer_decode_go(
            data,
            i + footer_delta_bytes(delta).len(),
            0,
            false,
            prev + delta,
            out.push((prev + delta) as u32),
        ),
{
    let head = footer_cont_bytes(delta / 128);
    let k = head.len() as int;
    assert(footer_delta_bytes(delta) == head + seq![(delta % 128) as u8]);
    let n = k + 1;
    assert(data.subrange(i, i + k) =~= head) by {
        assert forall|j: int| 0 <= j < k implies data.subrange(i, i + k)[j] == head[j] by {
            assert(data.subrange(i, i + n)[j] == footer_delta_bytes(delta)[j]);
        }
    }
    assert(0 * pow128(k as nat) + (delta / 128) == delta / 128);
    lemma_decode_cont(data, i, delta / 128, 0, false, prev, out);
    let b = data[i + k] as int;
    assert(b == footer_delta_bytes(delta)[k] as int);
    assert(b == delta % 128);
    assert(b < 128);
    assert((delta / 128) * 128 + delta % 128 == delta);
}

/// Reading a whole footer written against `prev` appends exactly its offset
/// list.
proof fn lemma_decode_footer_from(data: Seq<u8>, i: int, prev: u32, out: Seq<u32>, list: Seq<u32>)
    requires
        0 <= i <= data.len(),
        data.subrange(i, data.len() as int) == footer_bytes_from(list, prev),
        ascending_from(list, prev),
    ensures
        footer_decode_go(data, i, 0, false, prev as int, out) == Some(out + list),
    decreases list.len(),
{
    if list.len() == 0 {
        assert(i == data.len());
        assert(out + list =~= out);
    } else {
        let delta = (list[0] - prev) as u32;
        let db = footer_delta_bytes(delta);
        let dlen = db.len() as int;
        let rest = footer_bytes_from(list.skip(1), list[0]);
        assert(footer_bytes_from(list, prev) == db + rest);
        assert(data.len() - i == db.len() + rest.len());
        assert(data.subrange(i, i + dlen) =~= db) by {
            assert forall|j: int| 0 <= j < dlen implies data.subrange(i, i + dlen)[j] == db[j] by {
                assert(data.subrange(i, data.len() as int)[j] == (db + rest)[j]);
            }
        }
        assert(data.subrange(i + dlen, data.len() as int) =~= rest) by {
            assert forall|j: int|
                0 <= j < rest.len() implies data.subrange(i + dlen, data.len() as int)[j]
                == rest[j] by {
                assert(data.subrange(i, data.len() as int)[dlen + j] == (db + rest)[dlen + j]);
            }
        }
        lemma_decode_delta(data, i, delta, prev as int, out);
        assert(prev + delta == list[0]);
        assert(ascending_from(list.skip(1), list[0])) by {
            assert forall|j: int|
                0 <= j < list.skip(1).len() implies (if j == 0 {
                list[0] as int
            } else {
                list.skip(1)[j - 1] as int
            }) <= #[trigger] list.skip(1)[j] by {
                assert(list.skip(1)[j] == list[j + 1]);
            }
        }
        lemma_decode_footer_from(data, i + dlen, list[0], out.push(list[0]), list.skip(1));
        assert(out.push(list[0]) + list.skip(1) =~= out + list);
    }
}

/// The relocation-footer codec round-trips: decoding the footer written for
/// any non-decreasing list of absolute offsets yields that list again.
pub proof fn lemma_footer_round_trip(list: Seq<u32>)
    requires
        ascending(list),
    ensures
        footer_decode(footer_bytes(list)) == Some(list),
{
    let data = footer_bytes(list);
    assert(data.subrange(0, data.len() as int) =~= data);
    lemma_decode_footer_from(data, 0, 0, Seq::empty(), list);
    assert(Seq::empty() + list =~= list);
}

} // verus!
