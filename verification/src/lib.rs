//! A binary-to-text codec that packs 15 bits of payload into each encoded
//! character. Input bytes are resliced into 15-bit groups; each group is
//! mapped to one Unicode codepoint through a per-tier lookup table. A
//! partial final group is padded with set bits, and the tier of its
//! character records how much padding was added, so decoding recovers the
//! original bytes exactly.
use vstd::prelude::*;
use vstd::arithmetic::power2::pow2;
use vstd::string::StrSliceExecFns;

pub mod bits_to_bits;
pub mod data;
pub mod errors;
pub mod tables;

use crate::bits_to_bits::ResizedByte;
use crate::bits_to_bits::stream_bits;
use crate::bits_to_bits::regroup_bits;
use crate::bits_to_bits::val_bits;
use crate::bits_to_bits::bits_val;
use crate::bits_to_bits::group_bits;
use crate::bits_to_bits::resize_bytes_ex;
use crate::data::cp_of;
use crate::data::classify_cp;
use crate::data::spec_tier_size;
use crate::errors::ErrorKind;
use crate::errors::Base32768Error;
use crate::tables::LookupTables;

verus! {

/// Number of payload bits carried by one encoded character.
pub const POINT_LEN: usize = 15;

/// The bits of a byte sequence, most significant bit of each byte first.
pub open spec fn byte_stream(bytes: Seq<u8>) -> Seq<bool> {
    stream_bits(bytes.map_values(|b: u8| b as u16), 8, 8)
}

/// A run of `p` set bits, used as self-describing padding.
pub open spec fn ones(p: nat) -> Seq<bool> {
    Seq::new(p, |k: int| true)
}

/// The padded value and repertoire tier of the final group: its bits are
/// shifted up and the gap filled with set bits until the width reaches 15
/// or 7, and the tier records how many whole bytes of padding follow.
pub open spec fn pad_final(g: ResizedByte) -> (u16, nat) {
    let r = g.bits as int;
    let p = (15 - r) % 8;
    let v = (g.bytes as int) * pow2(p as nat) + pow2(p as nat) - 1;
    (v as u16, ((15 - (r + p)) / 8) as nat)
}

/// The character that encodes value `v` of the given tier.
pub open spec fn char_for(tier: nat, v: nat) -> char {
    (cp_of(tier, v) as u32) as char
}

/// The text that encoding a byte sequence produces: one character per
/// 15-bit group, the final one padded and drawn from its padding tier.
pub open spec fn encode_spec(bytes: Seq<u8>) -> Seq<char> {
    let gs = regroup_bits(byte_stream(bytes), 15);
    Seq::new(
        gs.len(),
        |i: int|
            {
                if i < gs.len() - 1 {
                    char_for(0, gs[i].bytes as nat)
                } else {
                    let vt = pad_final(gs[i]);
                    char_for(vt.1, vt.0 as nat)
                }
            },
    )
}

/// Classifying one character of the input text: the value and tier it
/// decodes to, or the error it raises. A padding-tier character is only
/// accepted in the final position.
pub open spec fn classify_char(c: char, is_last: bool) -> Result<(u16, nat), ErrorKind> {
    if c as u32 >= 0x10000 {
        Err(ErrorKind::InvalidCharacterWidth)
    } else {
        match classify_cp(c as u32 as nat) {
            Option::None => Err(ErrorKind::InvalidCharacter),
            Option::Some(tv) => {
                if tv.0 >= 1 && !is_last {
                    Err(ErrorKind::MisplacedPadding)
                } else {
                    Ok((tv.1, tv.0))
                }
            },
        }
    }
}

/// Scanning the first `n` characters of a text left to right, collecting
/// each one's value and tier, and stopping at the first error.
pub open spec fn scan_prefix(text: Seq<char>, n: int) -> Result<Seq<(u16, nat)>, ErrorKind>
    decreases n,
{
    if n <= 0 {
        Ok(Seq::empty())
    } else {
        match scan_prefix(text, n - 1) {
            Err(k) => Err(k),
            Ok(ps) => match classify_char(text[n - 1], n == text.len()) {
                Err(k) => Err(k),
                Ok(p) => Ok(ps.push(p)),
            },
        }
    }
}

/// The bytes recovered from regrouped 8-bit groups: every full group in
/// order; a trailing short group carries only padding and is dropped.
pub open spec fn bytes_of_groups(gs: Seq<ResizedByte>) -> Seq<u8>
    decreases gs.len(),
{
    if gs.len() == 0 {
        Seq::empty()
    } else {
        bytes_of_groups(gs.drop_last()) + if gs.last().bits == 8 {
            seq![gs.last().bytes as u8]
        } else {
            Seq::<u8>::empty()
        }
    }
}

/// The bytes a text decodes to, or the error decoding raises: the
/// characters' values are resliced back into bytes, with the final value
/// contributing only the bits that were not padding.
pub open spec fn decode_spec(text: Seq<char>) -> Result<Seq<u8>, ErrorKind> {
    match scan_prefix(text, text.len() as int) {
        Err(k) => Err(k),
        Ok(ps) => {
            let vals = ps.map_values(|p: (u16, nat)| p.0);
            let lw: nat = if ps.len() == 0 {
                15nat
            } else {
                (15 - 8 * ps.last().1) as nat
            };
            Ok(bytes_of_groups(regroup_bits(stream_bits(vals, 15, lw), 8)))
        },
    }
}

/// Relies on String::push: it appends exactly the one character.
pub assume_specification[ String::push ](s: &mut String, c: char)
    ensures
        final(s)@ == old(s)@.push(c),
;

/// A run of set bits carries the largest value of its width.
proof fn lemma_ones_val(p: nat)
    ensures
        bits_val(ones(p)) == pow2(p) - 1,
    decreases p,
{
    vstd::arithmetic::power2::lemma_pow2_pos(p);
    if p == 0 {
        vstd::arithmetic::power2::lemma2_to64();
        assert(ones(0) =~= Seq::<bool>::empty());
    } else {
        assert(ones(p).drop_last() =~= ones((p - 1) as nat));
        assert(ones(p).last());
        lemma_ones_val((p - 1) as nat);
        vstd::arithmetic::power2::lemma_pow2_unfold(p);
    }
}

/// Padding a value: the padded value's low bits are the group's bits
/// followed by `p` set bits, and the result needs only `p` more bits.
proof fn lemma_pad_bits(a: u16, r: nat, p: nat)
    requires
        r <= 15,
        p <= 7,
        r + p <= 15,
        (a as nat) < pow2(r),
    ensures
        (a as nat) * pow2(p) + pow2(p) - 1 < pow2((r + p) as nat),
        val_bits(((a as nat) * pow2(p) + pow2(p) - 1) as u16, (r + p) as nat) == val_bits(a, r)
            + ones(p),
{
    let rhs = val_bits(a, r) + ones(p);
    lemma_ones_val(p);
    crate::bits_to_bits::lemma_val_bits_val(a, r);
    vstd::arithmetic::div_mod::lemma_small_mod(a as nat, pow2(r));
    crate::bits_to_bits::lemma_bits_val_concat(val_bits(a, r), ones(p));
    vstd::arithmetic::power2::lemma_pow2_adds(r, p);
    vstd::arithmetic::power2::lemma_pow2_pos(p);
    assert((a as nat) * pow2(p) + pow2(p) - 1 < pow2(r) * pow2(p)) by (nonlinear_arith)
        requires
            (a as nat) < pow2(r),
            pow2(p) >= 1,
    ;
    assert(bits_val(rhs) == (a as nat) * pow2(p) + pow2(p) - 1);
    assert(rhs.len() == r + p);
    crate::bits_to_bits::lemma_val_bits_of_bits_val(rhs);
}

/// Encodes the bytes using already-built lookup tables.
pub fn encode_with_tables(tables: &LookupTables, buf: &[u8]) -> (r: Result<
    String,
    Base32768Error,
>)
    requires
        tables.wf(),
    ensures
        r is Ok,
        r->Ok_0@ == encode_spec(buf@),
{
    let mut wide: Vec<u16> = Vec::new();
    let mut i: usize = 0;
    while i < buf.len()
        invariant
            i <= buf@.len(),
            wide@.len() == i,
            forall|k: int| 0 <= k < i ==> (#[trigger] wide@[k]) == buf@[k] as u16,
        decreases buf@.len() - i,
    {
        wide.push(buf[i] as u16);
        i += 1;
    }
    proof {
        assert(wide@ =~= buf@.map_values(|b: u8| b as u16));
    }
    let groups = resize_bytes_ex(wide.as_slice(), 8, POINT_LEN, 8);
    let ghost gs = regroup_bits(byte_stream(buf@), 15);
    let ghost text = encode_spec(buf@);
    proof {
        crate::bits_to_bits::lemma_regroup_props(byte_stream(buf@), 15);
        vstd::arithmetic::power2::lemma2_to64();
    }
    let mut out = String::new();
    let mut gi: usize = 0;
    while gi < groups.len()
        invariant
            tables.wf(),
            groups@ == gs,
            gs == regroup_bits(byte_stream(buf@), 15),
            text == encode_spec(buf@),
            text.len() == gs.len(),
            gi <= gs.len(),
            out@ == text.take(gi as int),
        decreases gs.len() - gi,
    {
        let g = groups[gi];
        proof {
            crate::bits_to_bits::lemma_regroup_props(byte_stream(buf@), 15);
            vstd::arithmetic::power2::lemma2_to64();
        }
        let v: u16;
        let tier: usize;
        if gi + 1 < groups.len() {
            if g.bits != POINT_LEN {
                return Err(Base32768Error::of_kind(ErrorKind::PartialGroupMidStream));
            }
            v = g.bytes;
            tier = 0;
            proof {
                assert((v, tier as nat) == (gs[gi as int].bytes, 0nat));
            }
        } else {
            let p: usize = (15 - g.bits) % 8;
            let mul: u16 = 1u16 << (p as u16);
            proof {
                vstd::bits::lemma_u16_shl_is_mul(1u16, p as u16);
                assert(mul as nat == pow2(p as nat));
                lemma_pad_bits(g.bytes, g.bits as nat, p as nat);
            }
            v = g.bytes * mul + (mul - 1);
            tier = (15 - (g.bits + p)) / 8;
            proof {
                assert(g.bits + p == 15 || g.bits + p == 7);
                assert(tier == pad_final(g).1);
                assert(v == pad_final(g).0);
                assert((v as nat) < pow2((g.bits + p) as nat));
            }
        }
        proof {
            assert(tier < 2);
            assert((v as nat) < spec_tier_size(tier as nat));
        }
        let rep = &tables.repertoires[tier];
        if (v as usize) >= rep.forward.len() {
            return Err(Base32768Error::of_kind(ErrorKind::UnencodableValue));
        }
        let cp = rep.forward[v as usize];
        proof {
            crate::data::lemma_cp_of_range(tier as nat, v as nat);
            assert(cp as nat == cp_of(tier as nat, v as nat));
            assert(cp < 0xD800);
        }
        let c = match char::from_u32(cp as u32) {
            Some(c) => c,
            None => {
                return Err(Base32768Error::of_kind(ErrorKind::UnencodableValue));
            },
        };
        proof {
            vstd::utf8::char_u32_cast(c, cp as u32);
            assert(c == char_for(tier as nat, v as nat));
            assert(text[gi as int] == c);
            assert(text.take(gi + 1) =~= text.take(gi as int).push(c));
        }
        out.push(c);
        gi += 1;
    }
    proof {
        assert(text.take(gs.len() as int) =~= text);
    }
    Ok(out)
}

/// Encodes a slice of binary data into a text string. Every byte sequence
/// encodes successfully; the result is pinned down exactly by
/// `encode_spec`.
pub fn encode(buf: &[u8]) -> (r: Result<String, Base32768Error>)
    ensures
        r is Ok,
        r->Ok_0@ == encode_spec(buf@),
{
    let tables = LookupTables::new();
    encode_with_tables(&tables, buf)
}

/// A scan error in a prefix persists through the rest of the scan.
proof fn lemma_scan_err_persists(text: Seq<char>, n: int, m: int)
    requires
        scan_prefix(text, n) is Err,
        n <= m,
    ensures
        scan_prefix(text, m) == scan_prefix(text, n),
    decreases m - n,
{
    if m > n {
        lemma_scan_err_persists(text, n, m - 1);
    }
}

/// What a successful scan guarantees: one pair per character, every tier
/// below the tier count, padding tiers only at the final position, and
/// every value within its tier's table.
proof fn lemma_scan_props(text: Seq<char>, n: int)
    requires
        0 <= n <= text.len(),
        scan_prefix(text, n) is Ok,
    ensures
        ({
            let ps = scan_prefix(text, n)->Ok_0;
            &&& ps.len() == n
            &&& forall|j: int|
                0 <= j < n ==> ((#[trigger] ps[j]).1 < 2 && (ps[j].0 as nat) < spec_tier_size(
                    ps[j].1,
                ))
            &&& forall|j: int| 0 <= j < n && j < text.len() - 1 ==> (#[trigger] ps[j]).1 == 0
            &&& forall|j: int|
                0 <= j < n ==> classify_char(#[trigger] text[j], j == text.len() - 1) == Result::<
                    (u16, nat),
                    ErrorKind,
                >::Ok(ps[j])
        }),
    decreases n,
{
    if n > 0 {
        lemma_scan_props(text, n - 1);
        let c = text[n - 1];
        if (c as u32) < 0x10000 && classify_cp(c as u32 as nat) is Some {
            crate::data::lemma_cp_of_classify(c as u32 as nat);
        }
        let ps = scan_prefix(text, n)->Ok_0;
        let prev = scan_prefix(text, n - 1)->Ok_0;
        assert(ps == prev.push(classify_char(text[n - 1], n == text.len())->Ok_0));
        assert(forall|j: int| 0 <= j < n - 1 ==> ps[j] == prev[j]);
    }
}

/// Decodes the text using already-built lookup tables, appending the
/// recovered bytes to `out_vec`. On an error nothing is appended.
pub fn decode_with_tables(tables: &LookupTables, in_str: &str, out_vec: &mut Vec<u8>) -> (r:
    Result<(), Base32768Error>)
    requires
        tables.wf(),
    ensures
        match decode_spec(in_str@) {
            Ok(bs) => r is Ok && final(out_vec)@ == old(out_vec)@ + bs,
            Err(k) => r is Err && r->Err_0.kind == k && final(out_vec)@ == old(out_vec)@,
        },
{
    let ghost text = in_str@;
    let n = in_str.unicode_len();
    let mut vals: Vec<u16> = Vec::new();
    let mut last_bits: usize = 15;
    let mut i: usize = 0;
    while i < n
        invariant
            tables.wf(),
            text == in_str@,
            n == text.len(),
            i <= n,
            scan_prefix(text, i as int) is Ok,
            vals@ == scan_prefix(text, i as int)->Ok_0.map_values(|p: (u16, nat)| p.0),
            vals@.len() == i,
            last_bits as int == 15 - 8 * (if i == 0 {
                0int
            } else {
                scan_prefix(text, i as int)->Ok_0.last().1 as int
            }),
            out_vec@ == old(out_vec)@,
        decreases n - i,
    {
        let ghost prev = scan_prefix(text, i as int)->Ok_0;
        proof {
            lemma_scan_props(text, i as int);
        }
        let c = in_str.get_char(i);
        let cp32 = c as u32;
        if cp32 >= 0x10000 {
            proof {
                assert(scan_prefix(text, i + 1) == Result::<Seq<(u16, nat)>, ErrorKind>::Err(
                    ErrorKind::InvalidCharacterWidth,
                ));
                lemma_scan_err_persists(text, i + 1, n as int);
            }
            return Err(Base32768Error::of_kind(ErrorKind::InvalidCharacterWidth));
        }
        let cp = cp32 as usize;
        let k0 = tables.repertoires[0].reverse[cp];
        let k1 = tables.repertoires[1].reverse[cp];
        proof {
            assert(k0 == crate::tables::spec_reverse_entry(0, cp as nat));
            assert(k1 == crate::tables::spec_reverse_entry(1, cp as nat));
            if classify_cp(cp as nat) is Some {
                crate::data::lemma_cp_of_classify(cp as nat);
            }
        }
        if k0 != crate::tables::NO_VALUE {
            proof {
                assert(classify_cp(cp as nat) == Some((0nat, k0)));
                assert(classify_char(c, i + 1 == n) == Result::<(u16, nat), ErrorKind>::Ok(
                    (k0, 0nat),
                ));
                assert(scan_prefix(text, i + 1)->Ok_0 == prev.push((k0, 0nat)));
                assert(scan_prefix(text, i + 1)->Ok_0.map_values(|p: (u16, nat)| p.0)
                    =~= prev.map_values(|p: (u16, nat)| p.0).push(k0));
            }
            vals.push(k0);
        } else if k1 != crate::tables::NO_VALUE {
            proof {
                assert(classify_cp(cp as nat) == Some((1nat, k1)));
            }
            if i + 1 != n {
                proof {
                    assert(classify_char(c, false) == Result::<(u16, nat), ErrorKind>::Err(
                        ErrorKind::MisplacedPadding,
                    ));
                    assert(scan_prefix(text, i + 1) == Result::<Seq<(u16, nat)>, ErrorKind>::Err(
                        ErrorKind::MisplacedPadding,
                    ));
                    lemma_scan_err_persists(text, i + 1, n as int);
                }
                return Err(Base32768Error::of_kind(ErrorKind::MisplacedPadding));
            }
            proof {
                assert(classify_char(c, true) == Result::<(u16, nat), ErrorKind>::Ok((k1, 1nat)));
                assert(scan_prefix(text, i + 1)->Ok_0 == prev.push((k1, 1nat)));
                assert(scan_prefix(text, i + 1)->Ok_0.map_values(|p: (u16, nat)| p.0)
                    =~= prev.map_values(|p: (u16, nat)| p.0).push(k1));
            }
            vals.push(k1);
            last_bits = 15 - 8;
        } else {
            proof {
                assert(classify_cp(cp as nat) is None);
                assert(classify_char(c, i + 1 == n) == Result::<(u16, nat), ErrorKind>::Err(
                    ErrorKind::InvalidCharacter,
                ));
                assert(scan_prefix(text, i + 1) == Result::<Seq<(u16, nat)>, ErrorKind>::Err(
                    ErrorKind::InvalidCharacter,
                ));
                lemma_scan_err_persists(text, i + 1, n as int);
            }
            return Err(Base32768Error::of_kind(ErrorKind::InvalidCharacter));
        }
        i += 1;
    }
    let ghost ps = scan_prefix(text, n as int)->Ok_0;
    let ghost lw: nat = if ps.len() == 0 {
        15nat
    } else {
        (15 - 8 * ps.last().1) as nat
    };
    proof {
        lemma_scan_props(text, n as int);
        assert(last_bits as nat == lw);
    }
    let groups = resize_bytes_ex(vals.as_slice(), POINT_LEN, 8, last_bits);
    let ghost all_groups = groups@;
    proof {
        crate::bits_to_bits::lemma_regroup_props(
            stream_bits(vals@, 15, last_bits as nat),
            8,
        );
        vstd::arithmetic::power2::lemma2_to64();
    }
    let mut gi: usize = 0;
    while gi < groups.len()
        invariant
            groups@ == all_groups,
            gi <= all_groups.len(),
            forall|k: int|
                0 <= k < all_groups.len() ==> (#[trigger] all_groups[k]).bits == 8
                    ==> all_groups[k].bytes < 256,
            out_vec@ == old(out_vec)@ + bytes_of_groups(all_groups.take(gi as int)),
        decreases all_groups.len() - gi,
    {
        let g = groups[gi];
        proof {
            assert(all_groups.take(gi + 1).drop_last() =~= all_groups.take(gi as int));
            assert(all_groups.take(gi + 1).last() == g);
        }
        if g.bits == 8 {
            out_vec.push(g.bytes as u8);
            proof {
                assert(out_vec@ =~= old(out_vec)@ + bytes_of_groups(all_groups.take(gi + 1)));
            }
        } else {
            proof {
                assert(out_vec@ =~= old(out_vec)@ + bytes_of_groups(all_groups.take(gi + 1)));
            }
        }
        gi += 1;
    }
    proof {
        assert(all_groups.take(all_groups.len() as int) =~= all_groups);
        assert(vals@ == ps.map_values(|p: (u16, nat)| p.0));
    }
    Ok(())
}

/// Decodes a text string back into binary data, appending the recovered
/// bytes to `out_vec`. Exactly the texts accepted by `decode_spec`
/// succeed; on an error nothing is appended.
pub fn decode(in_str: &str, out_vec: &mut Vec<u8>) -> (r: Result<(), Base32768Error>)
    ensures
        match decode_spec(in_str@) {
            Ok(bs) => r is Ok && final(out_vec)@ == old(out_vec)@ + bs,
            Err(k) => r is Err && r->Err_0.kind == k && final(out_vec)@ == old(out_vec)@,
        },
{
    let tables = LookupTables::new();
    decode_with_tables(&tables, in_str, out_vec)
}

/// Number of characters that encoding `byte_len` bytes produces.
pub open spec fn spec_encoded_len(byte_len: nat) -> int {
    let bits = 8 * byte_len as int;
    bits / 15 + if bits % 15 == 0 {
        0int
    } else {
        1int
    }
}

/// How long the text returned for `byte_len` input bytes will be, or
/// `None` when the intermediate bit count overflows `usize`.
pub fn calculate_encoded_length(byte_len: usize) -> (r: Option<usize>)
    ensures
        match r {
            Some(l) => 8 * byte_len <= usize::MAX && l == spec_encoded_len(byte_len as nat),
            None => 8 * byte_len > usize::MAX,
        },
{
    if byte_len > usize::MAX / 8 {
        return None;
    }
    let bit_len: usize = byte_len * 8;
    let char_len: usize = bit_len / 15;
    let rem: usize = bit_len % 15;
    if rem != 0 {
        Some(char_len + 1)
    } else {
        Some(char_len)
    }
}

/// One group per input byte, each carrying all eight of its bits.
spec fn byte_groups(bytes: Seq<u8>) -> Seq<ResizedByte> {
    bytes.map_values(|b: u8| ResizedByte { bytes: b as u16, bits: 8usize })
}

/// A stream of values carries the same bits as groups with matching
/// values and the corresponding widths.
proof fn lemma_stream_as_groups(vs: Seq<u16>, gs: Seq<ResizedByte>, w: nat, lw: nat)
    requires
        vs.len() == gs.len(),
        forall|i: int| 0 <= i < gs.len() ==> (#[trigger] gs[i]).bytes == vs[i],
        forall|i: int| 0 <= i < gs.len() - 1 ==> (#[trigger] gs[i]).bits == w,
        gs.len() > 0 ==> gs.last().bits == lw,
    ensures
        stream_bits(vs, w, lw) == group_bits(gs),
    decreases gs.len(),
{
    if gs.len() == 0 {
        assert(stream_bits(vs, w, lw) =~= group_bits(gs));
    } else {
        lemma_stream_as_groups(vs.drop_last(), gs.drop_last(), w, w);
        assert(gs.drop_last().push(gs.last()) =~= gs);
        crate::bits_to_bits::lemma_group_bits_push(gs.drop_last(), gs.last());
        assert(val_bits(gs.last().bytes, gs.last().bits as nat) == val_bits(vs.last(), lw));
    }
}

/// The byte groups of a byte sequence carry exactly its bit stream.
proof fn lemma_byte_groups_bits(bytes: Seq<u8>)
    ensures
        group_bits(byte_groups(bytes)) == byte_stream(bytes),
{
    lemma_stream_as_groups(bytes.map_values(|b: u8| b as u16), byte_groups(bytes), 8, 8);
}

/// Collecting the full groups of the byte groups gives the bytes back.
proof fn lemma_bytes_of_byte_groups(bytes: Seq<u8>)
    ensures
        bytes_of_groups(byte_groups(bytes)) == bytes,
    decreases bytes.len(),
{
    if bytes.len() == 0 {
        assert(bytes_of_groups(byte_groups(bytes)) =~= bytes);
    } else {
        assert(byte_groups(bytes).drop_last() =~= byte_groups(bytes.drop_last()));
        lemma_bytes_of_byte_groups(bytes.drop_last());
        assert(byte_groups(bytes).last().bits == 8);
        assert(byte_groups(bytes).last().bytes as u8 == bytes.last());
        assert(bytes_of_groups(byte_groups(bytes)) =~= bytes);
    }
}

/// The value-and-tier pairs that the characters of an encoded text carry.
spec fn enc_pairs(bytes: Seq<u8>) -> Seq<(u16, nat)> {
    let gs = regroup_bits(byte_stream(bytes), 15);
    Seq::new(
        gs.len(),
        |i: int|
            if i < gs.len() - 1 {
                (gs[i].bytes, 0nat)
            } else {
                pad_final(gs[i])
            },
    )
}

/// The widths and bounds of the final group after padding.
proof fn lemma_pad_final_props(g: ResizedByte)
    requires
        1 <= g.bits <= 15,
        (g.bytes as nat) < pow2(g.bits as nat),
    ensures
        ({
            let vt = pad_final(g);
            let p = (15 - g.bits as int) % 8;
            &&& vt.1 < 2
            &&& 0 <= p <= 7
            &&& g.bits + p == 15 - 8 * vt.1
            &&& (vt.0 as nat) < spec_tier_size(vt.1)
            &&& val_bits(vt.0, (g.bits + p) as nat) == val_bits(g.bytes, g.bits as nat) + ones(
                p as nat,
            )
        }),
{
    let p = (15 - g.bits as int) % 8;
    lemma_pad_bits(g.bytes, g.bits as nat, p as nat);
    vstd::arithmetic::power2::lemma2_to64();
}

/// Scanning an encoded text recovers each character's value and tier.
proof fn lemma_scan_encode(bytes: Seq<u8>, m: int)
    requires
        0 <= m <= enc_pairs(bytes).len(),
    ensures
        scan_prefix(encode_spec(bytes), m) == Result::<Seq<(u16, nat)>, ErrorKind>::Ok(
            enc_pairs(bytes).take(m),
        ),
    decreases m,
{
    let text = encode_spec(bytes);
    let gs = regroup_bits(byte_stream(bytes), 15);
    let pairs = enc_pairs(bytes);
    crate::bits_to_bits::lemma_regroup_props(byte_stream(bytes), 15);
    vstd::arithmetic::power2::lemma2_to64();
    if m == 0 {
        assert(pairs.take(0) =~= Seq::<(u16, nat)>::empty());
    } else {
        lemma_scan_encode(bytes, m - 1);
        let i = m - 1;
        let vt = pairs[i];
        if i < gs.len() - 1 {
            assert(vt == (gs[i].bytes, 0nat));
            assert((vt.0 as nat) < spec_tier_size(0));
        } else {
            lemma_pad_final_props(gs[i]);
            assert(vt == pad_final(gs[i]));
        }
        assert(vt.1 < 2);
        assert((vt.0 as nat) < spec_tier_size(vt.1));
        crate::data::lemma_cp_of_range(vt.1, vt.0 as nat);
        crate::data::lemma_classify_cp_of(vt.1, vt.0 as nat);
        let cp = cp_of(vt.1, vt.0 as nat);
        let c = char_for(vt.1, vt.0 as nat);
        assert(text[i] == c);
        assert(c as u32 == cp);
        assert(classify_cp(c as u32 as nat) == Some((vt.1, vt.0)));
        assert(text.len() == gs.len());
        if i < gs.len() - 1 {
            assert(classify_char(c, m == text.len()) == Result::<(u16, nat), ErrorKind>::Ok(vt));
        } else {
            assert(m == text.len());
            assert(classify_char(c, true) == Result::<(u16, nat), ErrorKind>::Ok(vt));
        }
        assert(pairs.take(m) =~= pairs.take(m - 1).push(vt));
    }
}

/// Round trip: decoding the encoding of any byte sequence yields exactly
/// the original bytes.
pub proof fn lemma_round_trip(bytes: Seq<u8>)
    ensures
        decode_spec(encode_spec(bytes)) == Result::<Seq<u8>, ErrorKind>::Ok(bytes),
{
    let s = byte_stream(bytes);
    let gs = regroup_bits(s, 15);
    let text = encode_spec(bytes);
    let wide = bytes.map_values(|b: u8| b as u16);
    crate::bits_to_bits::lemma_stream_bits_len(wide, 8, 8);
    crate::bits_to_bits::lemma_regroup_props(s, 15);
    vstd::arithmetic::power2::lemma2_to64();
    if bytes.len() == 0 {
        assert(wide.len() == 0);
        assert(s =~= Seq::<bool>::empty());
        assert(gs =~= Seq::<ResizedByte>::empty());
        assert(text =~= Seq::<char>::empty());
        assert(scan_prefix(text, 0) == Result::<Seq<(u16, nat)>, ErrorKind>::Ok(
            Seq::<(u16, nat)>::empty(),
        ));
        let vals = Seq::<(u16, nat)>::empty().map_values(|p: (u16, nat)| p.0);
        assert(vals =~= Seq::<u16>::empty());
        assert(stream_bits(vals, 15, 15) =~= Seq::<bool>::empty());
        assert(regroup_bits(Seq::<bool>::empty(), 8) =~= Seq::<ResizedByte>::empty());
        assert(decode_spec(text) == Result::<Seq<u8>, ErrorKind>::Ok(Seq::<u8>::empty()));
        assert(bytes =~= Seq::<u8>::empty());
    } else {
        let k = gs.len();
        assert(s.len() == 8 * bytes.len());
        assert(k >= 1);
        let g = gs.last();
        let r = g.bits as int;
        let vt = pad_final(g);
        let p = (15 - r) % 8;
        lemma_pad_final_props(g);
        let pairs = enc_pairs(bytes);
        lemma_scan_encode(bytes, k as int);
        assert(pairs.take(k as int) =~= pairs);
        assert(text.len() == k);
        assert(scan_prefix(text, text.len() as int) == Result::<Seq<(u16, nat)>, ErrorKind>::Ok(
            pairs,
        ));
        let vals = pairs.map_values(|q: (u16, nat)| q.0);
        assert(pairs.last() == vt);
        let lw: nat = (15 - 8 * vt.1) as nat;
        assert(lw == r + p);
        // The decoded value stream carries the original bits plus padding.
        let padded_last = ResizedByte { bytes: vt.0, bits: (r + p) as usize };
        let gs2 = gs.drop_last().push(padded_last);
        lemma_stream_as_groups(vals, gs2, 15, lw);
        crate::bits_to_bits::lemma_group_bits_push(gs.drop_last(), padded_last);
        crate::bits_to_bits::lemma_group_bits_push(gs.drop_last(), g);
        assert(gs.drop_last().push(g) =~= gs);
        assert(group_bits(gs2) =~= group_bits(gs) + ones(p as nat));
        assert(group_bits(gs) == s);
        assert(stream_bits(vals, 15, lw) == s + ones(p as nat));
        // Regrouping those bits into bytes gives the byte groups, plus a
        // padding-only remainder when padding was added.
        let ov = (pow2(p as nat) - 1) as u16;
        let bgs = if p == 0 {
            byte_groups(bytes)
        } else {
            byte_groups(bytes).push(ResizedByte { bytes: ov, bits: p as usize })
        };
        lemma_byte_groups_bits(bytes);
        if p == 0 {
            assert(ones(0) =~= Seq::<bool>::empty());
            assert(group_bits(bgs) =~= s + ones(p as nat));
        } else {
            crate::bits_to_bits::lemma_group_bits_push(
                byte_groups(bytes),
                ResizedByte { bytes: ov, bits: p as usize },
            );
            lemma_ones_val(p as nat);
            crate::bits_to_bits::lemma_val_bits_of_bits_val(ones(p as nat));
            assert(val_bits(ov, p as nat) == ones(p as nat));
            assert(group_bits(bgs) =~= s + ones(p as nat));
        }
        assert forall|i: int| 0 <= i < bgs.len() implies 1 <= (#[trigger] bgs[i]).bits <= 8
            && bgs[i].bytes < pow2(bgs[i].bits as nat) by {
            vstd::arithmetic::power2::lemma_pow2_pos(p as nat);
        }
        assert forall|i: int| 0 <= i < bgs.len() - 1 implies (#[trigger] bgs[i]).bits == 8 by {}
        crate::bits_to_bits::lemma_groups_complete(bgs, 8);
        assert(regroup_bits(stream_bits(vals, 15, lw), 8) == bgs);
        lemma_bytes_of_byte_groups(bytes);
        if p == 0 {
            assert(bytes_of_groups(bgs) == bytes);
        } else {
            assert(bgs.drop_last() =~= byte_groups(bytes));
            assert(bgs.last().bits == p);
            assert(bytes_of_groups(bgs) =~= bytes_of_groups(byte_groups(bytes)));
            assert(bytes_of_groups(bgs) == bytes);
        }
        assert(decode_spec(text) == Result::<Seq<u8>, ErrorKind>::Ok(bytes));
    }
}

/// Determinism: the encoded text is a function of the input bytes alone,
/// so two encode calls on the same bytes yield identical text.
pub proof fn lemma_encode_deterministic(bytes: Seq<u8>, r1: Seq<char>, r2: Seq<char>)
    requires
        r1 == encode_spec(bytes),
        r2 == encode_spec(bytes),
    ensures
        r1 == r2,
{
}

/// Determinism: the decoded outcome is a function of the input text
/// alone, so two decode calls on the same text yield identical results.
pub proof fn lemma_decode_deterministic(
    text: Seq<char>,
    r1: Result<Seq<u8>, ErrorKind>,
    r2: Result<Seq<u8>, ErrorKind>,
)
    requires
        r1 == decode_spec(text),
        r2 == decode_spec(text),
    ensures
        r1 == r2,
{
}

/// Empty input: encoding no bytes yields empty text, and decoding empty
/// text yields no bytes.
pub proof fn lemma_empty_input()
    ensures
        encode_spec(Seq::<u8>::empty()) == Seq::<char>::empty(),
        decode_spec(Seq::<char>::empty()) == Result::<Seq<u8>, ErrorKind>::Ok(Seq::<u8>::empty()),
{
    lemma_round_trip(Seq::<u8>::empty());
    assert(byte_stream(Seq::<u8>::empty()).len() == 0) by {
        crate::bits_to_bits::lemma_stream_bits_len(
            Seq::<u8>::empty().map_values(|b: u8| b as u16),
            8,
            8,
        );
    }
    assert(encode_spec(Seq::<u8>::empty()) =~= Seq::<char>::empty());
}

/// A scan succeeds through any prefix whose characters all classify
/// without an error.
proof fn lemma_scan_ok(text: Seq<char>, m: int)
    requires
        0 <= m <= text.len(),
        forall|j: int|
            0 <= j < m ==> classify_char(#[trigger] text[j], j == text.len() - 1) is Ok,
    ensures
        scan_prefix(text, m) is Ok,
    decreases m,
{
    if m > 0 {
        lemma_scan_ok(text, m - 1);
        assert(classify_char(text[m - 1], m - 1 == text.len() - 1) is Ok);
    }
}

/// Padding placement: a padding-tier character before the final position
/// makes decoding fail with `MisplacedPadding`, provided the characters
/// before it classify cleanly (an earlier fault surfaces its own error
/// first).
pub proof fn lemma_misplaced_padding(text: Seq<char>, i: int)
    requires
        0 <= i < text.len() - 1,
        forall|j: int| 0 <= j < i ==> classify_char(#[trigger] text[j], false) is Ok,
        (text[i] as u32) < 0x10000,
        classify_cp(text[i] as u32 as nat) matches Some(tv) && tv.0 >= 1,
    ensures
        decode_spec(text) == Result::<Seq<u8>, ErrorKind>::Err(ErrorKind::MisplacedPadding),
{
    assert forall|j: int| 0 <= j < i implies classify_char(
        #[trigger] text[j],
        j == text.len() - 1,
    ) is Ok by {
        assert(classify_char(text[j], false) is Ok);
    }
    lemma_scan_ok(text, i);
    assert(classify_char(text[i], i + 1 == text.len()) == Result::<(u16, nat), ErrorKind>::Err(
        ErrorKind::MisplacedPadding,
    ));
    assert(scan_prefix(text, i + 1) == Result::<Seq<(u16, nat)>, ErrorKind>::Err(
        ErrorKind::MisplacedPadding,
    ));
    lemma_scan_err_persists(text, i + 1, text.len() as int);
}

/// The encoded text's length follows the closed formula that
/// `calculate_encoded_length` computes.
pub proof fn lemma_encoded_len(bytes: Seq<u8>)
    ensures
        encode_spec(bytes).len() == spec_encoded_len(bytes.len()),
{
    crate::bits_to_bits::lemma_stream_bits_len(bytes.map_values(|b: u8| b as u16), 8, 8);
    crate::bits_to_bits::lemma_regroup_props(byte_stream(bytes), 15);
}

/// Padding placement, unconditionally: a padding-tier character anywhere
/// before the final position means decoding cannot succeed.
pub proof fn lemma_padding_before_end_fails(text: Seq<char>, i: int)
    requires
        0 <= i < text.len() - 1,
        (text[i] as u32) < 0x10000,
        classify_cp(text[i] as u32 as nat) matches Some(tv) && tv.0 >= 1,
    ensures
        decode_spec(text) is Err,
{
    if scan_prefix(text, text.len() as int) is Ok {
        lemma_scan_props(text, text.len() as int);
        assert(classify_char(text[i], i == text.len() - 1) is Ok);
        assert(false);
    }
}

} // verus!
