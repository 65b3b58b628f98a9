//! Bit regrouping: reslicing a stream of fixed-width integer groups into
//! groups of a different fixed width, tracking the width of the final,
//! possibly partial group.
use vstd::prelude::*;
use vstd::arithmetic::power2::pow2;
use vstd::arithmetic::power2::lemma_pow2_unfold;
use vstd::arithmetic::power2::lemma_pow2_pos;
use vstd::arithmetic::power2::lemma2_to64;
use vstd::arithmetic::div_mod::lemma_breakdown;
use vstd::arithmetic::div_mod::lemma_div_denominator;
use vstd::arithmetic::div_mod::lemma_small_mod;

verus! {

/// One output group of the regrouper: a value of at most 16 bits together
/// with the number of bits it actually carries.
#[derive(Debug, Clone, Copy)]
pub struct ResizedByte {
    /// The group's value; only the low `bits` bits are meaningful.
    pub bytes: u16,
    /// How many bits of `bytes` are valid, counted from the least
    /// significant bit.
    pub bits: usize,
}

/// Bit `i` of `v`, counting from the least significant bit.
pub open spec fn bit_at(v: u16, i: nat) -> bool {
    (v as nat / pow2(i)) % 2 == 1
}

/// The low `w` bits of `v`, most significant bit first.
pub open spec fn val_bits(v: u16, w: nat) -> Seq<bool> {
    Seq::new(w, |k: int| bit_at(v, (w - 1 - k) as nat))
}

/// The value carried by a bit sequence, read most significant bit first.
pub open spec fn bits_val(bits: Seq<bool>) -> nat
    decreases bits.len(),
{
    if bits.len() == 0 {
        0
    } else {
        2 * bits_val(bits.drop_last()) + if bits.last() {
            1nat
        } else {
            0nat
        }
    }
}

/// The bits of a whole stream of values: every element contributes its low
/// `w` bits, except the last, which contributes its low `lw` bits.
pub open spec fn stream_bits(vs: Seq<u16>, w: nat, lw: nat) -> Seq<bool>
    decreases vs.len(),
{
    if vs.len() == 0 {
        Seq::empty()
    } else {
        stream_bits(vs.drop_last(), w, w) + val_bits(vs.last(), lw)
    }
}

/// The bits carried by a sequence of groups.
pub open spec fn group_bits(gs: Seq<ResizedByte>) -> Seq<bool>
    decreases gs.len(),
{
    if gs.len() == 0 {
        Seq::empty()
    } else {
        val_bits(gs.first().bytes, gs.first().bits as nat) + group_bits(gs.drop_first())
    }
}

/// Cutting a bit sequence into groups of `w` bits each; the final group
/// keeps however many bits remain.
pub open spec fn regroup_bits(bits: Seq<bool>, w: nat) -> Seq<ResizedByte>
    decreases bits.len(),
    when w >= 1
{
    if bits.len() == 0 {
        Seq::empty()
    } else if bits.len() <= w {
        seq![ResizedByte { bytes: bits_val(bits) as u16, bits: bits.len() as usize }]
    } else {
        seq![ResizedByte { bytes: bits_val(bits.take(w as int)) as u16, bits: w as usize }]
            + regroup_bits(bits.skip(w as int), w)
    }
}

/// A bit sequence's value is bounded by a power of two in its length.
pub proof fn lemma_bits_val_bound(bits: Seq<bool>)
    ensures
        bits_val(bits) < pow2(bits.len()),
    decreases bits.len(),
{
    if bits.len() == 0 {
        lemma2_to64();
    } else {
        lemma_bits_val_bound(bits.drop_last());
        lemma_pow2_unfold(bits.len());
    }
}

/// Bit `i + 1` of a value is bit `i` of its half.
proof fn lemma_bit_at_div2(v: u16, i: nat)
    requires
        i < 16,
    ensures
        bit_at(v, i + 1) == bit_at((v / 2) as u16, i),
{
    lemma_pow2_unfold(i + 1);
    lemma_pow2_pos(i);
    lemma_div_denominator(v as int, 2, pow2(i) as int);
}

/// Reading back the low `w` bits of a value yields the value modulo `2^w`.
pub proof fn lemma_val_bits_val(v: u16, w: nat)
    requires
        w <= 16,
    ensures
        bits_val(val_bits(v, w)) == (v as nat) % pow2(w),
    decreases w,
{
    if w == 0 {
        lemma2_to64();
        assert(val_bits(v, 0) =~= Seq::<bool>::empty());
        lemma_small_mod(0, 1);
        assert(v as nat % pow2(0) == v as nat % 1);
    } else {
        let h = (v / 2) as u16;
        assert(val_bits(v, w).drop_last() =~= val_bits(h, (w - 1) as nat)) by {
            assert forall|k: int| 0 <= k < w - 1 implies val_bits(v, w)[k] == val_bits(
                h,
                (w - 1) as nat,
            )[k] by {
                lemma_bit_at_div2(v, (w - 1 - k - 1) as nat);
            }
        }
        lemma_val_bits_val(h, (w - 1) as nat);
        assert(val_bits(v, w).last() == bit_at(v, 0));
        lemma2_to64();
        assert(pow2(0) == 1);
        assert(v as nat / 1 == v as nat);
        assert(bit_at(v, 0) == ((v as nat) % 2 == 1));
        lemma_pow2_pos((w - 1) as nat);
        lemma_breakdown(v as int, 2, pow2((w - 1) as nat) as int);
        lemma_pow2_unfold(w);
        assert(bits_val(val_bits(v, w)) == 2 * ((h as nat) % pow2((w - 1) as nat)) + (
        (v as nat) % 2));
    }
}

/// The value of a concatenation of bit sequences.
pub proof fn lemma_bits_val_concat(a: Seq<bool>, b: Seq<bool>)
    ensures
        bits_val(a + b) == bits_val(a) * pow2(b.len()) + bits_val(b),
    decreases b.len(),
{
    if b.len() == 0 {
        assert(a + b =~= a);
        lemma2_to64();
        assert(pow2(0) == 1);
        assert(bits_val(a) * 1 == bits_val(a));
    } else {
        assert((a + b).len() > 0);
        assert((a + b).drop_last() =~= a + b.drop_last());
        assert((a + b).last() == b.last());
        lemma_bits_val_concat(a, b.drop_last());
        lemma_pow2_unfold(b.len());
        let p = pow2((b.len() - 1) as nat);
        let tail: nat = if b.last() {
            1nat
        } else {
            0nat
        };
        assert(bits_val(a + b) == 2 * bits_val((a + b).drop_last()) + tail);
        assert(bits_val(a + b) == 2 * (bits_val(a) * p + bits_val(b.drop_last())) + tail);
        assert(2 * (bits_val(a) * p + bits_val(b.drop_last())) == bits_val(a) * (2 * p) + 2
            * bits_val(b.drop_last())) by (nonlinear_arith);
        assert(bits_val(b) == 2 * bits_val(b.drop_last()) + tail);
        assert(pow2(b.len()) == 2 * p);
    }
}

/// Powers of two up to `2^16` stay within `u16` range plus one.
proof fn lemma_pow2_le_u16(w: nat)
    requires
        w <= 16,
    ensures
        pow2(w) <= 0x10000,
{
    lemma2_to64();
    if w < 16 {
        vstd::arithmetic::power2::lemma_pow2_strictly_increases(w, 16);
    }
}

/// Splitting off the last of the low `w` bits of a value.
proof fn lemma_val_bits_split(v: u16, w: nat)
    requires
        1 <= w <= 16,
    ensures
        val_bits(v, w).drop_last() =~= val_bits((v / 2) as u16, (w - 1) as nat),
        val_bits(v, w).last() == ((v as nat) % 2 == 1),
{
    assert forall|k: int| 0 <= k < w - 1 implies val_bits(v, w)[k] == val_bits(
        (v / 2) as u16,
        (w - 1) as nat,
    )[k] by {
        lemma_bit_at_div2(v, (w - 1 - k - 1) as nat);
    }
    lemma2_to64();
    assert(pow2(0) == 1);
    assert(bit_at(v, 0) == ((v as nat) % 2 == 1));
}

/// Reading a bit sequence's value and spelling it out again as bits gives
/// back the sequence.
pub proof fn lemma_val_bits_of_bits_val(bits: Seq<bool>)
    requires
        bits.len() <= 16,
    ensures
        val_bits(bits_val(bits) as u16, bits.len()) == bits,
    decreases bits.len(),
{
    lemma_bits_val_bound(bits);
    lemma_pow2_le_u16(bits.len());
    if bits.len() == 0 {
        assert(val_bits(bits_val(bits) as u16, 0) =~= bits);
    } else {
        let v = bits_val(bits) as u16;
        let tail: nat = if bits.last() {
            1nat
        } else {
            0nat
        };
        assert(v as nat == 2 * bits_val(bits.drop_last()) + tail);
        assert((v / 2) as nat == bits_val(bits.drop_last()));
        lemma_val_bits_of_bits_val(bits.drop_last());
        lemma_val_bits_split(v, bits.len());
        assert(val_bits(v, bits.len()).drop_last() =~= bits.drop_last());
        assert(val_bits(v, bits.len()).last() == bits.last());
        assert forall|k: int| 0 <= k < bits.len() implies val_bits(v, bits.len())[k]
            == bits[k] by {
            if k < bits.len() - 1 {
                assert(val_bits(v, bits.len()).drop_last()[k] == bits.drop_last()[k]);
            }
        }
        assert(val_bits(v, bits.len()) =~= bits);
    }
}

/// How many bits a whole stream carries.
pub proof fn lemma_stream_bits_len(vs: Seq<u16>, w: nat, lw: nat)
    ensures
        stream_bits(vs, w, lw).len() == if vs.len() == 0 {
            0int
        } else {
            (vs.len() - 1) * w + lw
        },
    decreases vs.len(),
{
    if vs.len() > 0 {
        lemma_stream_bits_len(vs.drop_last(), w, w);
        assert(val_bits(vs.last(), lw).len() == lw);
        if vs.len() == 1 {
            assert(stream_bits(vs.drop_last(), w, w).len() == 0);
            assert((vs.len() - 1) * w == 0) by (nonlinear_arith)
                requires
                    vs.len() == 1,
            ;
        } else {
            assert(stream_bits(vs.drop_last(), w, w).len() == (vs.len() - 2) * w + w);
            assert((vs.len() - 2) * w + w == (vs.len() - 1) * w) by (nonlinear_arith);
        }
    }
}

/// Shape of the regrouped sequence: every group but the last carries
/// exactly `w` bits, the last carries the remainder (or `w` when the bit
/// count divides evenly), every value fits its width, and the groups carry
/// exactly the bits that went in.
pub proof fn lemma_regroup_props(bits: Seq<bool>, w: nat)
    requires
        1 <= w <= 16,
    ensures
        ({
            let gs = regroup_bits(bits, w);
            let n = bits.len() as int;
            let wi = w as int;
            &&& gs.len() == n / wi + if n % wi == 0 {
                0int
            } else {
                1int
            }
            &&& forall|i: int| 0 <= i < gs.len() - 1 ==> (#[trigger] gs[i]).bits == w
            &&& forall|i: int|
                0 <= i < gs.len() ==> 1 <= (#[trigger] gs[i]).bits <= w && gs[i].bytes < pow2(
                    gs[i].bits as nat,
                )
            &&& gs.len() > 0 ==> gs.last().bits == if n % wi == 0 {
                wi
            } else {
                n % wi
            }
            &&& group_bits(gs) == bits
        }),
    decreases bits.len(),
{
    let gs = regroup_bits(bits, w);
    let n = bits.len() as int;
    let wi = w as int;
    if bits.len() == 0 {
        assert(group_bits(gs) =~= bits);
    } else if bits.len() <= w {
        lemma_bits_val_bound(bits);
        lemma_pow2_le_u16(bits.len());
        if n < wi {
            vstd::arithmetic::div_mod::lemma_basic_div(n, wi);
            lemma_small_mod(bits.len(), w);
        } else {
            vstd::arithmetic::div_mod::lemma_div_by_self(wi);
            vstd::arithmetic::div_mod::lemma_mod_self_0(wi);
        }
        lemma_val_bits_of_bits_val(bits);
        assert(gs.len() == 1);
        assert(gs.drop_first() =~= Seq::<ResizedByte>::empty());
        assert(group_bits(gs.drop_first()) == Seq::<bool>::empty());
        assert(group_bits(gs) =~= val_bits(bits_val(bits) as u16, bits.len()));
    } else {
        let head = bits.take(wi);
        let rest = bits.skip(wi);
        lemma_regroup_props(rest, w);
        lemma_bits_val_bound(head);
        lemma_pow2_le_u16(w);
        lemma_val_bits_of_bits_val(head);
        let tail_gs = regroup_bits(rest, w);
        assert(gs.drop_first() =~= tail_gs);
        assert(gs.first().bits == w);
        assert(group_bits(gs) == val_bits(gs.first().bytes, w) + group_bits(tail_gs));
        assert(val_bits(gs.first().bytes, w) == head);
        assert(head + rest =~= bits);
        // length and remainder bookkeeping
        vstd::arithmetic::div_mod::lemma_mod_sub_multiples_vanish(n, wi);
        assert(rest.len() as int == n - wi);
        vstd::arithmetic::div_mod::lemma_hoist_over_denominator(n - wi, 1, w);
        assert((n - wi) / wi + 1 == n / wi);
        assert(tail_gs.len() > 0);
        assert(gs.last() == tail_gs.last());
    }
    assert(group_bits(regroup_bits(bits, w)) =~= bits);
}

/// A sequence of groups whose widths follow the regrouping pattern is
/// exactly the regrouping of its own bits: the regrouped form is unique.
pub proof fn lemma_groups_complete(gs: Seq<ResizedByte>, w: nat)
    requires
        1 <= w <= 16,
        forall|i: int| 0 <= i < gs.len() ==> 1 <= (#[trigger] gs[i]).bits <= w,
        forall|i: int| 0 <= i < gs.len() - 1 ==> (#[trigger] gs[i]).bits == w,
        forall|i: int|
            0 <= i < gs.len() ==> (#[trigger] gs[i]).bytes < pow2(gs[i].bits as nat),
    ensures
        gs == regroup_bits(group_bits(gs), w),
    decreases gs.len(),
{
    if gs.len() == 0 {
        assert(gs =~= regroup_bits(group_bits(gs), w));
    } else if gs.len() == 1 {
        let g = gs.first();
        let b = val_bits(g.bytes, g.bits as nat);
        assert(gs.drop_first() =~= Seq::<ResizedByte>::empty());
        assert(group_bits(gs.drop_first()) == Seq::<bool>::empty());
        assert(group_bits(gs) =~= b);
        lemma_val_bits_val(g.bytes, g.bits as nat);
        lemma_small_mod(g.bytes as nat, pow2(g.bits as nat));
        assert(bits_val(b) == g.bytes as nat);
        assert(regroup_bits(b, w) =~= seq![ResizedByte { bytes: g.bytes, bits: g.bits }]);
        assert(gs =~= regroup_bits(group_bits(gs), w));
    } else {
        let g = gs.first();
        let rest = gs.drop_first();
        let b = group_bits(gs);
        assert(g.bits == w);
        assert(forall|i: int| 0 <= i < rest.len() ==> rest[i] == gs[i + 1]);
        lemma_groups_complete(rest, w);
        assert(group_bits(rest).len() >= rest.first().bits) by {
            assert(group_bits(rest) == val_bits(rest.first().bytes, rest.first().bits as nat)
                + group_bits(rest.drop_first()));
        }
        assert(b == val_bits(g.bytes, w) + group_bits(rest));
        assert(b.len() > w);
        assert(b.take(w as int) =~= val_bits(g.bytes, w));
        assert(b.skip(w as int) =~= group_bits(rest));
        lemma_val_bits_val(g.bytes, w);
        lemma_small_mod(g.bytes as nat, pow2(w));
        assert(bits_val(b.take(w as int)) == g.bytes as nat);
        assert(regroup_bits(b, w) == seq![ResizedByte { bytes: g.bytes, bits: w as usize }]
            + regroup_bits(b.skip(w as int), w));
        assert(regroup_bits(b.skip(w as int), w) == rest);
        assert(g.bits == w as usize);
        assert(gs =~= seq![ResizedByte { bytes: g.bytes, bits: w as usize }] + rest);
    }
}

/// Appending a group appends its bits.
pub proof fn lemma_group_bits_push(gs: Seq<ResizedByte>, g: ResizedByte)
    ensures
        group_bits(gs.push(g)) == group_bits(gs) + val_bits(g.bytes, g.bits as nat),
    decreases gs.len(),
{
    if gs.len() == 0 {
        assert(gs.push(g).len() == 1);
        assert(gs.push(g).first() == g);
        assert(gs.push(g).drop_first() =~= Seq::<ResizedByte>::empty());
        assert(group_bits(gs.push(g).drop_first()) == Seq::<bool>::empty());
        assert(group_bits(gs.push(g)) =~= val_bits(g.bytes, g.bits as nat));
        assert(group_bits(gs) + val_bits(g.bytes, g.bits as nat) =~= val_bits(
            g.bytes,
            g.bits as nat,
        ));
    } else {
        assert(gs.push(g).drop_first() =~= gs.drop_first().push(g));
        lemma_group_bits_push(gs.drop_first(), g);
        assert(group_bits(gs.push(g)) =~= group_bits(gs) + val_bits(g.bytes, g.bits as nat));
    }
}

/// Feeding one more bit into an accumulator appends it to the accumulated
/// bit sequence.
proof fn lemma_val_bits_push(acc: u16, nb: nat, bit: u16)
    requires
        nb < 16,
        (acc as nat) < pow2(nb),
        bit < 2,
    ensures
        val_bits((2 * acc + bit) as u16, nb + 1) == val_bits(acc, nb).push(bit == 1),
{
    lemma_pow2_le_u16(nb);
    lemma_pow2_unfold(nb + 1);
    lemma_pow2_le_u16(nb + 1);
    let v = (2 * acc + bit) as u16;
    assert(v as nat == 2 * (acc as nat) + bit);
    lemma_val_bits_split(v, nb + 1);
    assert((v / 2) as u16 == acc);
    assert(val_bits(v, nb + 1).drop_last() =~= val_bits(acc, nb));
    assert(val_bits(v, nb + 1).last() == (bit == 1));
    let pushed = val_bits(acc, nb).push(bit == 1);
    assert forall|k: int| 0 <= k < nb + 1 implies #[trigger] val_bits(v, nb + 1)[k]
        == pushed[k] by {
        if k < nb {
            assert(val_bits(v, nb + 1).drop_last()[k] == val_bits(acc, nb)[k]);
        }
    }
    assert(val_bits(v, nb + 1) =~= pushed);
}

/// Reslices `in_buf` into groups of `size` bits each. Every element of
/// `in_buf` contributes its low `byte_size` bits, most significant first,
/// except the last, which contributes its low `last_byte_size` bits. The
/// final group may carry fewer than `size` bits when the total bit count
/// does not divide evenly.
pub fn resize_bytes_ex(
    in_buf: &[u16],
    byte_size: usize,
    size: usize,
    last_byte_size: usize,
) -> (out: Vec<ResizedByte>)
    requires
        1 <= size <= 16,
        byte_size <= 16,
        last_byte_size <= 16,
    ensures
        out@ == regroup_bits(
            stream_bits(in_buf@, byte_size as nat, last_byte_size as nat),
            size as nat,
        ),
{
    let n = in_buf.len();
    let mut out: Vec<ResizedByte> = Vec::new();
    let mut acc: u16 = 0;
    let mut num_bits: usize = 0;
    let mut idx: usize = 0;
    proof {
        lemma2_to64();
    }
    while idx < n
        invariant
            n == in_buf@.len(),
            idx <= n,
            1 <= size <= 16,
            byte_size <= 16,
            last_byte_size <= 16,
            num_bits < size,
            (acc as nat) < pow2(num_bits as nat),
            forall|k: int|
                0 <= k < out@.len() ==> (#[trigger] out@[k]).bits == size && out@[k].bytes
                    < pow2(size as nat),
            group_bits(out@) + val_bits(acc, num_bits as nat) == if idx < n {
                stream_bits(in_buf@.take(idx as int), byte_size as nat, byte_size as nat)
            } else {
                stream_bits(in_buf@, byte_size as nat, last_byte_size as nat)
            },
        decreases n - idx,
    {
        let current_size = if idx == n - 1 {
            last_byte_size
        } else {
            byte_size
        };
        let b = in_buf[idx];
        let ghost prefix = stream_bits(in_buf@.take(idx as int), byte_size as nat, byte_size as nat);
        let ghost elem = val_bits(b, current_size as nat);
        let mut j: usize = 0;
        while j < current_size
            invariant
                n == in_buf@.len(),
                idx < n,
                b == in_buf@[idx as int],
                current_size == if idx == n - 1 {
                    last_byte_size
                } else {
                    byte_size
                },
                j <= current_size,
                1 <= size <= 16,
                byte_size <= 16,
                last_byte_size <= 16,
                current_size <= 16,
                num_bits < size,
                (acc as nat) < pow2(num_bits as nat),
                prefix == stream_bits(
                    in_buf@.take(idx as int),
                    byte_size as nat,
                    byte_size as nat,
                ),
                elem == val_bits(b, current_size as nat),
                forall|k: int|
                    0 <= k < out@.len() ==> (#[trigger] out@[k]).bits == size && out@[k].bytes
                        < pow2(size as nat),
                group_bits(out@) + val_bits(acc, num_bits as nat) == prefix + elem.take(j as int),
            decreases current_size - j,
        {
            let sh = (current_size - 1 - j) as u16;
            let bit = (b >> sh) & 1;
            proof {
                vstd::bits::lemma_u16_shr_is_div(b, sh);
                vstd::bits::lemma_u16_low_bits_mask_is_mod(b >> sh, 1);
                vstd::bits::lemma_low_bits_mask_values();
                lemma2_to64();
                assert(bit == (b >> sh) % 2);
                assert(bit as nat == ((b as nat) / pow2(sh as nat)) % 2);
                assert((bit == 1) == bit_at(b, sh as nat));
                assert(elem[j as int] == bit_at(b, (current_size - 1 - j) as nat));
                assert(elem.take(j + 1) =~= elem.take(j as int).push(elem[j as int]));
                lemma_val_bits_push(acc, num_bits as nat, bit);
                assert((prefix + elem.take(j as int)).push(bit == 1) =~= prefix + elem.take(
                    j + 1,
                ));
                assert(group_bits(out@) + val_bits(acc, num_bits as nat).push(bit == 1) =~= (
                group_bits(out@) + val_bits(acc, num_bits as nat)).push(bit == 1));
                lemma_pow2_le_u16(num_bits as nat + 1);
            }
            acc = acc * 2 + bit;
            num_bits = num_bits + 1;
            if num_bits == size {
                let ghost out0 = out@;
                out.push(ResizedByte { bytes: acc, bits: num_bits });
                proof {
                    lemma_group_bits_push(out0, ResizedByte { bytes: acc, bits: num_bits });
                    assert(val_bits(0u16, 0) =~= Seq::<bool>::empty());
                    assert(group_bits(out@) + val_bits(0u16, 0) =~= group_bits(out@));
                }
                acc = 0;
                num_bits = 0;
            }
            j += 1;
        }
        proof {
            assert(elem.take(current_size as int) =~= elem);
            if idx == n - 1 {
                assert(in_buf@.take(n as int) =~= in_buf@);
                assert(in_buf@.drop_last() =~= in_buf@.take(idx as int));
                assert(stream_bits(in_buf@, byte_size as nat, last_byte_size as nat) == prefix
                    + elem);
            } else {
                assert(in_buf@.take(idx + 1).drop_last() =~= in_buf@.take(idx as int));
                assert(in_buf@.take(idx + 1).last() == in_buf@[idx as int]);
                assert(stream_bits(in_buf@.take(idx + 1), byte_size as nat, byte_size as nat)
                    == prefix + elem);
            }
        }
        idx += 1;
    }
    proof {
        if n == 0 {
            assert(in_buf@.take(0) =~= in_buf@);
        }
    }
    let ghost all = stream_bits(in_buf@, byte_size as nat, last_byte_size as nat);
    if num_bits != 0 {
        let ghost out0 = out@;
        out.push(ResizedByte { bytes: acc, bits: num_bits });
        proof {
            lemma_group_bits_push(out0, ResizedByte { bytes: acc, bits: num_bits });
        }
    }
    proof {
        if num_bits == 0 {
            assert(val_bits(acc, 0) =~= Seq::<bool>::empty());
            assert(group_bits(out@) + val_bits(acc, 0) =~= group_bits(out@));
        }
        assert(group_bits(out@) == all);
        lemma_groups_complete(out@, size as nat);
    }
    out
}

} // verus!
