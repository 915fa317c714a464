//! The laws the codec obeys: a packet decodes back to the message it was
//! encoded from (with booleans in their wire form as the numbers 0 and 1),
//! and a missing leading sentinel fails the decode outright.
//!
//! The round trip excludes two kinds of input the wire format itself cannot
//! carry faithfully: text containing the character 0 (the content region
//! uses zero terminators), and a run of equal type codes whose length
//! leaves remainder 2 when divided by 19 (the header writes one run marker
//! for both 1 and 2 extra repeats, and it always reads back as 2).

use vstd::prelude::*;
use crate::block::{code_of, codes_of, wf_msg, wf_view, ascii_text, BlockView};
use crate::codec::{decode_spec, encode_spec, prepend_codes};
use crate::content::{cons_val, content_dec, content_of, contents_of, le2, le4, scan_zero_byte,
    scan_zero_unit, units_of_bytes, utf16_decode, utf16_le_bytes, utf16_units,
    utf16_units_of_char, lemma_scan_zero_byte, lemma_scan_zero_unit, lemma_units_of_bytes_len};
use crate::header::{flush, hdr_dec, header_nibbles, nibble, nibbles_ok, pack_nibbles, rle,
    run_tail};

verus! {

/// A value as it comes back from a round trip: booleans travel as the
/// numbers 0 and 1, everything else is unchanged.
pub open spec fn norm_view(v: BlockView) -> BlockView {
    match v {
        BlockView::Bool(b) => BlockView::Int(
            if b {
                1
            } else {
                0
            },
        ),
        _ => v,
    }
}

/// A whole message in its wire form.
pub open spec fn norm_msg(m: Seq<BlockView>) -> Seq<BlockView> {
    m.map_values(|v: BlockView| norm_view(v))
}

/// Text free of the character 0, which the wire reserves as a terminator.
pub open spec fn nul_free_view(v: BlockView) -> bool {
    match v {
        BlockView::Text(t) => forall|i: int| 0 <= i < t.len() ==> (#[trigger] t[i]) as u32 != 0,
        _ => true,
    }
}

/// Every text block of the message is free of the character 0.
pub open spec fn nul_free_msg(m: Seq<BlockView>) -> bool {
    forall|i: int| 0 <= i < m.len() ==> nul_free_view(#[trigger] m[i])
}

/// Walk the runs of a code sequence carrying the current code and how often
/// it has occurred so far: true when no run's length leaves remainder 2
/// modulo 19. A run of such a length reads back one longer, because its
/// last flushed marker stands for both 1 and 2 extra repeats.
pub open spec fn runs_ok_from(codes: Seq<u8>, cur: u8, count: nat) -> bool
    decreases codes.len(),
{
    if codes.len() == 0 {
        count % 19 != 2
    } else if codes[0] == cur {
        runs_ok_from(codes.drop_first(), cur, count + 1)
    } else {
        count % 19 != 2 && runs_ok_from(codes.drop_first(), codes[0], 1)
    }
}

/// No run of equal consecutive codes has a length of 2 plus a multiple
/// of 19.
pub open spec fn runs_unambiguous(codes: Seq<u8>) -> bool {
    codes.len() == 0 || runs_ok_from(codes.drop_first(), codes[0], 1)
}

/// How many repeats the decoder reads back from the markers a run tail
/// emits for `extra` repeats.
spec fn run_tail_reps(extra: nat) -> nat
    decreases extra,
{
    if extra == 0 {
        0
    } else if extra > 19 {
        19 + run_tail_reps((extra - 19) as nat)
    } else if extra <= 2 {
        2
    } else if extra == 3 {
        3
    } else {
        extra
    }
}

/// The markers read back exactly `extra` repeats unless `extra` leaves
/// remainder 1 modulo 19 (then they read back one more).
proof fn lemma_run_tail_reps_exact(extra: nat)
    ensures
        run_tail_reps(extra) == extra <==> !(extra % 19 == 1 && extra >= 1),
    decreases extra,
{
    if extra > 19 {
        lemma_run_tail_reps_exact((extra - 19) as nat);
    }
}

/// What the decoder reconstructs from the run-length stream
/// `rle(codes, cur, extra)`: each flushed run comes back as its literal
/// plus the repeats its markers stand for.
spec fn rle_decoded(codes: Seq<u8>, cur: u8, extra: nat) -> Seq<u8>
    decreases codes.len(),
{
    if codes.len() == 0 {
        seq![cur] + Seq::new(run_tail_reps(extra), |x: int| cur)
    } else if codes[0] == cur {
        rle_decoded(codes.drop_first(), cur, (extra + 1) as nat)
    } else {
        (seq![cur] + Seq::new(run_tail_reps(extra), |x: int| cur)) + rle_decoded(
            codes.drop_first(),
            codes[0],
            0,
        )
    }
}

/// When every run is unambiguous, the reconstruction is exact: the pending
/// run's `extra + 1` occurrences of `cur`, then the remaining codes as they
/// were.
proof fn lemma_rle_decoded_exact(codes: Seq<u8>, cur: u8, extra: nat)
    requires
        runs_ok_from(codes, cur, (extra + 1) as nat),
    ensures
        rle_decoded(codes, cur, extra) == Seq::new((extra + 1) as nat, |x: int| cur) + codes,
    decreases codes.len(),
{
    if codes.len() == 0 {
        lemma_run_tail_reps_exact(extra);
        assert(rle_decoded(codes, cur, extra) =~= Seq::new((extra + 1) as nat, |x: int| cur)
            + codes);
    } else if codes[0] == cur {
        lemma_rle_decoded_exact(codes.drop_first(), cur, (extra + 1) as nat);
        assert(rle_decoded(codes, cur, extra) =~= Seq::new((extra + 1) as nat, |x: int| cur)
            + codes);
    } else {
        lemma_run_tail_reps_exact(extra);
        lemma_rle_decoded_exact(codes.drop_first(), codes[0], 0);
        assert(rle_decoded(codes, cur, extra) =~= Seq::new((extra + 1) as nat, |x: int| cur)
            + codes);
    }
}

/// The last literal the run-length stream emits.
spec fn final_code(codes: Seq<u8>, cur: u8) -> u8
    decreases codes.len(),
{
    if codes.len() == 0 {
        cur
    } else {
        final_code(codes.drop_first(), codes[0])
    }
}

/// Every nibble of a run-length stream over 4-bit codes is a 4-bit code.
proof fn lemma_rle_bounded(codes: Seq<u8>, cur: u8, extra: nat)
    requires
        forall|k: int| 0 <= k < codes.len() ==> #[trigger] codes[k] < 16,
        cur < 16,
    ensures
        forall|n: int|
            0 <= n < rle(codes, cur, extra).len() ==> #[trigger] rle(codes, cur, extra)[n] < 16,
    decreases codes.len(),
{
    crate::codec::lemma_run_tail_bounded_pub(extra);
    if codes.len() == 0 {
        assert forall|n: int|
            0 <= n < rle(codes, cur, extra).len() implies #[trigger] rle(
            codes,
            cur,
            extra,
        )[n] < 16 by {
            if n >= 1 {
                assert(flush(cur, extra)[n] == run_tail(extra)[n - 1]);
            }
        }
    } else if codes[0] == cur {
        lemma_rle_bounded(codes.drop_first(), cur, (extra + 1) as nat);
        assert forall|n: int|
            0 <= n < rle(codes, cur, extra).len() implies #[trigger] rle(
            codes,
            cur,
            extra,
        )[n] < 16 by {
            assert(rle(codes, cur, extra)[n] == rle(codes.drop_first(), cur, (extra + 1) as nat)[n]);
        }
    } else {
        lemma_rle_bounded(codes.drop_first(), codes[0], 0);
        assert forall|n: int|
            0 <= n < rle(codes, cur, extra).len() implies #[trigger] rle(
            codes,
            cur,
            extra,
        )[n] < 16 by {
            if n >= flush(cur, extra).len() {
                assert(rle(codes, cur, extra)[n] == rle(codes.drop_first(), codes[0], 0)[n
                    - flush(cur, extra).len()]);
            } else if n >= 1 {
                assert(flush(cur, extra)[n] == run_tail(extra)[n - 1]);
            }
        }
    }
}

/// Reading a packed nibble stream gives each nibble back.
proof fn lemma_nibble_pack(h: Seq<u8>, rest: Seq<u8>, i: int)
    requires
        nibbles_ok(h),
        h.len() % 2 == 0,
        0 <= i < h.len(),
    ensures
        nibble(pack_nibbles(h) + rest, i) == h[i],
{
    let bytes = pack_nibbles(h) + rest;
    assert(bytes[i / 2] == pack_nibbles(h)[i / 2]);
    let a = h[2 * (i / 2)];
    let b = h[2 * (i / 2) + 1];
    assert(pack_nibbles(h)[i / 2] == (a * 16 + b) as u8);
    assert((a * 16 + b) / 16 == a as int);
    assert((a * 16 + b) % 16 == b as int);
    if i % 2 == 0 {
        assert(2 * (i / 2) == i);
    } else {
        assert(2 * (i / 2) + 1 == i);
    }
}

/// Reading the run markers of one flushed run appends exactly the repeats
/// they stand for, leaving the pending literal unchanged.
proof fn lemma_hdr_run_tail(bytes: Seq<u8>, i: nat, cur: u8, extra: nat)
    requires
        i + run_tail(extra).len() <= 2 * bytes.len(),
        forall|n: int|
            0 <= n < run_tail(extra).len() ==> #[trigger] nibble(bytes, i + n) == run_tail(
                extra,
            )[n],
    ensures
        hdr_dec(bytes, i, cur) == prepend_codes(
            Seq::new(run_tail_reps(extra), |x: int| cur),
            hdr_dec(bytes, (i + run_tail(extra).len()) as nat, cur),
        ),
    decreases extra,
{
    if extra == 0 {
        match hdr_dec(bytes, i, cur) {
            Some(t) => {
                assert(Seq::new(0, |x: int| cur) + t.0 =~= t.0);
            },
            None => {},
        }
    } else if extra > 19 {
        assert(run_tail(extra) == seq![14u8, 15u8] + run_tail((extra - 19) as nat));
        assert(nibble(bytes, i as int + 0) == run_tail(extra)[0]);
        assert(nibble(bytes, i as int + 1) == run_tail(extra)[1]);
        assert(nibble(bytes, i as int) == 14);
        assert(nibble(bytes, i as int + 1) == 15);
        assert forall|n: int|
            0 <= n < run_tail((extra - 19) as nat).len() implies #[trigger] nibble(
            bytes,
            i + 2 + n,
        ) == run_tail((extra - 19) as nat)[n] by {
            assert(nibble(bytes, i + (n + 2)) == run_tail(extra)[n + 2]);
            assert(run_tail(extra)[n + 2] == run_tail((extra - 19) as nat)[n]);
        }
        lemma_hdr_run_tail(bytes, (i + 2) as nat, cur, (extra - 19) as nat);
        let tail_rest = hdr_dec(
            bytes,
            (i + run_tail(extra).len()) as nat,
            cur,
        );
        assert(hdr_dec(bytes, (i + 2) as nat, cur) == prepend_codes(
            Seq::new(run_tail_reps((extra - 19) as nat), |x: int| cur),
            tail_rest,
        ));
        match tail_rest {
            Some(t) => {
                assert(Seq::new((4 + 15) as nat, |x: int| cur) + (Seq::new(
                    run_tail_reps((extra - 19) as nat),
                    |x: int| cur,
                ) + t.0) =~= Seq::new(run_tail_reps(extra), |x: int| cur) + t.0);
            },
            None => {},
        }
    } else if extra <= 2 {
        assert(run_tail(extra) == seq![12u8]);
        assert(nibble(bytes, i as int + 0) == run_tail(extra)[0]);
        assert(nibble(bytes, i as int) == 12);
    } else if extra == 3 {
        assert(run_tail(extra) == seq![13u8]);
        assert(nibble(bytes, i as int + 0) == run_tail(extra)[0]);
        assert(nibble(bytes, i as int) == 13);
    } else {
        assert(run_tail(extra) == seq![14u8, (extra - 4) as u8]);
        assert(nibble(bytes, i as int + 0) == run_tail(extra)[0]);
        assert(nibble(bytes, i as int + 1) == run_tail(extra)[1]);
        assert(nibble(bytes, i as int) == 14);
        assert(nibble(bytes, i as int + 1) == (extra - 4) as u8);
        assert(4 + ((extra - 4) as u8) == extra);
    }
}

/// Reading a run-length stream reconstructs each flushed run in order and
/// goes on past the stream with the last literal pending.
#[verifier::rlimit(100)]
proof fn lemma_hdr_rle(bytes: Seq<u8>, i: nat, codes: Seq<u8>, cur: u8, extra: nat, lastc: u8)
    requires
        forall|k: int| 0 <= k < codes.len() ==> #[trigger] codes[k] < 12,
        cur < 12,
        i + rle(codes, cur, extra).len() <= 2 * bytes.len(),
        forall|n: int|
            0 <= n < rle(codes, cur, extra).len() ==> #[trigger] nibble(bytes, i + n) == rle(
                codes,
                cur,
                extra,
            )[n],
    ensures
        hdr_dec(bytes, i, lastc) == prepend_codes(
            rle_decoded(codes, cur, extra),
            hdr_dec(bytes, (i + rle(codes, cur, extra).len()) as nat, final_code(codes, cur)),
        ),
    decreases codes.len(),
{
    if codes.len() == 0 {
        assert(rle(codes, cur, extra) == flush(cur, extra));
        assert(nibble(bytes, i as int + 0) == rle(codes, cur, extra)[0]);
        assert(flush(cur, extra)[0] == cur);
        assert forall|n: int|
            0 <= n < run_tail(extra).len() implies #[trigger] nibble(bytes, i + 1 + n)
            == run_tail(extra)[n] by {
            assert(nibble(bytes, i + (n + 1)) == flush(cur, extra)[n + 1]);
            assert(flush(cur, extra)[n + 1] == run_tail(extra)[n]);
        }
        lemma_hdr_run_tail(bytes, (i + 1) as nat, cur, extra);
        let rest = hdr_dec(bytes, (i + rle(codes, cur, extra).len()) as nat, cur);
        match rest {
            Some(t) => {
                assert(seq![cur] + (Seq::new(run_tail_reps(extra), |x: int| cur) + t.0)
                    =~= (seq![cur] + Seq::new(run_tail_reps(extra), |x: int| cur)) + t.0);
            },
            None => {},
        }
    } else if codes[0] == cur {
        assert(rle(codes, cur, extra) == rle(codes.drop_first(), cur, (extra + 1) as nat));
        lemma_hdr_rle(bytes, i, codes.drop_first(), cur, (extra + 1) as nat, lastc);
        assert(final_code(codes, cur) == final_code(codes.drop_first(), cur));
    } else {
        let f = flush(cur, extra);
        let r2 = rle(codes.drop_first(), codes[0], 0);
        assert(rle(codes, cur, extra) == f + r2);
        assert(nibble(bytes, i as int + 0) == rle(codes, cur, extra)[0]);
        assert(rle(codes, cur, extra)[0] == f[0]);
        assert(f[0] == cur);
        assert forall|n: int|
            0 <= n < run_tail(extra).len() implies #[trigger] nibble(bytes, i + 1 + n)
            == run_tail(extra)[n] by {
            assert(nibble(bytes, i + (n + 1)) == rle(codes, cur, extra)[n + 1]);
            assert(rle(codes, cur, extra)[n + 1] == f[n + 1]);
            assert(f[n + 1] == run_tail(extra)[n]);
        }
        lemma_hdr_run_tail(bytes, (i + 1) as nat, cur, extra);
        assert forall|n: int|
            0 <= n < r2.len() implies #[trigger] nibble(bytes, (i + f.len()) + n) == r2[n] by {
            assert(nibble(bytes, i + (f.len() + n)) == rle(codes, cur, extra)[f.len() + n]);
            assert(rle(codes, cur, extra)[f.len() + n] == r2[n]);
        }
        lemma_hdr_rle(bytes, (i + f.len()) as nat, codes.drop_first(), codes[0], 0, cur);
        assert(final_code(codes, cur) == final_code(codes.drop_first(), codes[0]));
        let rest = hdr_dec(
            bytes,
            (i + rle(codes, cur, extra).len()) as nat,
            final_code(codes, cur),
        );
        assert((i + f.len()) + r2.len() == i + rle(codes, cur, extra).len());
        match rest {
            Some(t) => {
                assert(seq![cur] + (Seq::new(run_tail_reps(extra), |x: int| cur)
                    + (rle_decoded(codes.drop_first(), codes[0], 0) + t.0)) =~= ((seq![cur]
                    + Seq::new(run_tail_reps(extra), |x: int| cur)) + rle_decoded(
                    codes.drop_first(),
                    codes[0],
                    0,
                )) + t.0);
            },
            None => {},
        }
    }
}


/// The two little-endian bytes of a 16-bit value recombine to it.
proof fn lemma_le2_round(n: int)
    requires
        0 <= n < 0x10000,
    ensures
        le2(n)[0] + le2(n)[1] * 256 == n,
{
    vstd::arithmetic::div_mod::lemma_fundamental_div_mod(n, 256);
    assert(n / 256 < 256);
}

/// The four little-endian bytes of a 32-bit value recombine to it.
proof fn lemma_le4_round(n: int)
    requires
        0 <= n < 0x1_0000_0000,
    ensures
        le4(n)[0] + le4(n)[1] * 256 + le4(n)[2] * 0x10000 + le4(n)[3] * 0x1000000 == n,
{
    vstd::arithmetic::div_mod::lemma_fundamental_div_mod(n, 256);
    vstd::arithmetic::div_mod::lemma_fundamental_div_mod(n / 256, 256);
    vstd::arithmetic::div_mod::lemma_fundamental_div_mod(n / 0x10000, 256);
    vstd::arithmetic::div_mod::lemma_div_denominator(n, 256, 256);
    vstd::arithmetic::div_mod::lemma_div_denominator(n, 0x10000, 256);
    assert(n / 0x1000000 < 256);
    assert((n / 0x1000000) % 256 == n / 0x1000000) by {
        vstd::arithmetic::div_mod::lemma_fundamental_div_mod(n / 0x1000000, 256);
    }
}

/// The little-endian bytes of a unit sequence, unit by unit.
proof fn lemma_utf16_le_bytes_index(units: Seq<u16>)
    ensures
        utf16_le_bytes(units).len() == 2 * units.len(),
        forall|i: int|
            #![trigger units[i]]
            0 <= i < units.len() ==> utf16_le_bytes(units)[2 * i] == (units[i] % 256) as u8
                && utf16_le_bytes(units)[2 * i + 1] == (units[i] / 256) as u8,
    decreases units.len(),
{
    if units.len() > 0 {
        lemma_utf16_le_bytes_index(units.drop_first());
        assert forall|i: int|
            #![trigger units[i]]
            0 <= i < units.len() implies utf16_le_bytes(units)[2 * i] == (units[i] % 256) as u8
            && utf16_le_bytes(units)[2 * i + 1] == (units[i] / 256) as u8 by {
            if i > 0 {
                assert(units.drop_first()[i - 1] == units[i]);
                assert(utf16_le_bytes(units)[2 * i] == utf16_le_bytes(units.drop_first())[2 * (i
                    - 1)]);
                assert(utf16_le_bytes(units)[2 * i + 1] == utf16_le_bytes(units.drop_first())[2
                    * (i - 1) + 1]);
            }
        }
    }
}

/// Reading the little-endian bytes of a unit sequence gives the units back.
proof fn lemma_units_inverse(units: Seq<u16>)
    ensures
        units_of_bytes(utf16_le_bytes(units)) == units,
    decreases units.len(),
{
    if units.len() == 0 {
        assert(units_of_bytes(utf16_le_bytes(units)) =~= units);
    } else {
        let u = units[0];
        let bs = utf16_le_bytes(units);
        lemma_units_inverse(units.drop_first());
        assert(bs[0] == (u % 256) as u8);
        assert(bs[1] == (u / 256) as u8);
        vstd::arithmetic::div_mod::lemma_fundamental_div_mod(u as int, 256);
        assert(bs[0] + bs[1] * 256 == u as int);
        assert(bs.skip(2) =~= utf16_le_bytes(units.drop_first()));
        assert(units_of_bytes(bs) =~= units);
    }
}

/// Decoding the UTF-16 units of a character sequence gives it back.
proof fn lemma_utf16_decode_units(t: Seq<char>)
    ensures
        utf16_decode(utf16_units(t)) == Some(t),
    decreases t.len(),
{
    if t.len() == 0 {
        assert(utf16_decode(utf16_units(t)) == Some(Seq::<char>::empty()));
        assert(Seq::<char>::empty() =~= t);
    } else {
        let c = t[0];
        vstd::utf8::char_is_scalar(c);
        vstd::utf8::char_u32_cast(c, c as u32);
        lemma_utf16_decode_units(t.drop_first());
        let us = utf16_units(t);
        if (c as u32) < 0x10000 {
            let u = (c as u32) as u16;
            assert(us[0] == u);
            assert(u < 0xD800 || u >= 0xE000);
            assert(us.drop_first() =~= utf16_units(t.drop_first()));
            assert((us[0] as char) == c);
            assert(seq![c] + t.drop_first() =~= t);
        } else {
            let x = (c as u32) - 0x10000;
            let hu = (0xD800 + x / 0x400) as u16;
            let lu = (0xDC00 + x % 0x400) as u16;
            assert(us[0] == hu);
            assert(us[1] == lu);
            assert(us.len() >= 2);
            assert(us.skip(2) =~= utf16_units(t.drop_first()));
            vstd::arithmetic::div_mod::lemma_fundamental_div_mod(x, 0x400);
            assert(0x10000 + (hu - 0xD800) * 0x400 + (lu - 0xDC00) == c as u32);
            assert((((0x10000 + (hu - 0xD800) * 0x400 + (lu - 0xDC00)) as int) as char) == c);
            assert(seq![c] + t.drop_first() =~= t);
        }
    }
}

/// No unit of zero-free text is the zero unit.
proof fn lemma_utf16_units_nonzero(t: Seq<char>)
    requires
        forall|i: int| 0 <= i < t.len() ==> (#[trigger] t[i]) as u32 != 0,
    ensures
        forall|i: int| 0 <= i < utf16_units(t).len() ==> #[trigger] utf16_units(t)[i] != 0,
    decreases t.len(),
{
    if t.len() > 0 {
        let c = t[0];
        vstd::utf8::char_is_scalar(c);
        assert(forall|i: int|
            0 <= i < t.drop_first().len() ==> (#[trigger] t.drop_first()[i]) as u32 != 0);
        lemma_utf16_units_nonzero(t.drop_first());
        let head = utf16_units_of_char(c);
        assert forall|i: int|
            0 <= i < utf16_units(t).len() implies #[trigger] utf16_units(t)[i] != 0 by {
            if i < head.len() {
                assert(utf16_units(t)[i] == head[i]);
                assert(c as u32 != 0);
            } else {
                assert(utf16_units(t)[i] == utf16_units(t.drop_first())[i - head.len()]);
            }
        }
    }
}



/// Reading one value's content bytes from the position they start at
/// yields the value in its wire form and leaves the remaining type codes
/// to be read from just past it, whatever bytes follow.
#[verifier::rlimit(100)]
proof fn lemma_content_step(bytes: Seq<u8>, pos: nat, v: BlockView, rest: Seq<u8>)
    requires
        wf_view(v),
        nul_free_view(v),
        pos + content_of(v).len() <= bytes.len(),
        forall|k: int|
            0 <= k < content_of(v).len() ==> #[trigger] bytes[pos as int + k] == content_of(v)[k],
    ensures
        content_dec(bytes, pos, seq![code_of(v)] + rest) == cons_val(
            norm_view(v),
            content_dec(bytes, (pos + content_of(v).len()) as nat, rest),
        ),
{
    let cv = content_of(v);
    let cs0 = seq![code_of(v)] + rest;
    assert(cs0[0] == code_of(v));
    assert(cs0.drop_first() =~= rest);
    let tail_dec = content_dec(bytes, (pos + cv.len()) as nat, rest);
    match v {
        BlockView::Bool(b) => {
            assert(cv =~= Seq::<u8>::empty());
            assert(content_dec(bytes, pos, cs0) == cons_val(norm_view(v), tail_dec));
        },
        BlockView::Int(n) => {
            if n == 0 || n == 1 {
                assert(cv =~= Seq::<u8>::empty());
                assert(content_dec(bytes, pos, cs0) == cons_val(norm_view(v), tail_dec));
            } else if 2 <= n < 0x100 {
                assert(bytes[pos as int + 0] == cv[0]);
                assert(cv[0] == n as u8);
                assert(bytes[pos as int] as int == n);
                assert(content_dec(bytes, pos, cs0) == cons_val(norm_view(v), tail_dec));
            } else if -0x100 <= n < 0 {
                assert(bytes[pos as int + 0] == cv[0]);
                assert(cv[0] == (n + 0x100) as u8);
                assert(bytes[pos as int] - 0x100 == n);
                assert(content_dec(bytes, pos, cs0) == cons_val(norm_view(v), tail_dec));
            } else if 0x100 <= n < 0x10000 {
                assert(bytes[pos as int + 0] == cv[0]);
                assert(bytes[pos as int + 1] == cv[1]);
                lemma_le2_round(n);
                assert(bytes[pos as int] + bytes[pos as int + 1] * 256 == n);
                assert(content_dec(bytes, pos, cs0) == cons_val(norm_view(v), tail_dec));
            } else if -0x10000 <= n < -0x100 {
                assert(bytes[pos as int + 0] == cv[0]);
                assert(bytes[pos as int + 1] == cv[1]);
                lemma_le2_round(n + 0x10000);
                assert(bytes[pos as int] + bytes[pos as int + 1] * 256 - 0x10000 == n);
                assert(content_dec(bytes, pos, cs0) == cons_val(norm_view(v), tail_dec));
            } else if 0x10000 <= n < 0x1_0000_0000 {
                assert(bytes[pos as int + 0] == cv[0]);
                assert(bytes[pos as int + 1] == cv[1]);
                assert(bytes[pos as int + 2] == cv[2]);
                assert(bytes[pos as int + 3] == cv[3]);
                lemma_le4_round(n);
                assert(bytes[pos as int] + bytes[pos as int + 1] * 256 + bytes[pos as int + 2]
                    * 0x10000 + bytes[pos as int + 3] * 0x1000000 == n);
                assert(content_dec(bytes, pos, cs0) == cons_val(norm_view(v), tail_dec));
            } else {
                assert(-0x1_0000_0000 <= n < -0x10000);
                assert(bytes[pos as int + 0] == cv[0]);
                assert(bytes[pos as int + 1] == cv[1]);
                assert(bytes[pos as int + 2] == cv[2]);
                assert(bytes[pos as int + 3] == cv[3]);
                lemma_le4_round(n + 0x1_0000_0000);
                assert(bytes[pos as int] + bytes[pos as int + 1] * 256 + bytes[pos as int + 2]
                    * 0x10000 + bytes[pos as int + 3] * 0x1000000 - 0x1_0000_0000 == n);
                assert(content_dec(bytes, pos, cs0) == cons_val(norm_view(v), tail_dec));
            }
        },
        BlockView::F32(bits) => {
            assert(bytes[pos as int + 0] == cv[0]);
            assert(bytes[pos as int + 1] == cv[1]);
            assert(bytes[pos as int + 2] == cv[2]);
            assert(bytes[pos as int + 3] == cv[3]);
            lemma_le4_round(bits as int);
            assert(bytes[pos as int] + bytes[pos as int + 1] * 256 + bytes[pos as int + 2]
                * 0x10000 + bytes[pos as int + 3] * 0x1000000 == bits as int);
            assert(content_dec(bytes, pos, cs0) == cons_val(norm_view(v), tail_dec));
        },
        BlockView::Text(t) => {
            if ascii_text(t) && t.len() == 0 {
                assert(bytes[pos as int + 0] == cv[0]);
                assert(cv[0] == 0);
                assert(t =~= Seq::<char>::empty());
                assert(content_dec(bytes, pos, cs0) == cons_val(norm_view(v), tail_dec));
            } else if ascii_text(t) && t.len() == 1 {
                assert(bytes[pos as int + 0] == cv[0]);
                assert(cv[0] == ((t[0] as u32) as u8));
                assert(t[0] as u32 != 0);
                assert((t[0] as u32) < 0x80);
                assert(cv[0] != 0);
                vstd::utf8::char_u32_cast(t[0], t[0] as u32);
                assert((bytes[pos as int] as char) == t[0]);
                assert(seq![(bytes[pos as int] as char)] =~= t);
                assert(content_dec(bytes, pos, cs0) == cons_val(norm_view(v), tail_dec));
            } else if ascii_text(t) {
                let bs = t.map_values(|c: char| (c as u32) as u8);
                assert(cv == bs + seq![0u8]);
                assert forall|k: int| pos <= k < pos + t.len() implies bytes[k] != 0 by {
                    assert(bytes[pos as int + (k - pos)] == cv[k - pos]);
                    assert(cv[k - pos] == bs[k - pos]);
                    assert(bs[k - pos] == ((t[k - pos] as u32) as u8));
                    assert(t[k - pos] as u32 != 0 && (t[k - pos] as u32) < 0x80);
                }
                assert(bytes[pos as int + t.len()] == cv[t.len() as int]);
                assert(cv[t.len() as int] == 0);
                lemma_scan_zero_byte(bytes, pos, (pos + t.len()) as nat);
                assert(scan_zero_byte(bytes, pos) == Some((pos + t.len()) as nat));
                assert(bytes.subrange(pos as int, pos as int + t.len()).map_values(
                    |x: u8| x as char,
                ) =~= t) by {
                    assert forall|k: int| 0 <= k < t.len() implies bytes.subrange(
                        pos as int,
                        pos as int + t.len(),
                    ).map_values(|x: u8| x as char)[k] == t[k] by {
                        assert(bytes[pos as int + k] == cv[k]);
                        assert(cv[k] == bs[k]);
                        assert(bs[k] == ((t[k] as u32) as u8));
                        vstd::utf8::char_u32_cast(t[k], t[k] as u32);
                    }
                }
                assert((pos + t.len() + 1) as nat == pos + cv.len());
                assert(content_dec(bytes, pos, cs0) == cons_val(norm_view(v), tail_dec));
            } else {
                let us = utf16_units(t);
                let ul = us.len() as int;
                assert(cv == utf16_le_bytes(us) + seq![0u8, 0u8]);
                lemma_utf16_le_bytes_index(us);
                lemma_utf16_units_nonzero(t);
                assert forall|k: int|
                    pos <= k < pos + 2 * ul && (k - pos) % 2 == 0 implies !(#[trigger] bytes[k]
                    == 0 && bytes[k + 1] == 0) by {
                    let i = (k - pos) / 2;
                    assert(2 * i == k - pos);
                    assert(bytes[pos as int + 2 * i] == cv[2 * i]);
                    assert(bytes[pos as int + (2 * i + 1)] == cv[2 * i + 1]);
                    assert(cv[2 * i] == utf16_le_bytes(us)[2 * i]);
                    assert(cv[2 * i + 1] == utf16_le_bytes(us)[2 * i + 1]);
                    assert(utf16_le_bytes(us)[2 * i] == (us[i] % 256) as u8);
                    assert(utf16_le_bytes(us)[2 * i + 1] == (us[i] / 256) as u8);
                    assert(us[i] != 0);
                    vstd::arithmetic::div_mod::lemma_fundamental_div_mod(us[i] as int, 256);
                }
                assert(bytes[pos as int + 2 * ul] == cv[2 * ul]);
                assert(bytes[pos as int + (2 * ul + 1)] == cv[2 * ul + 1]);
                assert(cv[2 * ul] == 0 && cv[2 * ul + 1] == 0);
                lemma_scan_zero_unit(bytes, pos, (pos + 2 * ul) as nat);
                assert(scan_zero_unit(bytes, pos) == Some((pos + 2 * ul) as nat));
                assert(bytes.subrange(pos as int, pos as int + 2 * ul) =~= utf16_le_bytes(us)) by {
                    assert forall|k: int| 0 <= k < 2 * ul implies bytes.subrange(
                        pos as int,
                        pos as int + 2 * ul,
                    )[k] == utf16_le_bytes(us)[k] by {
                        assert(bytes[pos as int + k] == cv[k]);
                        assert(cv[k] == utf16_le_bytes(us)[k]);
                    }
                }
                lemma_units_inverse(us);
                lemma_utf16_decode_units(t);
                assert(utf16_decode(
                    units_of_bytes(bytes.subrange(pos as int, pos as int + 2 * ul)),
                ) == Some(t));
                assert((pos + 2 * ul + 2) as nat == pos + cv.len());
                assert(content_dec(bytes, pos, cs0) == cons_val(norm_view(v), tail_dec));
            }
        },
    }
}

/// Reading the content region written for a message gives the message back
/// in its wire form, whatever bytes follow it.
proof fn lemma_content_round(bytes: Seq<u8>, pos: nat, m: Seq<BlockView>)
    requires
        wf_msg(m),
        nul_free_msg(m),
        pos + contents_of(m).len() <= bytes.len(),
        forall|k: int|
            0 <= k < contents_of(m).len() ==> #[trigger] bytes[pos as int + k] == contents_of(
                m,
            )[k],
    ensures
        content_dec(bytes, pos, codes_of(m)) == Some(norm_msg(m)),
    decreases m.len(),
{
    if m.len() == 0 {
        assert(codes_of(m).len() == 0);
        assert(norm_msg(m) =~= Seq::<BlockView>::empty());
    } else {
        let v = m[0];
        let cv = content_of(v);
        let m2 = m.drop_first();
        let cw = contents_of(m);
        assert(cw == cv + contents_of(m2));
        assert(wf_view(v));
        assert(nul_free_view(v));
        assert forall|i: int| 0 <= i < m2.len() implies wf_view(#[trigger] m2[i])
            && nul_free_view(m2[i]) by {
            assert(m2[i] == m[i + 1]);
        }
        assert forall|k: int| 0 <= k < cv.len() implies #[trigger] bytes[pos as int + k]
            == cv[k] by {
            assert(bytes[pos as int + k] == cw[k]);
            assert(cw[k] == cv[k]);
        }
        assert forall|k: int|
            0 <= k < contents_of(m2).len() implies #[trigger] bytes[(pos + cv.len()) as int + k]
            == contents_of(m2)[k] by {
            assert(bytes[pos as int + (cv.len() + k)] == cw[cv.len() + k]);
            assert(cw[cv.len() + k] == contents_of(m2)[k]);
        }
        lemma_content_step(bytes, pos, v, codes_of(m2));
        lemma_content_round(bytes, (pos + cv.len()) as nat, m2);
        assert(codes_of(m) =~= seq![code_of(v)] + codes_of(m2));
        assert(seq![norm_view(v)] + norm_msg(m2) =~= norm_msg(m));
    }
}

/// A run-length stream always holds at least its pending literal.
proof fn lemma_rle_len_pos(codes: Seq<u8>, cur: u8, extra: nat)
    ensures
        rle(codes, cur, extra).len() >= 1,
    decreases codes.len(),
{
    if codes.len() > 0 && codes[0] == cur {
        lemma_rle_len_pos(codes.drop_first(), cur, (extra + 1) as nat);
    }
}

/// Decoding fails outright when the packet is empty or the high nibble of
/// its first byte is not the sentinel 15; no further byte is consulted.
pub proof fn lemma_sentinel_required(bytes: Seq<u8>)
    requires
        bytes.len() == 0 || bytes[0] / 16 != 15,
    ensures
        decode_spec(bytes) is None,
{
}

/// The header of an encoded packet opens with the sentinel and reads back
/// as exactly the message's type codes, with the content region starting
/// right after the packed header bytes.
#[verifier::rlimit(100)]
proof fn lemma_encode_header(m: Seq<BlockView>)
    requires
        runs_unambiguous(codes_of(m)),
    ensures
        ({
            let bytes = encode_spec(m);
            let packed = pack_nibbles(header_nibbles(codes_of(m)));
            &&& bytes == packed + contents_of(m)
            &&& packed.len() >= 1
            &&& bytes.len() == packed.len() + contents_of(m).len()
            &&& nibble(bytes, 0) == 15
            &&& hdr_dec(bytes, 1, 15) == Some((codes_of(m), packed.len() as nat))
        }),
{
    let codes = codes_of(m);
    let r0 = rle(codes, 15, 0);
    let s = r0 + seq![15u8];
    let hn = header_nibbles(codes);
    let packed = pack_nibbles(hn);
    let cw = contents_of(m);
    let bytes = encode_spec(m);
    assert(bytes == packed + cw);
    assert forall|k: int| 0 <= k < codes.len() implies #[trigger] codes[k] < 12 by {
        assert(codes[k] == code_of(m[k]));
    }
    lemma_rle_bounded(codes, 15, 0);
    lemma_rle_len_pos(codes, 15, 0);
    assert forall|n: int| 0 <= n < hn.len() implies #[trigger] hn[n] < 16 by {
        if n < r0.len() {
            assert(hn[n] == r0[n]);
        }
    }
    assert(hn.len() % 2 == 0);
    assert(packed.len() == hn.len() / 2);
    assert(hn.len() >= 2);
    assert(bytes.len() >= packed.len());
    assert forall|n: int| 0 <= n < hn.len() implies #[trigger] nibble(bytes, n) == hn[n] by {
        lemma_nibble_pack(hn, cw, n);
    }
    assert(2 * packed.len() == hn.len());
    assert(flush(15u8, 0) =~= seq![15u8]);
    if codes.len() == 0 {
        assert(r0 == flush(15u8, 0));
        assert(hn =~= seq![15u8, 15u8]);
        assert(nibble(bytes, 0) == 15);
        assert(nibble(bytes, 1) == 15);
        assert(1 < 2 * bytes.len());
        assert(hdr_dec(bytes, 1, 15) == Some((Seq::<u8>::empty(), 1nat)));
        assert(packed.len() == 1);
        assert(Seq::<u8>::empty() =~= codes);
    } else {
        let c0 = codes[0];
        let codes2 = codes.drop_first();
        assert(c0 != 15);
        assert(r0 == flush(15u8, 0) + rle(codes2, c0, 0));
        let r2 = rle(codes2, c0, 0);
        let li = r2.len() as int;
        assert(r0.len() == 1 + li);
        assert(r0[0] == 15);
        assert(hn[0] == r0[0]);
        assert(nibble(bytes, 0) == 15);
        assert forall|k: int| 0 <= k < codes2.len() implies #[trigger] codes2[k] < 12 by {
            assert(codes2[k] == codes[k + 1]);
        }
        assert forall|n: int| 0 <= n < li implies #[trigger] nibble(bytes, 1 + n) == r2[n] by {
            assert(nibble(bytes, 1 + n) == hn[1 + n]);
            assert(hn[1 + n] == r0[1 + n]);
            assert(r0[1 + n] == r2[n]);
        }
        assert(1 + li <= 2 * bytes.len());
        lemma_hdr_rle(bytes, 1, codes2, c0, 0, 15);
        assert(nibble(bytes, 1 + li) == hn[1 + li]);
        assert(hn[1 + li] == s[1 + li]);
        assert(s[1 + li] == 15);
        assert(1 + li < 2 * bytes.len());
        let cptr = (((1 + li) + 2) / 2) as nat;
        assert(hdr_dec(bytes, (1 + li) as nat, final_code(codes2, c0)) == Some(
            (Seq::<u8>::empty(), cptr),
        ));
        assert(cptr == packed.len());
        lemma_rle_decoded_exact(codes2, c0, 0);
        assert(rle_decoded(codes2, c0, 0) =~= codes);
        assert(hdr_dec(bytes, 1, 15) == Some((codes + Seq::<u8>::empty(), cptr)));
        assert(codes + Seq::<u8>::empty() =~= codes);
    }
}

/// The round trip: a well-formed message whose text is free of the
/// character 0 and whose type-code runs are unambiguous decodes from its
/// own packet back to its wire form - every value unchanged, booleans as
/// the numbers 1 and 0. When the message holds no booleans, decoding
/// gives back the very message that was encoded.
pub proof fn lemma_round_trip(m: Seq<BlockView>)
    requires
        wf_msg(m),
        nul_free_msg(m),
        runs_unambiguous(codes_of(m)),
    ensures
        decode_spec(encode_spec(m)) == Some(norm_msg(m)),
        (forall|i: int| 0 <= i < m.len() ==> !((#[trigger] m[i]) is Bool)) ==> decode_spec(
            encode_spec(m),
        ) == Some(m),
{
    lemma_encode_header(m);
    let bytes = encode_spec(m);
    let packed = pack_nibbles(header_nibbles(codes_of(m)));
    let cw = contents_of(m);
    assert forall|k: int| 0 <= k < cw.len() implies #[trigger] bytes[packed.len() + k]
        == cw[k] by {
        assert(bytes[packed.len() + k] == (packed + cw)[packed.len() + k]);
    }
    lemma_content_round(bytes, packed.len() as nat, m);
    assert(decode_spec(bytes) == Some(norm_msg(m)));
    if forall|i: int| 0 <= i < m.len() ==> !((#[trigger] m[i]) is Bool) {
        assert(norm_msg(m) =~= m) by {
            assert forall|i: int| 0 <= i < m.len() implies norm_msg(m)[i] == m[i] by {
                assert(!(m[i] is Bool));
            }
        }
    }
}

/// A header decode that succeeds reports a content start past every nibble
/// it read, and within the packet.
proof fn lemma_hdr_dec_bounds(bytes: Seq<u8>, i: nat, last: u8)
    ensures
        hdr_dec(bytes, i, last) matches Some(r) ==> 2 * r.1 >= i + 1 && r.1 <= bytes.len(),
    decreases 2 * bytes.len() - i,
{
    if i < 2 * bytes.len() {
        let n = nibble(bytes, i as int);
        if n == 15 {
        } else if n < 14 {
            lemma_hdr_dec_bounds(bytes, (i + 1) as nat, if n < 12 {
                n
            } else {
                last
            });
        } else if i + 1 < 2 * bytes.len() {
            lemma_hdr_dec_bounds(bytes, (i + 2) as nat, last);
        }
    }
}

/// Cutting a packet short keeps the header readable only as far as the cut:
/// the header decodes identically when it ends before the cut, and fails
/// otherwise.
proof fn lemma_hdr_dec_truncate(bytes: Seq<u8>, i: nat, last: u8, b: int)
    requires
        0 <= b <= bytes.len(),
    ensures
        hdr_dec(bytes, i, last) matches Some(r) ==> hdr_dec(bytes.take(b), i, last) == (
        if r.1 <= b {
            Some(r)
        } else {
            None
        }),
    decreases 2 * bytes.len() - i,
{
    let t = bytes.take(b);
    match hdr_dec(bytes, i, last) {
        Some(r) => {
            lemma_hdr_dec_bounds(bytes, i, last);
            assert(i < 2 * bytes.len());
            let n = nibble(bytes, i as int);
            if i >= 2 * b {
                assert(2 * r.1 >= i + 1);
                assert(r.1 > b);
                assert(hdr_dec(t, i, last) is None);
            } else {
                assert(t[i as int / 2] == bytes[i as int / 2]);
                assert(nibble(t, i as int) == n);
                if n == 15 {
                    assert(r == (Seq::<u8>::empty(), ((i + 2) / 2) as nat));
                    assert(r.1 <= b);
                } else if n < 14 {
                    let nl = if n < 12 {
                        n
                    } else {
                        last
                    };
                    lemma_hdr_dec_truncate(bytes, (i + 1) as nat, nl, b);
                    lemma_hdr_dec_bounds(bytes, (i + 1) as nat, nl);
                } else {
                    assert(i + 1 < 2 * bytes.len());
                    if i + 1 >= 2 * b {
                        lemma_hdr_dec_bounds(bytes, (i + 2) as nat, last);
                        assert(2 * r.1 >= i + 3);
                        assert(r.1 > b);
                        assert(i + 1 >= 2 * t.len());
                        assert(hdr_dec(t, i, last) is None);
                    } else {
                        assert(t[(i as int + 1) / 2] == bytes[(i as int + 1) / 2]);
                        assert(nibble(t, i as int + 1) == nibble(bytes, i as int + 1));
                        lemma_hdr_dec_truncate(bytes, (i + 2) as nat, last, b);
                        lemma_hdr_dec_bounds(bytes, (i + 2) as nat, last);
                    }
                }
            }
        },
        None => {},
    }
}

/// Cutting a packet anywhere inside the content region written for a
/// message makes the content read fail: a fixed-width field loses bytes,
/// and a terminator is no longer found.
#[verifier::rlimit(100)]
proof fn lemma_content_trunc(bytes: Seq<u8>, pos: nat, m: Seq<BlockView>, b: int)
    requires
        wf_msg(m),
        nul_free_msg(m),
        pos + contents_of(m).len() <= bytes.len(),
        forall|k: int|
            0 <= k < contents_of(m).len() ==> #[trigger] bytes[pos as int + k] == contents_of(
                m,
            )[k],
        pos <= b < pos + contents_of(m).len(),
    ensures
        content_dec(bytes.take(b), pos, codes_of(m)) is None,
    decreases m.len(),
{
    let t = bytes.take(b);
    let v = m[0];
    let cv = content_of(v);
    let m2 = m.drop_first();
    let cw = contents_of(m);
    assert(cw == cv + contents_of(m2));
    assert(wf_view(v));
    assert(nul_free_view(v));
    assert forall|i: int| 0 <= i < m2.len() implies wf_view(#[trigger] m2[i]) && nul_free_view(
        m2[i],
    ) by {
        assert(m2[i] == m[i + 1]);
    }
    assert forall|k: int| 0 <= k < cv.len() implies #[trigger] bytes[pos as int + k] == cv[k] by {
        assert(bytes[pos as int + k] == cw[k]);
        assert(cw[k] == cv[k]);
    }
    assert(codes_of(m) =~= seq![code_of(v)] + codes_of(m2));
    if pos + cv.len() <= b {
        assert forall|k: int| 0 <= k < cv.len() implies #[trigger] t[pos as int + k] == cv[k] by {
            assert(t[pos as int + k] == bytes[pos as int + k]);
        }
        lemma_content_step(t, pos, v, codes_of(m2));
        assert forall|k: int|
            0 <= k < contents_of(m2).len() implies #[trigger] bytes[(pos + cv.len()) as int + k]
            == contents_of(m2)[k] by {
            assert(bytes[pos as int + (cv.len() + k)] == cw[cv.len() + k]);
            assert(cw[cv.len() + k] == contents_of(m2)[k]);
        }
        lemma_content_trunc(bytes, (pos + cv.len()) as nat, m2, b);
    } else {
        let cs0 = seq![code_of(v)] + codes_of(m2);
        assert(cs0[0] == code_of(v));
        assert(cs0.drop_first() =~= codes_of(m2));
        match v {
            BlockView::Bool(x) => {
                assert(false);
            },
            BlockView::Int(n) => {
                if n == 0 || n == 1 {
                    assert(false);
                } else {
                    assert(pos + cv.len() > t.len());
                    assert(content_dec(t, pos, cs0) is None);
                }
            },
            BlockView::F32(bits) => {
                assert(pos + cv.len() > t.len());
                assert(content_dec(t, pos, cs0) is None);
            },
            BlockView::Text(tx) => {
                if ascii_text(tx) && tx.len() <= 1 {
                    assert(pos + 1 > t.len());
                    assert(content_dec(t, pos, cs0) is None);
                } else if ascii_text(tx) {
                    let bs = tx.map_values(|c: char| (c as u32) as u8);
                    assert(cv == bs + seq![0u8]);
                    assert(b - pos <= tx.len());
                    assert forall|k: int| pos <= k < t.len() implies t[k] != 0 by {
                        assert(t[k] == bytes[k]);
                        assert(bytes[pos as int + (k - pos)] == cv[k - pos]);
                        assert(cv[k - pos] == bs[k - pos]);
                        assert(bs[k - pos] == ((tx[k - pos] as u32) as u8));
                        assert(tx[k - pos] as u32 != 0 && (tx[k - pos] as u32) < 0x80);
                    }
                    lemma_scan_zero_byte(t, pos, t.len());
                    assert(scan_zero_byte(t, pos) is None);
                    assert(content_dec(t, pos, cs0) is None);
                } else {
                    let us = utf16_units(tx);
                    let ul = us.len() as int;
                    assert(cv == utf16_le_bytes(us) + seq![0u8, 0u8]);
                    lemma_utf16_le_bytes_index(us);
                    lemma_utf16_units_nonzero(tx);
                    let d = b - pos;
                    let q: int = if d % 2 == 0 {
                        b
                    } else {
                        b - 1
                    };
                    assert((q - pos) % 2 == 0);
                    assert(q - pos <= 2 * ul);
                    assert forall|k: int|
                        pos <= k < q && (k - pos) % 2 == 0 implies !(#[trigger] t[k] == 0 && t[k
                        + 1] == 0) by {
                        let i = (k - pos) / 2;
                        assert(2 * i == k - pos);
                        assert(t[k] == bytes[k]);
                        assert(t[k + 1] == bytes[k + 1]);
                        assert(bytes[pos as int + 2 * i] == cv[2 * i]);
                        assert(bytes[pos as int + (2 * i + 1)] == cv[2 * i + 1]);
                        assert(cv[2 * i] == utf16_le_bytes(us)[2 * i]);
                        assert(cv[2 * i + 1] == utf16_le_bytes(us)[2 * i + 1]);
                        assert(utf16_le_bytes(us)[2 * i] == (us[i] % 256) as u8);
                        assert(utf16_le_bytes(us)[2 * i + 1] == (us[i] / 256) as u8);
                        assert(us[i] != 0);
                        vstd::arithmetic::div_mod::lemma_fundamental_div_mod(us[i] as int, 256);
                    }
                    lemma_scan_zero_unit(t, pos, q as nat);
                    assert(t.len() < q + 2);
                    assert(scan_zero_unit(t, pos) is None);
                    assert(content_dec(t, pos, cs0) is None);
                }
            },
        }
    }
}

/// Truncation safety: cutting the packet of a round-trippable message at
/// any byte boundary leaves bytes that fail to decode - never a silently
/// shorter message.
pub proof fn lemma_truncation_fails(m: Seq<BlockView>, b: int)
    requires
        wf_msg(m),
        nul_free_msg(m),
        runs_unambiguous(codes_of(m)),
        0 <= b < encode_spec(m).len(),
    ensures
        decode_spec(encode_spec(m).take(b)) is None,
{
    lemma_encode_header(m);
    let bytes = encode_spec(m);
    let packed = pack_nibbles(header_nibbles(codes_of(m)));
    let cw = contents_of(m);
    let t = bytes.take(b);
    if b == 0 {
        assert(t.len() == 0);
    } else {
        assert(t[0] == bytes[0]);
        assert(nibble(t, 0) == nibble(bytes, 0));
        lemma_hdr_dec_truncate(bytes, 1, 15, b);
        if packed.len() <= b {
            assert(hdr_dec(t, 1, 15) == Some((codes_of(m), packed.len() as nat)));
            assert(cw.len() > 0);
            assert forall|k: int| 0 <= k < cw.len() implies #[trigger] bytes[packed.len() as int
                + k] == cw[k] by {
                assert(bytes[packed.len() + k] == (packed + cw)[packed.len() + k]);
            }
            lemma_content_trunc(bytes, packed.len() as nat, m, b);
            assert(decode_spec(t) is None);
        } else {
            assert(hdr_dec(t, 1, 15) is None);
            assert(decode_spec(t) is None);
        }
    }
}

} // verus!
