//! The encoder and decoder: a packet is the packed header nibbles followed
//! by the content region.

use vstd::prelude::*;
use crate::block::{code_of, codes_of, msg_view, wf_msg, wf_view, ascii_char, ascii_text, Block,
    BlockView};
use crate::content::{cons_val, content_dec, content_of, contents_of, le4, le_unit,
    lemma_scan_zero_byte, lemma_scan_zero_unit, lemma_units_of_bytes_len, scan_zero_byte,
    scan_zero_unit, units_of_bytes, utf16_decode, utf16_le_bytes, utf16_units,
    utf16_units_of_char};
use crate::header::{flush, hdr_dec, header_nibbles, nibble, nibbles_ok, pack_nibbles, rle,
    run_tail};

verus! {

/// The packet for a message: the packed header nibbles, then each value's
/// content bytes in order.
pub open spec fn encode_spec(m: Seq<BlockView>) -> Seq<u8> {
    pack_nibbles(header_nibbles(codes_of(m))) + contents_of(m)
}

/// The message a packet decodes to, if any: the leading sentinel must be in
/// place, the header must reach its terminator, and the content region must
/// satisfy every type code the header demands.
pub open spec fn decode_spec(bytes: Seq<u8>) -> Option<Seq<BlockView>> {
    if bytes.len() == 0 {
        None
    } else if nibble(bytes, 0) != 15 {
        None
    } else {
        match hdr_dec(bytes, 1, 15) {
            Some((tcs, cs)) => content_dec(bytes, cs, tcs),
            None => None,
        }
    }
}

/// Every nibble a run tail emits is a 4-bit code.
pub proof fn lemma_run_tail_bounded_pub(extra: nat)
    ensures
        forall|i: int| 0 <= i < run_tail(extra).len() ==> #[trigger] run_tail(extra)[i] < 16,
    decreases extra,
{
    if extra > 19 {
        lemma_run_tail_bounded_pub((extra - 19) as nat);
        assert(run_tail(extra) == seq![14u8, 15u8] + run_tail((extra - 19) as nat));
        assert forall|i: int| 0 <= i < run_tail(extra).len() implies #[trigger] run_tail(
            extra,
        )[i] < 16 by {
            if i >= 2 {
                assert(run_tail(extra)[i] == run_tail((extra - 19) as nat)[i - 2]);
            }
        }
    } else if extra == 0 {
    } else if extra <= 2 {
        assert(run_tail(extra) == seq![12u8]);
    } else if extra == 3 {
        assert(run_tail(extra) == seq![13u8]);
    } else {
        assert(run_tail(extra) == seq![14u8, (extra - 4) as u8]);
    }
}

/// Content bytes concatenate one value at a time.
proof fn lemma_contents_of_snoc(m: Seq<BlockView>, v: BlockView)
    ensures
        contents_of(m.push(v)) == contents_of(m) + content_of(v),
    decreases m.len(),
{
    if m.len() == 0 {
        assert(m.push(v)[0] == v);
        assert(m.push(v).drop_first() =~= m);
        assert(contents_of(m.push(v)) =~= contents_of(m) + content_of(v));
    } else {
        assert(m.push(v)[0] == m[0]);
        assert(m.push(v).drop_first() =~= m.drop_first().push(v));
        lemma_contents_of_snoc(m.drop_first(), v);
        assert(contents_of(m.push(v)) == content_of(m[0]) + contents_of(m.drop_first().push(v)));
        assert(contents_of(m) == content_of(m[0]) + contents_of(m.drop_first()));
        assert(contents_of(m.push(v)) =~= contents_of(m) + content_of(v));
    }
}

/// UTF-16 units concatenate one character at a time.
proof fn lemma_utf16_units_snoc(t: Seq<char>, c: char)
    ensures
        utf16_units(t.push(c)) == utf16_units(t) + utf16_units_of_char(c),
    decreases t.len(),
{
    if t.len() == 0 {
        assert(t.push(c)[0] == c);
        assert(t.push(c).drop_first() =~= t);
        assert(utf16_units(t.push(c)) =~= utf16_units(t) + utf16_units_of_char(c));
    } else {
        assert(t.push(c)[0] == t[0]);
        assert(t.push(c).drop_first() =~= t.drop_first().push(c));
        lemma_utf16_units_snoc(t.drop_first(), c);
        assert(utf16_units(t.push(c)) =~= utf16_units(t) + utf16_units_of_char(c));
    }
}

/// Little-endian serialization distributes over unit concatenation.
proof fn lemma_utf16_le_bytes_app(a: Seq<u16>, b: Seq<u16>)
    ensures
        utf16_le_bytes(a + b) == utf16_le_bytes(a) + utf16_le_bytes(b),
    decreases a.len(),
{
    if a.len() == 0 {
        assert(a + b =~= b);
        assert(utf16_le_bytes(a) =~= Seq::<u8>::empty());
        assert(utf16_le_bytes(a + b) =~= utf16_le_bytes(a) + utf16_le_bytes(b));
    } else {
        assert((a + b)[0] == a[0]);
        assert((a + b).drop_first() =~= a.drop_first() + b);
        lemma_utf16_le_bytes_app(a.drop_first(), b);
        assert(utf16_le_bytes(a + b) =~= utf16_le_bytes(a) + utf16_le_bytes(b));
    }
}

/// Append the header nibbles that flush one pending run: the literal code,
/// then its run markers.
#[verifier::loop_isolation(false)]
fn push_flush(hc: &mut Vec<u8>, code: u8, extra: usize)
    requires
        code < 16,
    ensures
        final(hc)@ == old(hc)@ + flush(code, extra as nat),
        nibbles_ok(old(hc)@) ==> nibbles_ok(final(hc)@),
{
    hc.push(code);
    let mut rem = extra;
    while rem > 19
        invariant
            hc@ + run_tail(rem as nat) == old(hc)@ + flush(code, extra as nat),
        decreases rem,
    {
        hc.push(14);
        hc.push(15);
        proof {
            assert(hc@ + run_tail((rem - 19) as nat) =~= old(hc)@ + flush(code, extra as nat));
        }
        rem -= 19;
    }
    if rem == 0 {
    } else if rem <= 2 {
        hc.push(12);
    } else if rem == 3 {
        hc.push(13);
    } else {
        hc.push(14);
        hc.push((rem - 4) as u8);
    }
    proof {
        assert(hc@ =~= old(hc)@ + flush(code, extra as nat));
        if nibbles_ok(old(hc)@) {
            lemma_run_tail_bounded_pub(extra as nat);
            assert forall|i: int| 0 <= i < hc@.len() implies #[trigger] hc@[i] < 16 by {
                if i >= old(hc)@.len() {
                    assert(hc@[i] == flush(code, extra as nat)[i - old(hc)@.len()]);
                }
            }
        }
    }
}

/// Append the four little-endian bytes of a 32-bit value.
fn push_le4(out: &mut Vec<u8>, v: u32)
    ensures
        final(out)@ == old(out)@ + le4(v as int),
{
    out.push((v % 256) as u8);
    out.push(((v / 256) % 256) as u8);
    out.push(((v / 0x10000) % 256) as u8);
    out.push((v / 0x1000000) as u8);
    proof {
        assert(out@ =~= old(out)@ + le4(v as int));
    }
}

/// Append one value's content bytes, per the classification table.
#[verifier::loop_isolation(false)]
fn push_content(out: &mut Vec<u8>, b: &Block)
    requires
        wf_view(b@),
    ensures
        final(out)@ == old(out)@ + content_of(b@),
{
    match b {
        Block::Bool(_) => {
            proof {
                assert(out@ =~= old(out)@ + content_of(b@));
            }
        },
        Block::Int(n) => {
            let n = *n;
            if n == 0 || n == 1 {
            } else if 2 <= n && n < 0x100 {
                out.push(n as u8);
            } else if -0x100 <= n && n < 0 {
                out.push((n + 0x100) as u8);
            } else if 0x100 <= n && n < 0x10000 {
                out.push((n % 256) as u8);
                out.push((n / 256) as u8);
            } else if -0x10000 <= n && n < -0x100 {
                let v = n + 0x10000;
                out.push((v % 256) as u8);
                out.push((v / 256) as u8);
            } else if 0x10000 <= n && n < 0x1_0000_0000 {
                push_le4(out, n as u32);
            } else {
                push_le4(out, (n + 0x1_0000_0000) as u32);
            }
            proof {
                assert(out@ =~= old(out)@ + content_of(b@));
            }
        },
        Block::F32(bits) => {
            push_le4(out, *bits);
        },
        Block::Text(t) => {
            let ghost tv = t@;
            let mut all_ascii: bool = true;
            let mut i: usize = 0;
            while i < t.len()
                invariant
                    i <= tv.len(),
                    all_ascii <==> (forall|j: int| 0 <= j < i ==> ascii_char(#[trigger] tv[j])),
                decreases tv.len() - i,
            {
                if (t[i] as u32) >= 0x80 {
                    all_ascii = false;
                }
                i += 1;
            }
            if all_ascii && t.len() == 0 {
                out.push(0);
            } else if all_ascii && t.len() == 1 {
                out.push((t[0] as u32) as u8);
            } else if all_ascii {
                let mut j: usize = 0;
                while j < t.len()
                    invariant
                        j <= tv.len(),
                        out@ == old(out)@ + tv.take(j as int).map_values(
                            |c: char| (c as u32) as u8,
                        ),
                    decreases tv.len() - j,
                {
                    out.push((t[j] as u32) as u8);
                    proof {
                        assert(tv.take(j as int).map_values(|c: char| (c as u32) as u8).push(
                            (tv[j as int] as u32) as u8) =~= tv.take(j as int + 1).map_values(
                            |c: char| (c as u32) as u8));
                        assert(out@ =~= old(out)@ + tv.take(j as int + 1).map_values(
                            |c: char| (c as u32) as u8));
                    }
                    j += 1;
                }
                out.push(0);
                proof {
                    assert(tv.take(tv.len() as int) =~= tv);
                    assert(out@ =~= old(out)@ + content_of(b@));
                }
            } else {
                let mut j: usize = 0;
                while j < t.len()
                    invariant
                        j <= tv.len(),
                        out@ == old(out)@ + utf16_le_bytes(utf16_units(tv.take(j as int))),
                    decreases tv.len() - j,
                {
                    let c = t[j];
                    let u = c as u32;
                    if u < 0x10000 {
                        out.push((u % 256) as u8);
                        out.push((u / 256) as u8);
                    } else {
                        let x = u - 0x10000;
                        let hi = 0xD800 + x / 0x400;
                        let lo = 0xDC00 + x % 0x400;
                        out.push((hi % 256) as u8);
                        out.push((hi / 256) as u8);
                        out.push((lo % 256) as u8);
                        out.push((lo / 256) as u8);
                    }
                    proof {
                        vstd::utf8::char_is_scalar(c);
                        assert(tv.take(j as int).push(tv[j as int]) =~= tv.take(j as int + 1));
                        lemma_utf16_units_snoc(tv.take(j as int), tv[j as int]);
                        lemma_utf16_le_bytes_app(
                            utf16_units(tv.take(j as int)),
                            utf16_units_of_char(tv[j as int]),
                        );
                        let ghost e16 = Seq::<u16>::empty();
                        assert(utf16_le_bytes(e16) == Seq::<u8>::empty());
                        if (c as u32) < 0x10000 {
                            assert(seq![((c as u32) as u16)].drop_first() =~= e16);
                            assert(utf16_le_bytes(utf16_units_of_char(c)) =~= le_unit(
                                (c as u32) as u16));
                            assert(((c as u32) as u16) as int == u as int);
                            assert(le_unit((c as u32) as u16) =~= seq![(u % 256) as u8, (u
                                / 256) as u8]);
                        } else {
                            let ghost hu = (0xD800 + (((c as u32) - 0x10000) / 0x400)) as u16;
                            let ghost lu = (0xDC00 + (((c as u32) - 0x10000) % 0x400)) as u16;
                            assert(seq![hu, lu].drop_first() =~= seq![lu]);
                            assert(seq![lu].drop_first() =~= e16);
                            assert(utf16_le_bytes(seq![lu]) =~= le_unit(lu));
                            assert(utf16_le_bytes(utf16_units_of_char(c)) =~= le_unit(hu) + le_unit(
                                lu));
                            assert(u <= 0x10FFFF);
                            assert((u - 0x10000) / 0x400 < 0x400);
                            assert(hu as int == 0xD800 + ((u - 0x10000) / 0x400));
                            assert(lu as int == 0xDC00 + ((u - 0x10000) % 0x400));
                            assert(le_unit(hu) + le_unit(lu) =~= seq![
                                ((0xD800 + ((u - 0x10000) / 0x400)) % 256) as u8,
                                ((0xD800 + ((u - 0x10000) / 0x400)) / 256) as u8,
                                ((0xDC00 + ((u - 0x10000) % 0x400)) % 256) as u8,
                                ((0xDC00 + ((u - 0x10000) % 0x400)) / 256) as u8,
                            ]);
                        }
                        assert(c == tv[j as int]);
                        assert(utf16_le_bytes(utf16_units(tv.take(j as int + 1)))
                            == utf16_le_bytes(utf16_units(tv.take(j as int))) + utf16_le_bytes(
                            utf16_units_of_char(c)));
                        assert(out@ =~= old(out)@ + utf16_le_bytes(utf16_units(tv.take(
                            j as int + 1))));
                    }
                    j += 1;
                }
                out.push(0);
                out.push(0);
                proof {
                    assert(tv.take(tv.len() as int) =~= tv);
                    assert(!ascii_text(tv));
                    assert(out@ =~= old(out)@ + content_of(b@));
                }
            }
        },
    }
}

/// Encode a message into a packet. The output is exactly the packed header
/// nibbles for the message's type-code sequence followed by each value's
/// content bytes in order; `encode_spec` pins every byte.
#[verifier::loop_isolation(false)]
#[verifier::rlimit(60)]
pub fn encode(message: Vec<Block>) -> (out: Vec<u8>)
    requires
        wf_msg(msg_view(message@)),
    ensures
        out@ == encode_spec(msg_view(message@)),
{
    let ghost m = msg_view(message@);

    // Classify every value.
    let mut codes: Vec<u8> = Vec::new();
    let mut i: usize = 0;
    while i < message.len()
        invariant
            i <= message@.len(),
            codes@.len() == i,
            forall|j: int| 0 <= j < i ==> codes@[j] == code_of(#[trigger] m[j]),
        decreases message@.len() - i,
    {
        let c = message[i].type_code();
        codes.push(c);
        i += 1;
    }
    proof {
        assert(codes@ =~= codes_of(m));
    }
    let ghost cs = codes@;
    proof {
        assert forall|j: int| 0 <= j < cs.len() implies #[trigger] cs[j] < 12 by {
            assert(cs[j] == code_of(m[j]));
        }
    }

    // Run-length-compress the type codes into header nibbles.
    let mut hc: Vec<u8> = Vec::new();
    proof {
        assert(cs.skip(0) =~= cs);
        assert(Seq::<u8>::empty() + rle(cs, 15, 0) =~= rle(cs, 15, 0));
    }
    let mut last: u8 = 15;
    let mut extra: usize = 0;
    let mut i: usize = 0;
    while i < codes.len()
        invariant
            i <= cs.len(),
            extra <= i,
            last == 15 || last < 12,
            nibbles_ok(hc@),
            hc@ + rle(cs.skip(i as int), last, extra as nat) == rle(cs, 15, 0),
        decreases cs.len() - i,
    {
        let c = codes[i];
        proof {
            assert(cs.skip(i as int)[0] == cs[i as int]);
            assert(cs.skip(i as int).drop_first() =~= cs.skip(i as int + 1));
        }
        if c == last {
            extra += 1;
        } else {
            let ghost pre = hc@;
            push_flush(&mut hc, last, extra);
            proof {
                assert(hc@ + rle(cs.skip(i as int + 1), c, 0) =~= pre + rle(
                    cs.skip(i as int),
                    last,
                    extra as nat,
                ));
            }
            last = c;
            extra = 0;
        }
        i += 1;
    }
    proof {
        assert(cs.skip(cs.len() as int) =~= Seq::<u8>::empty());
    }
    let ghost pre = hc@;
    push_flush(&mut hc, last, extra);
    proof {
        assert(hc@ =~= pre + rle(cs.skip(cs.len() as int), last, extra as nat));
        assert(hc@ == rle(cs, 15, 0));
    }
    hc.push(15);
    proof {
        assert(hc@ =~= rle(cs, 15, 0) + seq![15u8]);
    }
    if hc.len() % 2 == 1 {
        hc.push(15);
        proof {
            assert(hc@ =~= (rle(cs, 15, 0) + seq![15u8]) + seq![15u8]);
        }
    }
    proof {
        assert(hc@ == header_nibbles(cs));
        assert(hc@.len() % 2 == 0);
        assert(nibbles_ok(hc@));
    }

    // Pack the nibbles, two per byte.
    let ghost h = hc@;
    let mut out: Vec<u8> = Vec::new();
    let mut i: usize = 0;
    while i < hc.len()
        invariant
            i % 2 == 0,
            i <= h.len(),
            out@.len() == i / 2,
            forall|j: int|
                0 <= j < out@.len() ==> out@[j] == (h[2 * j] * 16 + h[2 * j + 1]) as u8,
        decreases h.len() - i,
    {
        assert(i + 1 < h.len());
        let b = hc[i] * 16 + hc[i + 1];
        out.push(b);
        i += 2;
    }
    proof {
        assert(out@ =~= pack_nibbles(h));
    }
    let ghost packed = out@;

    // Write every value's content bytes.
    let mut k: usize = 0;
    while k < message.len()
        invariant
            k <= message@.len(),
            out@ == packed + contents_of(m.take(k as int)),
        decreases message@.len() - k,
    {
        let ghost pre = out@;
        push_content(&mut out, &message[k]);
        proof {
            assert(m.take(k as int).push(m[k as int]) =~= m.take(k as int + 1));
            lemma_contents_of_snoc(m.take(k as int), m[k as int]);
            assert(out@ =~= packed + contents_of(m.take(k as int + 1)));
        }
        k += 1;
    }
    proof {
        assert(m.take(m.len() as int) =~= m);
    }
    out
}


/// A header decode result with already-reconstructed codes put in front.
pub open spec fn prepend_codes(a: Seq<u8>, r: Option<(Seq<u8>, nat)>) -> Option<(Seq<u8>, nat)> {
    match r {
        Some(t) => Some((a + t.0, t.1)),
        None => None,
    }
}

/// A content decode result with already-read values put in front.
spec fn prepend_vals(a: Seq<BlockView>, r: Option<Seq<BlockView>>) -> Option<
    Seq<BlockView>,
> {
    match r {
        Some(s) => Some(a + s),
        None => None,
    }
}

/// A text decode result with already-read characters put in front.
spec fn prepend_chars(a: Seq<char>, r: Option<Seq<char>>) -> Option<Seq<char>> {
    match r {
        Some(t) => Some(a + t),
        None => None,
    }
}

/// Reading one more value moves it from the pending decode to the prefix.
proof fn lemma_prepend_cons(a: Seq<BlockView>, v: BlockView, r: Option<Seq<BlockView>>)
    ensures
        prepend_vals(a, cons_val(v, r)) == prepend_vals(a.push(v), r),
{
    match r {
        Some(s) => {
            assert(a + (seq![v] + s) =~= a.push(v) + s);
        },
        None => {},
    }
}

/// Reading one more character moves it from the pending decode to the
/// prefix.
proof fn lemma_prepend_chars_cons(a: Seq<char>, c: char, r: Option<Seq<char>>)
    ensures
        prepend_chars(a, match r {
            Some(t) => Some(seq![c] + t),
            None => None,
        }) == prepend_chars(a.push(c), r),
{
    match r {
        Some(t) => {
            assert(a + (seq![c] + t) =~= a.push(c) + t);
        },
        None => {},
    }
}

/// Append `k` copies of one code.
#[verifier::loop_isolation(false)]
fn push_copies(v: &mut Vec<u8>, x: u8, k: usize)
    ensures
        final(v)@ == old(v)@ + Seq::new(k as nat, |j: int| x),
{
    let mut n: usize = 0;
    proof {
        assert(old(v)@ + Seq::new(0, |j: int| x) =~= old(v)@);
    }
    while n < k
        invariant
            n <= k,
            v@ == old(v)@ + Seq::new(n as nat, |j: int| x),
        decreases k - n,
    {
        v.push(x);
        proof {
            assert(v@ =~= old(v)@ + Seq::new((n + 1) as nat, |j: int| x));
        }
        n += 1;
    }
}

/// Relies on char::from_u32: for a code point outside the surrogate range
/// and at most 0x10FFFF it returns the character with that code point.
#[verifier::external_body]
fn char_from_code(v: u32) -> (c: char)
    requires
        v < 0xD800 || (0xE000 <= v && v <= 0x10FFFF),
    ensures
        c as u32 == v,
{
    char::from_u32(v).unwrap()
}


/// Read one ASCII text value: the bytes before the first zero byte, which
/// terminates it; reports the cursor just past the terminator. Fails when
/// no zero byte is left.
#[verifier::loop_isolation(false)]
fn read_ascii_text(packet: &Vec<u8>, ci: usize) -> (r: Option<(Vec<char>, usize)>)
    requires
        ci <= packet@.len(),
    ensures
        ({
            let sc = scan_zero_byte(packet@, ci as nat);
            match r {
                Some(t) => sc matches Some(j) && t.1 == j + 1 && t.1 <= packet@.len() && t.0@
                    == packet@.subrange(ci as int, j as int).map_values(|x: u8| x as char),
                None => sc is None,
            }
        }),
{
    let ghost bytes = packet@;
    let start = ci;
    let mut j: usize = ci;
    while j < packet.len() && packet[j] != 0
        invariant
            start <= j <= bytes.len(),
            forall|q2: int| start <= q2 < j ==> bytes[q2] != 0,
        decreases bytes.len() - j,
    {
        j += 1;
    }
    proof {
        lemma_scan_zero_byte(bytes, start as nat, j as nat);
    }
    if j == packet.len() {
        return None;
    }
    let mut chars: Vec<char> = Vec::new();
    let mut q: usize = ci;
    while q < j
        invariant
            start <= q <= j,
            j < bytes.len(),
            chars@ == bytes.subrange(start as int, q as int).map_values(|x: u8| x as char),
        decreases j - q,
    {
        chars.push(packet[q] as char);
        proof {
            assert(bytes.subrange(start as int, q as int + 1).map_values(|x: u8| x as char)
                =~= bytes.subrange(start as int, q as int).map_values(|x: u8| x as char).push(
                bytes[q as int] as char));
            assert(chars@ =~= bytes.subrange(start as int, q as int + 1).map_values(
                |x: u8| x as char,
            ));
        }
        q += 1;
    }
    Some((chars, j + 1))
}

/// Read one UTF-16 text value: the little-endian units before the first
/// zero unit, which terminates it, with surrogate pairs recombined; reports
/// the cursor just past the terminator. Fails when no zero unit is left or
/// on a lone or misordered surrogate.
#[verifier::loop_isolation(false)]
#[verifier::rlimit(60)]
fn read_utf16_text(packet: &Vec<u8>, ci: usize) -> (r: Option<(Vec<char>, usize)>)
    requires
        ci <= packet@.len(),
    ensures
        ({
            let sc = scan_zero_unit(packet@, ci as nat);
            match r {
                Some(t) => sc matches Some(j) && t.1 == j + 2 && t.1 <= packet@.len()
                    && utf16_decode(units_of_bytes(packet@.subrange(ci as int, j as int)))
                    == Some(t.0@),
                None => match sc {
                    Some(j) => utf16_decode(
                        units_of_bytes(packet@.subrange(ci as int, j as int)),
                    ) is None,
                    None => true,
                },
            }
        }),
{
    let ghost bytes = packet@;
    let start = ci;
    let mut j: usize = ci;
    while packet.len() - j >= 2 && !(packet[j] == 0 && packet[j + 1] == 0)
        invariant
            start <= j <= bytes.len(),
            (j - start) % 2 == 0,
            forall|q2: int|
                start <= q2 < j && (q2 - start) % 2 == 0 ==> !(#[trigger] bytes[q2] == 0
                    && bytes[q2 + 1] == 0),
        decreases bytes.len() - j,
    {
        j += 2;
    }
    proof {
        lemma_scan_zero_unit(bytes, start as nat, j as nat);
    }
    if packet.len() - j < 2 {
        return None;
    }
    proof {
        assert(scan_zero_unit(bytes, start as nat) == Some(j as nat));
    }
    let ghost us = units_of_bytes(bytes.subrange(start as int, j as int));
    let mut chars: Vec<char> = Vec::new();
    let mut q: usize = ci;
    proof {
        match utf16_decode(us) {
            Some(t) => {
                assert(Seq::<char>::empty() + t =~= t);
            },
            None => {},
        }
    }
    while q < j
        invariant
            start <= q <= j,
            j <= bytes.len() - 2,
            (q - start) % 2 == 0,
            prepend_chars(
                chars@,
                utf16_decode(units_of_bytes(bytes.subrange(q as int, j as int))),
            ) == utf16_decode(us),
        decreases j - q,
    {
        let ghost q0 = q as int;
        let ghost uq = units_of_bytes(bytes.subrange(q as int, j as int));
        proof {
            assert(bytes.subrange(q0, j as int)[0] == bytes[q0]);
            assert(bytes.subrange(q0, j as int)[1] == bytes[q0 + 1]);
            assert(bytes.subrange(q0, j as int).skip(2) =~= bytes.subrange(q0 + 2, j as int));
            lemma_units_of_bytes_len(bytes.subrange(q0, j as int));
        }
        let b0 = packet[q];
        let b1 = packet[q + 1];
        let u = b0 as u16 + b1 as u16 * 256;
        proof {
            assert(uq[0] == u);
            assert(uq.drop_first() =~= units_of_bytes(bytes.subrange(q0 + 2, j as int)));
        }
        if u < 0xD800 || u >= 0xE000 {
            let ch = char_from_code(u as u32);
            let ghost chars0 = chars@;
            chars.push(ch);
            q += 2;
            proof {
                vstd::utf8::char_u32_cast(ch, u as u32);
                assert((uq[0] as char) == ch);
                lemma_prepend_chars_cons(
                    chars0,
                    ch,
                    utf16_decode(units_of_bytes(bytes.subrange(q as int, j as int))),
                );
            }
        } else if u < 0xDC00 {
            if j - q < 4 {
                proof {
                    assert(uq.len() < 2);
                    assert(utf16_decode(uq) is None);
                }
                return None;
            }
            let b2 = packet[q + 2];
            let b3 = packet[q + 3];
            let u2 = b2 as u16 + b3 as u16 * 256;
            proof {
                assert(bytes.subrange(q0 + 2, j as int)[0] == bytes[q0 + 2]);
                assert(bytes.subrange(q0 + 2, j as int)[1] == bytes[q0 + 3]);
                assert(bytes.subrange(q0 + 2, j as int).skip(2) =~= bytes.subrange(
                    q0 + 4,
                    j as int,
                ));
                assert(units_of_bytes(bytes.subrange(q0 + 2, j as int))[0] == u2);
                assert(uq[1] == u2);
                assert(uq.len() >= 2);
            }
            if u2 < 0xDC00 || u2 >= 0xE000 {
                proof {
                    assert(utf16_decode(uq) is None);
                }
                return None;
            }
            let cpv: u32 = 0x10000 + (u as u32 - 0xD800) * 0x400 + (u2 as u32 - 0xDC00);
            let ch = char_from_code(cpv);
            let ghost chars0 = chars@;
            chars.push(ch);
            q += 4;
            proof {
                vstd::utf8::char_u32_cast(ch, cpv);
                assert(units_of_bytes(bytes.subrange(q0 + 2, j as int)).drop_first()
                    =~= units_of_bytes(bytes.subrange(q0 + 4, j as int)));
                assert(uq.skip(2) =~= units_of_bytes(bytes.subrange(q0 + 4, j as int)));
                lemma_prepend_chars_cons(
                    chars0,
                    ch,
                    utf16_decode(units_of_bytes(bytes.subrange(q as int, j as int))),
                );
            }
        } else {
            proof {
                assert(utf16_decode(uq) is None);
            }
            return None;
        }
    }
    proof {
        assert(bytes.subrange(j as int, j as int) =~= Seq::<u8>::empty());
        assert(utf16_decode(us) == Some(chars@)) by {
            assert(utf16_decode(units_of_bytes(bytes.subrange(j as int, j as int))) == Some(
                Seq::<char>::empty(),
            ));
            assert(chars@ + Seq::<char>::empty() =~= chars@);
        }
    }
    Some((chars, j + 2))
}

/// Decode a packet back into its message, or report that it is malformed.
/// `decode_spec` pins both whether decoding succeeds and the exact message
/// it yields; decoding fails exactly when the packet is empty, the leading
/// sentinel is missing, the header ends before its terminator, the content
/// region is shorter than the header demands, or UTF-16 content is invalid.
#[verifier::loop_isolation(false)]
#[verifier::rlimit(100)]
pub fn decode(packet: Vec<u8>) -> (r: Option<Vec<Block>>)
    ensures
        match r {
            Some(v) => decode_spec(packet@) == Some(msg_view(v@)),
            None => decode_spec(packet@) is None,
        },
{
    let ghost bytes = packet@;
    if packet.len() == 0 {
        return None;
    }
    if packet[0] / 16 != 15 {
        return None;
    }
    let ghost hdr_full = hdr_dec(bytes, 1, 15);
    proof {
        assert(nibble(bytes, 0) == 15);
        match hdr_full {
            Some(t) => {
                assert(Seq::<u8>::empty() + t.0 =~= t.0);
            },
            None => {},
        }
    }

    // Read the header nibbles until the terminator.
    let mut tcs: Vec<u8> = Vec::new();
    let mut idx: usize = 0;
    let mut half: bool = true;  // the high half of the current byte is consumed
    let mut last: u8 = 15;
    let mut content_start: usize = 0;
    let mut done: bool = false;
    while !done
        invariant
            done ==> hdr_full == Some((tcs@, content_start as nat)) && content_start
                <= bytes.len(),
            !done ==> idx <= bytes.len(),
            !done && half ==> idx < bytes.len(),
            !done ==> prepend_codes(
                tcs@,
                hdr_dec(bytes, (2 * idx + if half { 1int } else { 0int }) as nat, last),
            ) == hdr_full,
        decreases 2 * bytes.len() - (2 * idx + if half { 1int } else { 0int }),
    {
        let ghost p = (2 * idx + if half { 1int } else { 0int }) as nat;
        if idx >= packet.len() {
            proof {
                assert(hdr_dec(bytes, p, last) is None);
            }
            return None;
        }
        let bb = packet[idx];
        let n: u8;
        if half {
            n = bb % 16;
            idx += 1;
            half = false;
        } else {
            n = bb / 16;
            half = true;
        }
        proof {
            assert(n == nibble(bytes, p as int));
            assert(2 * idx + if half { 1int } else { 0int } == p + 1);
        }
        if n == 15 {
            content_start = if half {
                idx + 1
            } else {
                idx
            };
            proof {
                assert(hdr_dec(bytes, p, last) == Some(
                    (Seq::<u8>::empty(), ((p + 2) / 2) as nat),
                ));
                assert(content_start as nat == (p + 2) / 2);
                assert(tcs@ + Seq::<u8>::empty() =~= tcs@);
            }
            done = true;
        } else if n < 12 {
            let ghost tcs0 = tcs@;
            tcs.push(n);
            last = n;
            proof {
                match hdr_dec(bytes, (p + 1) as nat, n) {
                    Some(t) => {
                        assert(tcs0 + (seq![n] + t.0) =~= tcs0.push(n) + t.0);
                    },
                    None => {},
                }
            }
        } else if n == 12 || n == 13 {
            let ghost tcs0 = tcs@;
            let ghost reps = Seq::new((n - 10) as nat, |j: int| last);
            push_copies(&mut tcs, last, (n - 10) as usize);
            proof {
                match hdr_dec(bytes, (p + 1) as nat, last) {
                    Some(t) => {
                        assert(tcs0 + (reps + t.0) =~= (tcs0 + reps) + t.0);
                    },
                    None => {},
                }
            }
        } else {
            if idx >= packet.len() {
                proof {
                    assert(hdr_dec(bytes, p, last) is None);
                }
                return None;
            }
            let bb2 = packet[idx];
            let c2: u8;
            if half {
                c2 = bb2 % 16;
                idx += 1;
                half = false;
            } else {
                c2 = bb2 / 16;
                half = true;
            }
            proof {
                assert(c2 == nibble(bytes, p as int + 1));
                assert(2 * idx + if half { 1int } else { 0int } == p + 2);
            }
            let ghost tcs0 = tcs@;
            let ghost reps = Seq::new((4 + c2) as nat, |j: int| last);
            push_copies(&mut tcs, last, 4 + c2 as usize);
            proof {
                match hdr_dec(bytes, (p + 2) as nat, last) {
                    Some(t) => {
                        assert(tcs0 + (reps + t.0) =~= (tcs0 + reps) + t.0);
                    },
                    None => {},
                }
            }
        }
    }
    let ghost tcs_full = tcs@;
    let ghost cs0 = content_start as nat;
    proof {
        assert(decode_spec(bytes) == content_dec(bytes, cs0, tcs_full));
        assert(tcs_full.skip(0) =~= tcs_full);
        match content_dec(bytes, cs0, tcs_full) {
            Some(s) => {
                assert(Seq::<BlockView>::empty() + s =~= s);
            },
            None => {},
        }
    }

    // Read the content region, one value per type code.
    let mut out: Vec<Block> = Vec::new();
    let mut ci: usize = content_start;
    let mut k: usize = 0;
    while k < tcs.len()
        invariant
            k <= tcs_full.len(),
            tcs@ == tcs_full,
            ci <= bytes.len(),
            prepend_vals(msg_view(out@), content_dec(bytes, ci as nat, tcs_full.skip(k as int)))
                == content_dec(bytes, cs0, tcs_full),
        decreases tcs_full.len() - k,
    {
        let ghost rest = tcs_full.skip(k as int + 1);
        let ghost mv0 = msg_view(out@);
        proof {
            assert(tcs_full.skip(k as int)[0] == tcs_full[k as int]);
            assert(tcs_full.skip(k as int).drop_first() =~= rest);
        }
        let c = tcs[k];
        if c == 0 || c == 1 {
            let bk = if c == 0 {
                Block::Int(0)
            } else {
                Block::Int(1)
            };
            out.push(bk);
            proof {
                lemma_prepend_cons(mv0, bk@, content_dec(bytes, ci as nat, rest));
                assert(msg_view(out@) =~= mv0.push(bk@));
            }
        } else if c == 2 || c == 3 {
            if ci >= packet.len() {
                return None;
            }
            let b = packet[ci];
            let bk = if c == 2 {
                Block::Int(b as i64)
            } else {
                Block::Int(b as i64 - 0x100)
            };
            out.push(bk);
            ci += 1;
            proof {
                lemma_prepend_cons(mv0, bk@, content_dec(bytes, ci as nat, rest));
                assert(msg_view(out@) =~= mv0.push(bk@));
            }
        } else if c == 4 || c == 5 {
            if packet.len() - ci < 2 {
                return None;
            }
            let b0 = packet[ci];
            let b1 = packet[ci + 1];
            let u = b0 as i64 + b1 as i64 * 256;
            let bk = if c == 4 {
                Block::Int(u)
            } else {
                Block::Int(u - 0x10000)
            };
            out.push(bk);
            ci += 2;
            proof {
                lemma_prepend_cons(mv0, bk@, content_dec(bytes, ci as nat, rest));
                assert(msg_view(out@) =~= mv0.push(bk@));
            }
        } else if c == 6 || c == 7 || c == 8 {
            if packet.len() - ci < 4 {
                return None;
            }
            let b0 = packet[ci];
            let b1 = packet[ci + 1];
            let b2 = packet[ci + 2];
            let b3 = packet[ci + 3];
            let v = b0 as u32 + b1 as u32 * 256 + b2 as u32 * 0x10000 + b3 as u32 * 0x1000000;
            let bk = if c == 6 {
                Block::Int(v as i64)
            } else if c == 7 {
                Block::Int(v as i64 - 0x1_0000_0000)
            } else {
                Block::F32(v)
            };
            out.push(bk);
            ci += 4;
            proof {
                lemma_prepend_cons(mv0, bk@, content_dec(bytes, ci as nat, rest));
                assert(msg_view(out@) =~= mv0.push(bk@));
            }
        } else if c == 9 {
            if ci >= packet.len() {
                return None;
            }
            let b = packet[ci];
            let mut tv: Vec<char> = Vec::new();
            if b != 0 {
                tv.push(b as char);
            }
            let bk = Block::Text(tv);
            out.push(bk);
            ci += 1;
            proof {
                if b == 0 {
                    assert(bk@ == BlockView::Text(Seq::<char>::empty()));
                } else {
                    assert(bk@ == BlockView::Text(seq![(b as char)]));
                }
                lemma_prepend_cons(mv0, bk@, content_dec(bytes, ci as nat, rest));
                assert(msg_view(out@) =~= mv0.push(bk@));
            }
        } else if c == 10 {
            let pair = match read_ascii_text(&packet, ci) {
                Some(p) => p,
                None => {
                    return None;
                },
            };
            let bk = Block::Text(pair.0);
            out.push(bk);
            ci = pair.1;
            proof {
                lemma_prepend_cons(mv0, bk@, content_dec(bytes, ci as nat, rest));
                assert(msg_view(out@) =~= mv0.push(bk@));
            }
        } else if c == 11 {
            let pair = match read_utf16_text(&packet, ci) {
                Some(p) => p,
                None => {
                    return None;
                },
            };
            let bk = Block::Text(pair.0);
            out.push(bk);
            ci = pair.1;
            proof {
                lemma_prepend_cons(mv0, bk@, content_dec(bytes, ci as nat, rest));
                assert(msg_view(out@) =~= mv0.push(bk@));
            }
        } else {
            proof {
                assert(content_dec(bytes, ci as nat, tcs_full.skip(k as int)) == content_dec(
                    bytes,
                    ci as nat,
                    rest,
                ));
            }
        }
        k += 1;
    }
    proof {
        assert(tcs_full.skip(tcs_full.len() as int) =~= Seq::<u8>::empty());
        assert(msg_view(out@) + Seq::<BlockView>::empty() =~= msg_view(out@));
    }
    Some(out)
}

} // verus!
