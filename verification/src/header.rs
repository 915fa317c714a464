//! The header region: run-length compression of the type-code sequence into
//! 4-bit codes, nibble packing, and the decoder's reading of both.
//!
//! Codes 0-11 in the header are literal type codes. Code 12 stands for 2
//! additional repeats of the last literal, 13 for 3, and 14 for 4 plus the
//! value of the following count nibble (so up to 19 per escape). Code 15 is
//! the sentinel: it opens every packet, terminates the header, and pads it to
//! an even number of nibbles. A run of exactly 2 occurrences is also written
//! with code 12 (one literal, one marker), so it reads back as 3; the wire
//! format keeps this collision.

use vstd::prelude::*;

verus! {

/// The marker nibbles a flush emits after the literal, for `extra` repeats
/// beyond the first occurrence of a run.
pub open spec fn run_tail(extra: nat) -> Seq<u8>
    decreases extra,
{
    if extra == 0 {
        seq![]
    } else if extra > 19 {
        seq![14u8, 15u8] + run_tail((extra - 19) as nat)
    } else if extra <= 2 {
        seq![12u8]
    } else if extra == 3 {
        seq![13u8]
    } else {
        seq![14u8, (extra - 4) as u8]
    }
}

/// Flush one pending run: the literal code once, then its run markers.
pub open spec fn flush(code: u8, extra: nat) -> Seq<u8> {
    seq![code] + run_tail(extra)
}

/// Run-length compression of a type-code sequence, carrying the pending
/// run (`last` seen code, `extra` repeats beyond its first occurrence).
/// Compression of a whole sequence starts from the pending sentinel
/// (`last == 15`, `extra == 0`), whose flush emits the leading sentinel.
pub open spec fn rle(codes: Seq<u8>, last: u8, extra: nat) -> Seq<u8>
    decreases codes.len(),
{
    if codes.len() == 0 {
        flush(last, extra)
    } else if codes[0] == last {
        rle(codes.drop_first(), last, (extra + 1) as nat)
    } else {
        flush(last, extra) + rle(codes.drop_first(), codes[0], 0)
    }
}

/// The complete header nibble stream for a type-code sequence: the
/// run-length stream (opening with the sentinel), the terminator, and a
/// padding sentinel if the length is odd.
pub open spec fn header_nibbles(codes: Seq<u8>) -> Seq<u8> {
    let s = rle(codes, 15, 0) + seq![15u8];
    if s.len() % 2 == 1 {
        s + seq![15u8]
    } else {
        s
    }
}

/// Every element is a 4-bit code.
pub open spec fn nibbles_ok(h: Seq<u8>) -> bool {
    forall|i: int| 0 <= i < h.len() ==> #[trigger] h[i] < 16
}

/// Pack a nibble stream of even length, first code of each pair in the high
/// half.
pub open spec fn pack_nibbles(h: Seq<u8>) -> Seq<u8> {
    Seq::new(h.len() / 2, |i: int| (h[2 * i] * 16 + h[2 * i + 1]) as u8)
}

/// The `i`-th nibble of a byte sequence, high half of each byte first.
pub open spec fn nibble(bytes: Seq<u8>, i: int) -> u8 {
    if i % 2 == 0 {
        (bytes[i / 2] / 16) as u8
    } else {
        (bytes[i / 2] % 16) as u8
    }
}

/// Read the header from nibble `i` on with pending literal `last`:
/// reconstructs the type-code sequence, and on the terminator reports the
/// byte index where the content region starts (just past the terminator and
/// its padding). Fails when the bytes run out first.
pub open spec fn hdr_dec(bytes: Seq<u8>, i: nat, last: u8) -> Option<(Seq<u8>, nat)>
    decreases 2 * bytes.len() - i,
{
    if i >= 2 * bytes.len() {
        None
    } else {
        let n = nibble(bytes, i as int);
        if n == 15 {
            Some((seq![], ((i + 2) / 2) as nat))
        } else if n < 12 {
            match hdr_dec(bytes, i + 1, n) {
                Some((tcs, cs)) => Some((seq![n] + tcs, cs)),
                None => None,
            }
        } else if n == 12 || n == 13 {
            match hdr_dec(bytes, i + 1, last) {
                Some((tcs, cs)) => Some((Seq::new((n - 10) as nat, |j: int| last) + tcs, cs)),
                None => None,
            }
        } else {
            if i + 1 >= 2 * bytes.len() {
                None
            } else {
                let c = nibble(bytes, i as int + 1);
                match hdr_dec(bytes, i + 2, last) {
                    Some((tcs, cs)) => Some((Seq::new((4 + c) as nat, |j: int| last) + tcs, cs)),
                    None => None,
                }
            }
        }
    }
}

} // verus!
