//! The content region: each value's serialized bytes, in order, and the
//! reader's inverse mapping.

use vstd::prelude::*;
use crate::block::{ascii_text, BlockView};

verus! {

/// Two little-endian bytes of a value in [0, 65536).
pub open spec fn le2(n: int) -> Seq<u8> {
    seq![(n % 256) as u8, ((n / 256) % 256) as u8]
}

/// Four little-endian bytes of a value in [0, 2^32).
pub open spec fn le4(n: int) -> Seq<u8> {
    seq![
        (n % 256) as u8,
        ((n / 256) % 256) as u8,
        ((n / 0x10000) % 256) as u8,
        ((n / 0x1000000) % 256) as u8,
    ]
}

/// The UTF-16 code units of one character: one unit below 0x10000, else a
/// surrogate pair.
pub open spec fn utf16_units_of_char(c: char) -> Seq<u16> {
    if (c as u32) < 0x10000 {
        seq![((c as u32) as u16)]
    } else {
        seq![
            (0xD800 + (((c as u32) - 0x10000) / 0x400)) as u16,
            (0xDC00 + (((c as u32) - 0x10000) % 0x400)) as u16,
        ]
    }
}

/// The UTF-16 code units of a character sequence, in order.
pub open spec fn utf16_units(t: Seq<char>) -> Seq<u16>
    decreases t.len(),
{
    if t.len() == 0 {
        seq![]
    } else {
        utf16_units_of_char(t[0]) + utf16_units(t.drop_first())
    }
}

/// One code unit as two little-endian bytes.
pub open spec fn le_unit(u: u16) -> Seq<u8> {
    seq![(u % 256) as u8, (u / 256) as u8]
}

/// A unit sequence as bytes, each unit little-endian.
pub open spec fn utf16_le_bytes(units: Seq<u16>) -> Seq<u8>
    decreases units.len(),
{
    if units.len() == 0 {
        seq![]
    } else {
        le_unit(units[0]) + utf16_le_bytes(units.drop_first())
    }
}

/// The content bytes of one value, per the classification table: nothing for
/// codes 0 and 1; the narrowest little-endian integer, offset for negative
/// ranges, for codes 2-7; the four float bits for code 8; one byte (0 if
/// empty) for code 9; the ASCII bytes and a 0x00 terminator for code 10; the
/// little-endian UTF-16 units and a 0x0000 terminator for code 11.
pub open spec fn content_of(v: BlockView) -> Seq<u8> {
    match v {
        BlockView::Bool(_) => seq![],
        BlockView::Int(n) => if n == 0 || n == 1 {
            seq![]
        } else if 2 <= n < 0x100 {
            seq![n as u8]
        } else if -0x100 <= n < 0 {
            seq![(n + 0x100) as u8]
        } else if 0x100 <= n < 0x10000 {
            le2(n)
        } else if -0x10000 <= n < -0x100 {
            le2(n + 0x10000)
        } else if 0x10000 <= n < 0x1_0000_0000 {
            le4(n)
        } else {
            le4(n + 0x1_0000_0000)
        },
        BlockView::F32(bits) => le4(bits as int),
        BlockView::Text(t) => if ascii_text(t) && t.len() == 0 {
            seq![0u8]
        } else if ascii_text(t) && t.len() == 1 {
            seq![(((t[0] as u32)) as u8)]
        } else if ascii_text(t) {
            t.map_values(|c: char| (c as u32) as u8) + seq![0u8]
        } else {
            utf16_le_bytes(utf16_units(t)) + seq![0u8, 0u8]
        },
    }
}

/// The whole content region: each value's content bytes, concatenated in
/// order.
pub open spec fn contents_of(m: Seq<BlockView>) -> Seq<u8>
    decreases m.len(),
{
    if m.len() == 0 {
        seq![]
    } else {
        content_of(m[0]) + contents_of(m.drop_first())
    }
}

/// The index of the first zero byte at or after `i`, if any.
pub open spec fn scan_zero_byte(bytes: Seq<u8>, i: nat) -> Option<nat>
    decreases bytes.len() - i,
{
    if i >= bytes.len() {
        None
    } else if bytes[i as int] == 0 {
        Some(i)
    } else {
        scan_zero_byte(bytes, (i + 1) as nat)
    }
}

/// The byte index of the first zero 16-bit unit at or after `i`, stepping by
/// whole units, if a whole zero unit is found before the bytes run out.
pub open spec fn scan_zero_unit(bytes: Seq<u8>, i: nat) -> Option<nat>
    decreases bytes.len() - i,
{
    if i + 2 > bytes.len() {
        None
    } else if bytes[i as int] == 0 && bytes[i as int + 1] == 0 {
        Some(i)
    } else {
        scan_zero_unit(bytes, (i + 2) as nat)
    }
}

/// Little-endian 16-bit units read from a byte sequence of even length.
pub open spec fn units_of_bytes(bytes: Seq<u8>) -> Seq<u16>
    decreases bytes.len(),
{
    if bytes.len() < 2 {
        seq![]
    } else {
        seq![(bytes[0] + bytes[1] * 256) as u16] + units_of_bytes(bytes.skip(2))
    }
}

/// Decode a UTF-16 unit sequence, recombining surrogate pairs; fails on a
/// lone or misordered surrogate.
pub open spec fn utf16_decode(units: Seq<u16>) -> Option<Seq<char>>
    decreases units.len(),
{
    if units.len() == 0 {
        Some(seq![])
    } else {
        let u = units[0];
        if u < 0xD800 || u >= 0xE000 {
            match utf16_decode(units.drop_first()) {
                Some(t) => Some(seq![(u as char)] + t),
                None => None,
            }
        } else if u < 0xDC00 {
            if units.len() >= 2 && 0xDC00 <= units[1] && units[1] < 0xE000 {
                let cp = 0x10000 + (u - 0xD800) * 0x400 + (units[1] - 0xDC00);
                match utf16_decode(units.skip(2)) {
                    Some(t) => Some(seq![(cp as char)] + t),
                    None => None,
                }
            } else {
                None
            }
        } else {
            None
        }
    }
}

/// A scan that has passed only nonzero bytes resolves at the first zero
/// byte, or fails when the bytes run out.
pub proof fn lemma_scan_zero_byte(bytes: Seq<u8>, start: nat, q: nat)
    requires
        start <= q <= bytes.len(),
        forall|k: int| start <= k < q ==> bytes[k] != 0,
    ensures
        q < bytes.len() && bytes[q as int] == 0 ==> scan_zero_byte(bytes, start) == Some(q),
        q == bytes.len() ==> scan_zero_byte(bytes, start) == None::<nat>,
    decreases q - start,
{
    if start < q {
        lemma_scan_zero_byte(bytes, (start + 1) as nat, q);
    }
}

/// A unit scan that has passed only nonzero units resolves at the first
/// zero unit, or fails when no whole unit is left.
pub proof fn lemma_scan_zero_unit(bytes: Seq<u8>, start: nat, q: nat)
    requires
        start <= q <= bytes.len(),
        (q - start) % 2 == 0,
        forall|k: int|
            start <= k < q && (k - start) % 2 == 0 ==> !(#[trigger] bytes[k] == 0 && bytes[k
                + 1] == 0),
    ensures
        q + 2 <= bytes.len() && bytes[q as int] == 0 && bytes[q as int + 1] == 0
            ==> scan_zero_unit(bytes, start) == Some(q),
        bytes.len() < q + 2 ==> scan_zero_unit(bytes, start) == None::<nat>,
    decreases q - start,
{
    if start < q {
        lemma_scan_zero_unit(bytes, (start + 2) as nat, q);
    }
}

/// A byte sequence yields one unit per byte pair.
pub proof fn lemma_units_of_bytes_len(s: Seq<u8>)
    ensures
        units_of_bytes(s).len() == s.len() / 2,
    decreases s.len(),
{
    if s.len() >= 2 {
        lemma_units_of_bytes_len(s.skip(2));
        assert(s.skip(2).len() == s.len() - 2);
    }
}

/// Prepend a value to a decode result that may already have failed.
pub open spec fn cons_val(v: BlockView, r: Option<Seq<BlockView>>) -> Option<Seq<BlockView>> {
    match r {
        Some(s) => Some(seq![v] + s),
        None => None,
    }
}

/// Read the content region from byte `i` on, one value per type code, per
/// the inverse of the classification table. Control codes in the sequence
/// (possible only when the header opened with run markers) describe no
/// value. Fails when the bytes run out before a fixed-width field or a
/// terminator, or on invalid UTF-16.
pub open spec fn content_dec(bytes: Seq<u8>, i: nat, tcs: Seq<u8>) -> Option<Seq<BlockView>>
    decreases tcs.len(),
{
    if tcs.len() == 0 {
        Some(seq![])
    } else {
        let c = tcs[0];
        let rest = tcs.drop_first();
        if c == 0 {
            cons_val(BlockView::Int(0), content_dec(bytes, i, rest))
        } else if c == 1 {
            cons_val(BlockView::Int(1), content_dec(bytes, i, rest))
        } else if c == 2 {
            if i + 1 <= bytes.len() {
                cons_val(BlockView::Int(bytes[i as int] as int), content_dec(bytes, i + 1, rest))
            } else {
                None
            }
        } else if c == 3 {
            if i + 1 <= bytes.len() {
                cons_val(
                    BlockView::Int(bytes[i as int] - 0x100),
                    content_dec(bytes, i + 1, rest),
                )
            } else {
                None
            }
        } else if c == 4 {
            if i + 2 <= bytes.len() {
                cons_val(
                    BlockView::Int(bytes[i as int] + bytes[i as int + 1] * 256),
                    content_dec(bytes, i + 2, rest),
                )
            } else {
                None
            }
        } else if c == 5 {
            if i + 2 <= bytes.len() {
                cons_val(
                    BlockView::Int(bytes[i as int] + bytes[i as int + 1] * 256 - 0x10000),
                    content_dec(bytes, i + 2, rest),
                )
            } else {
                None
            }
        } else if c == 6 || c == 7 || c == 8 {
            if i + 4 <= bytes.len() {
                let n = bytes[i as int] + bytes[i as int + 1] * 256 + bytes[i as int + 2] * 0x10000 + bytes[i as int + 3] * 0x1000000;
                let v = if c == 6 {
                    BlockView::Int(n)
                } else if c == 7 {
                    BlockView::Int(n - 0x1_0000_0000)
                } else {
                    BlockView::F32(n as u32)
                };
                cons_val(v, content_dec(bytes, i + 4, rest))
            } else {
                None
            }
        } else if c == 9 {
            if i + 1 <= bytes.len() {
                let b = bytes[i as int];
                let t = if b == 0 {
                    Seq::<char>::empty()
                } else {
                    seq![(b as char)]
                };
                cons_val(BlockView::Text(t), content_dec(bytes, i + 1, rest))
            } else {
                None
            }
        } else if c == 10 {
            match scan_zero_byte(bytes, i) {
                Some(j) => cons_val(
                    BlockView::Text(bytes.subrange(i as int, j as int).map_values(|b: u8| b as char)),
                    content_dec(bytes, (j + 1) as nat, rest),
                ),
                None => None,
            }
        } else if c == 11 {
            match scan_zero_unit(bytes, i) {
                Some(j) => match utf16_decode(units_of_bytes(bytes.subrange(i as int, j as int))) {
                    Some(t) => cons_val(
                        BlockView::Text(t),
                        content_dec(bytes, (j + 2) as nat, rest),
                    ),
                    None => None,
                },
                None => None,
            }
        } else {
            content_dec(bytes, i, rest)
        }
    }
}

} // verus!
