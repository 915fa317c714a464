//! The scalar value a packet carries, and its type-code classification.

use vstd::prelude::*;

verus! {

/// A scalar value carried by a packet.
///
/// A number is handed over by the host in one of two forms: an integral
/// number within [-2^32, 2^32) arrives as `Int`, and every other number
/// arrives as `F32`, the bit pattern of the single-precision float the wire
/// carries for it (a lossy narrowing the format accepts). Text is an ordered
/// sequence of Unicode scalar values.
#[derive(Debug, Clone, PartialEq)]
pub enum Block {
    Bool(bool),
    Int(i64),
    F32(u32),
    Text(Vec<char>),
}

/// The mathematical model of a `Block`: the same four shapes over `int` and
/// `Seq<char>`.
pub enum BlockView {
    Bool(bool),
    Int(int),
    F32(u32),
    Text(Seq<char>),
}

impl View for Block {
    type V = BlockView;

    open spec fn view(&self) -> BlockView {
        match self {
            Block::Bool(b) => BlockView::Bool(*b),
            Block::Int(n) => BlockView::Int(*n as int),
            Block::F32(bits) => BlockView::F32(*bits),
            Block::Text(t) => BlockView::Text(t@),
        }
    }
}

/// The model of a whole message: each block's model, in order.
pub open spec fn msg_view(m: Seq<Block>) -> Seq<BlockView> {
    m.map_values(|b: Block| b@)
}

/// An `Int` block must hold what the wire can carry exactly: an integral
/// number within [-2^32, 2^32). The host sends every other number as `F32`.
pub open spec fn wf_view(v: BlockView) -> bool {
    match v {
        BlockView::Int(n) => -0x1_0000_0000 <= n < 0x1_0000_0000,
        _ => true,
    }
}

/// All blocks of a message are well formed.
pub open spec fn wf_msg(m: Seq<BlockView>) -> bool {
    forall|i: int| 0 <= i < m.len() ==> wf_view(#[trigger] m[i])
}

/// An ASCII character: code point below 128.
pub open spec fn ascii_char(c: char) -> bool {
    (c as u32) < 0x80
}

/// Text made only of ASCII characters.
pub open spec fn ascii_text(t: Seq<char>) -> bool {
    forall|i: int| 0 <= i < t.len() ==> ascii_char(#[trigger] t[i])
}

/// The type code assigned to a value, by the classification table: booleans
/// and the numbers 0 and 1 share codes 0 and 1; other integral numbers take
/// the narrowest unsigned or offset-signed width (codes 2-7); every other
/// number is a single-precision float (code 8); text is a single optional
/// ASCII character (code 9), a longer ASCII run (code 10), or UTF-16 (code
/// 11).
pub open spec fn code_of(v: BlockView) -> u8 {
    match v {
        BlockView::Bool(b) => if b {
            1
        } else {
            0
        },
        BlockView::Int(n) => if n == 0 {
            0
        } else if n == 1 {
            1
        } else if 2 <= n < 0x100 {
            2
        } else if -0x100 <= n < 0 {
            3
        } else if 0x100 <= n < 0x10000 {
            4
        } else if -0x10000 <= n < -0x100 {
            5
        } else if 0x10000 <= n < 0x1_0000_0000 {
            6
        } else {
            7
        },
        BlockView::F32(_) => 8,
        BlockView::Text(t) => if ascii_text(t) && t.len() <= 1 {
            9
        } else if ascii_text(t) {
            10
        } else {
            11
        },
    }
}

/// The per-value type codes of a whole message, in order.
pub open spec fn codes_of(m: Seq<BlockView>) -> Seq<u8> {
    m.map_values(|v: BlockView| code_of(v))
}

impl Block {
    /// Whether two values are equal, variant and payload both.
    pub fn compare(blocka: &Self, blockb: &Self) -> (r: bool)
        ensures
            r <==> blocka@ == blockb@,
    {
        match (blocka, blockb) {
            (Block::Bool(a), Block::Bool(b)) => a == b,
            (Block::Int(a), Block::Int(b)) => a == b,
            (Block::F32(a), Block::F32(b)) => a == b,
            (Block::Text(a), Block::Text(b)) => {
                if a.len() != b.len() {
                    proof {
                        assert(a@ != b@);
                    }
                    false
                } else {
                    let mut i: usize = 0;
                    let mut same: bool = true;
                    while i < a.len()
                        invariant
                            i <= a@.len(),
                            a@.len() == b@.len(),
                            same <==> (forall|j: int| 0 <= j < i ==> a@[j] == b@[j]),
                        decreases a@.len() - i,
                    {
                        if a[i] != b[i] {
                            same = false;
                        }
                        i += 1;
                    }
                    proof {
                        if same {
                            assert(a@ =~= b@);
                        }
                    }
                    same
                }
            },
            _ => false,
        }
    }

    /// Whether this value is a number (integral or single-precision).
    pub fn is_number(&self) -> (r: bool)
        ensures
            r <==> (self@ is Int || self@ is F32),
    {
        match self {
            Block::Int(_) => true,
            Block::F32(_) => true,
            _ => false,
        }
    }

    /// The numeric value of a boolean or an integral number; a
    /// single-precision number is reached through `as_f32_bits` instead.
    pub fn as_number(&self) -> (r: i64)
        requires
            self@ is Bool || self@ is Int,
        ensures
            self@ matches BlockView::Bool(b) ==> r == (if b {
                1int
            } else {
                0int
            }),
            self@ matches BlockView::Int(n) ==> r == n,
    {
        match self {
            Block::Bool(v) => if *v {
                1
            } else {
                0
            },
            Block::Int(v) => *v,
            _ => 0,
        }
    }

    /// The bit pattern of a single-precision number.
    pub fn as_f32_bits(&self) -> (r: u32)
        requires
            self@ is F32,
        ensures
            self@ matches BlockView::F32(bits) ==> r == bits,
    {
        match self {
            Block::F32(v) => *v,
            _ => 0,
        }
    }

    /// Whether this value is text.
    pub fn is_string(&self) -> (r: bool)
        ensures
            r <==> self@ is Text,
    {
        match self {
            Block::Text(_) => true,
            _ => false,
        }
    }

    /// A copy of this value's text.
    pub fn as_string(&self) -> (r: Vec<char>)
        requires
            self@ is Text,
        ensures
            self@ matches BlockView::Text(t) ==> r@ == t,
    {
        match self {
            Block::Text(v) => {
                let mut r: Vec<char> = Vec::new();
                let mut i: usize = 0;
                while i < v.len()
                    invariant
                        i <= v@.len(),
                        r@ == v@.take(i as int),
                    decreases v@.len() - i,
                {
                    r.push(v[i]);
                    proof {
                        assert(r@ =~= v@.take(i as int + 1));
                    }
                    i += 1;
                }
                proof {
                    assert(v@.take(v@.len() as int) =~= v@);
                }
                r
            },
            _ => Vec::new(),
        }
    }

    /// Classify this value into its 4-bit type code.
    pub fn type_code(&self) -> (c: u8)
        ensures
            c == code_of(self@),
    {
        match self {
            Block::Bool(b) => if *b {
                1
            } else {
                0
            },
            Block::Int(n) => {
                let n = *n;
                if n == 0 {
                    0
                } else if n == 1 {
                    1
                } else if 2 <= n && n < 0x100 {
                    2
                } else if -0x100 <= n && n < 0 {
                    3
                } else if 0x100 <= n && n < 0x10000 {
                    4
                } else if -0x10000 <= n && n < -0x100 {
                    5
                } else if 0x10000 <= n && n < 0x1_0000_0000 {
                    6
                } else {
                    7
                }
            },
            Block::F32(_) => 8,
            Block::Text(t) => {
                let mut i: usize = 0;
                let mut all_ascii: bool = true;
                while i < t.len()
                    invariant
                        i <= t@.len(),
                        all_ascii <==> (forall|j: int|
                            0 <= j < i ==> ascii_char(#[trigger] t@[j])),
                    decreases t@.len() - i,
                {
                    if (t[i] as u32) >= 0x80 {
                        all_ascii = false;
                    }
                    i += 1;
                }
                if all_ascii && t.len() <= 1 {
                    9
                } else if all_ascii {
                    10
                } else {
                    11
                }
            },
        }
    }
}

} // verus!
