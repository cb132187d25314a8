//! The implicit triangular layout.
//!
//! A beap stores its elements in one flat sequence that is read as the rows of
//! a triangular matrix: block 1 holds one slot, block 2 the next two, block `b`
//! the next `b`. A slot is named either by its flat index or by its block and
//! its offset inside that block.
use vstd::prelude::*;

verus! {

/// Flat index of the first slot of block `b`.
#[verifier::opaque]
pub open spec fn block_start(b: int) -> int {
    b * (b - 1) / 2
}

/// Flat index of the slot at offset `p` of block `b`.
pub open spec fn slot(b: int, p: int) -> int {
    block_start(b) + p
}

/// `p` is an offset inside block `b`.
pub open spec fn in_block(b: int, p: int) -> bool {
    1 <= b && 0 <= p < b
}

/// Block `b` owns flat index `i`.
pub open spec fn owns(b: int, i: int) -> bool {
    1 <= b && block_start(b) <= i < block_start(b + 1)
}

/// The block that owns flat index `i`.
pub open spec fn block_of(i: int) -> int {
    choose|b: int| owns(b, i)
}

/// `h` is the number of blocks that a sequence of `len` elements occupies.
pub open spec fn height_fits(len: int, h: int) -> bool {
    if len == 0 {
        h == 0
    } else {
        1 <= h && block_start(h) < len <= block_start(h + 1)
    }
}

/// Each block starts where the one before it ends.
pub proof fn lemma_block_step(b: int)
    ensures
        block_start(b + 1) == block_start(b) + b,
{
    reveal(block_start);
    assert((b + 1) * b == b * (b - 1) + 2 * b) by (nonlinear_arith);
}

/// The first blocks.
pub proof fn lemma_block_first()
    ensures
        block_start(0) == 0,
        block_start(1) == 0,
        block_start(2) == 1,
{
    reveal(block_start);
}

/// Later blocks start later, by at least the blocks in between.
pub proof fn lemma_block_monotone(a: int, b: int)
    requires
        0 <= a <= b,
    ensures
        block_start(a) <= block_start(b),
        a < b ==> block_start(a) + a <= block_start(b),
        b <= block_start(b) + 1,
        0 <= block_start(a),
    decreases b - a,
{
    lemma_block_first();
    lemma_block_bound(a);
    if a < b {
        lemma_block_step(a);
        lemma_block_monotone(a + 1, b);
    } else {
        lemma_block_bound(b);
    }
}

/// A block never starts before the number of blocks above it.
pub proof fn lemma_block_bound(b: int)
    requires
        0 <= b,
    ensures
        b <= block_start(b) + 1,
    decreases b,
{
    lemma_block_first();
    if b > 1 {
        lemma_block_bound(b - 1);
        lemma_block_step(b - 1);
    }
}

/// A flat index has one block and one offset only.
pub proof fn lemma_slot_unique(ba: int, pa: int, bb: int, pb: int)
    requires
        in_block(ba, pa),
        in_block(bb, pb),
        slot(ba, pa) == slot(bb, pb),
    ensures
        ba == bb,
        pa == pb,
{
    lemma_block_step(ba);
    lemma_block_step(bb);
    if ba < bb {
        lemma_block_monotone(ba + 1, bb);
    }
    if bb < ba {
        lemma_block_monotone(bb + 1, ba);
    }
}

/// Two slots share a flat index only if they share block and offset.
pub proof fn lemma_slot_apart(ba: int, pa: int, bb: int, pb: int)
    requires
        in_block(ba, pa),
        in_block(bb, pb),
    ensures
        slot(ba, pa) == slot(bb, pb) <==> ba == bb && pa == pb,
{
    if slot(ba, pa) == slot(bb, pb) {
        lemma_slot_unique(ba, pa, bb, pb);
    }
}

/// Every flat index lies in some block.
pub proof fn lemma_block_exists(i: int) -> (b: int)
    requires
        0 <= i,
    ensures
        1 <= b,
        block_start(b) <= i < block_start(b + 1),
    decreases i,
{
    lemma_block_first();
    if i == 0 {
        1
    } else {
        let c = lemma_block_exists(i - 1);
        lemma_block_step(c);
        lemma_block_step(c + 1);
        if i < block_start(c + 1) {
            c
        } else {
            c + 1
        }
    }
}

/// `block_of` names the block of a flat index, and its offset is in range.
pub proof fn lemma_block_of(i: int)
    requires
        0 <= i,
    ensures
        1 <= block_of(i),
        block_start(block_of(i)) <= i < block_start(block_of(i) + 1),
        in_block(block_of(i), i - block_start(block_of(i))),
        slot(block_of(i), i - block_start(block_of(i))) == i,
{
    let b = lemma_block_exists(i);
    assert(owns(b, i));
    lemma_block_step(block_of(i));
}

/// The block of a slot given by block and offset is that block.
pub proof fn lemma_block_of_slot(b: int, p: int)
    requires
        in_block(b, p),
    ensures
        block_of(slot(b, p)) == b,
{
    lemma_block_bound(b);
    lemma_block_of(slot(b, p));
    let c = block_of(slot(b, p));
    lemma_slot_unique(b, p, c, slot(b, p) - block_start(c));
}

/// The number of blocks follows from the length.
pub proof fn lemma_height_unique(len: int, ha: int, hb: int)
    requires
        height_fits(len, ha),
        height_fits(len, hb),
    ensures
        ha == hb,
{
    if len != 0 {
        lemma_block_step(ha);
        lemma_block_step(hb);
        if ha < hb {
            lemma_block_monotone(ha + 1, hb);
        }
        if hb < ha {
            lemma_block_monotone(hb + 1, ha);
        }
    }
}

/// Flat index of the first slot of block `b`, computed without leaving `usize`.
pub fn first_slot(b: usize) -> (r: usize)
    requires
        block_start(b as int) <= usize::MAX,
    ensures
        r == block_start(b as int),
{
    if b == 0 {
        proof {
            lemma_block_first();
        }
        0
    } else if b % 2 == 0 {
        let half: usize = b / 2;
        assert(half * (b - 1) == block_start(b as int)) by (nonlinear_arith)
            requires
                b == 2 * half,
        {
            reveal(block_start);
        }
        half * (b - 1)
    } else {
        let half: usize = (b - 1) / 2;
        assert(b * half == block_start(b as int)) by (nonlinear_arith)
            requires
                b - 1 == 2 * half,
        {
            reveal(block_start);
        }
        b * half
    }
}

/// The number of blocks that `len` elements occupy.
pub fn height_for(len: usize) -> (h: usize)
    ensures
        height_fits(len as int, h as int),
{
    let mut h: usize = 0;
    let mut rest: usize = len;
    proof {
        lemma_block_first();
    }
    while rest > 0
        invariant
            rest <= len,
            h <= len - rest,
            rest > 0 ==> len - rest == block_start(h + 1),
            rest == 0 ==> height_fits(len as int, h as int),
        decreases rest,
    {
        proof {
            lemma_block_step(h + 1);
        }
        if h == len - rest {
            proof {
                lemma_block_bound(h + 1);
                lemma_block_first();
                lemma_block_step(1);
                lemma_block_step(2);
                if h >= 2 {
                    lemma_block_monotone(3, h + 1);
                }
            }
        }
        h = h + 1;
        if rest <= h {
            rest = 0;
        } else {
            rest = rest - h;
        }
    }
    h
}

/// The block, among the first `height`, that owns flat index `pos`.
pub fn locate(pos: usize, height: usize) -> (b: usize)
    requires
        1 <= height,
        block_start(height as int) <= usize::MAX,
        pos < block_start(height + 1),
    ensures
        b == block_of(pos as int),
        1 <= b <= height,
        block_start(b as int) <= pos < block_start(b + 1),
{
    let mut b: usize = height;
    let mut start: usize = first_slot(height);
    while start > pos
        invariant
            1 <= b <= height,
            start == block_start(b as int),
            pos < block_start(b + 1),
        decreases b,
    {
        proof {
            lemma_block_first();
            lemma_block_step(b - 1);
            lemma_block_monotone(0, b - 1);
        }
        b = b - 1;
        start = start - b;
    }
    proof {
        lemma_block_step(b as int);
        lemma_block_of(pos as int);
        lemma_slot_unique(
            b as int,
            pos - block_start(b as int),
            block_of(pos as int),
            pos - block_start(block_of(pos as int)),
        );
    }
    b
}

} // verus!
