//! Stereo blocks: samples left and right in turn, or a block for each side.
use vstd::prelude::*;

verus! {

/// The left sample of a frame.
pub open spec fn left(block: Seq<u32>, frame: int) -> u32 {
    block[2 * frame]
}

/// The right sample of a frame.
pub open spec fn right(block: Seq<u32>, frame: int) -> u32 {
    block[2 * frame + 1]
}

/// The left side of a block.
pub open spec fn left_side(block: Seq<u32>) -> Seq<u32> {
    Seq::new(block.len() / 2, |f: int| left(block, f))
}

/// The right side of a block.
pub open spec fn right_side(block: Seq<u32>) -> Seq<u32> {
    Seq::new(block.len() / 2, |f: int| right(block, f))
}

/// The block with its sides replaced. A last sample that makes no whole frame is
/// left as it was.
pub open spec fn woven(block: Seq<u32>, lefts: Seq<u32>, rights: Seq<u32>) -> Seq<u32> {
    Seq::new(
        block.len(),
        |i: int|
            if i / 2 >= block.len() / 2 {
                block[i]
            } else if i % 2 == 0 {
                lefts[i / 2]
            } else {
                rights[i / 2]
            },
    )
}

/// `start` followed by what `whole` holds from there on.
pub open spec fn overwritten(whole: Seq<u32>, start: Seq<u32>) -> Seq<u32> {
    start + whole.skip(start.len() as int)
}

/// Writes the sides of a block to the start of two buffers.
pub fn deinterleave(data: &[u32], lefts: &mut [u32], rights: &mut [u32])
    requires
        data@.len() / 2 <= old(lefts)@.len(),
        data@.len() / 2 <= old(rights)@.len(),
    ensures
        final(lefts)@ == overwritten(old(lefts)@, left_side(data@)),
        final(rights)@ == overwritten(old(rights)@, right_side(data@)),
        final(lefts)@.len() == old(lefts)@.len(),
        final(rights)@.len() == old(rights)@.len(),
        forall|i: int|
            0 <= i < data@.len() / 2 ==> #[trigger] final(lefts)@[i] == data@[2 * i],
        forall|i: int|
            0 <= i < data@.len() / 2 ==> #[trigger] final(rights)@[i] == data@[2 * i + 1],
        forall|i: int|
            data@.len() / 2 <= i < old(lefts)@.len() ==> #[trigger] final(lefts)@[i] == old(
                lefts,
            )@[i],
        forall|i: int|
            data@.len() / 2 <= i < old(rights)@.len() ==> #[trigger] final(rights)@[i] == old(
                rights,
            )@[i],
{
    let ghost l = lefts@;
    let ghost r = rights@;
    let frames = data.len() / 2;
    let mut i: usize = 0;
    while i < frames
        invariant
            frames == data@.len() / 2,
            data@.len() <= usize::MAX,
            i <= frames,
            frames <= l.len() == lefts@.len(),
            frames <= r.len() == rights@.len(),
            forall|j: int| 0 <= j < i ==> #[trigger] lefts@[j] == left(data@, j),
            forall|j: int| i <= j < l.len() ==> #[trigger] lefts@[j] == l[j],
            forall|j: int| 0 <= j < i ==> #[trigger] rights@[j] == right(data@, j),
            forall|j: int| i <= j < r.len() ==> #[trigger] rights@[j] == r[j],
        decreases frames - i,
    {
        lefts[i] = data[i * 2];
        rights[i] = data[i * 2 + 1];
        i = i + 1;
    }
    assert(lefts@ =~= overwritten(l, left_side(data@)));
    assert(rights@ =~= overwritten(r, right_side(data@)));
}

/// Writes the start of two buffers to the sides of a block.
pub fn interleave(lefts: &[u32], rights: &[u32], data: &mut [u32])
    requires
        old(data)@.len() / 2 <= lefts@.len(),
        old(data)@.len() / 2 <= rights@.len(),
    ensures
        final(data)@ == woven(old(data)@, lefts@, rights@),
        final(data)@.len() == old(data)@.len(),
        forall|i: int|
            0 <= i < old(data)@.len() / 2 ==> final(data)@[2 * i] == #[trigger] lefts@[i],
        forall|i: int|
            0 <= i < old(data)@.len() / 2 ==> final(data)@[2 * i + 1] == #[trigger] rights@[i],
        old(data)@.len() % 2 == 1 ==> final(data)@.last() == old(data)@.last(),
{
    let ghost before = data@;
    let frames = data.len() / 2;
    let mut i: usize = 0;
    while i < frames
        invariant
            before.len() == data@.len() <= usize::MAX,
            frames == before.len() / 2,
            i <= frames,
            frames <= lefts@.len(),
            frames <= rights@.len(),
            forall|j: int|
                0 <= j < 2 * i ==> #[trigger] data@[j] == woven(before, lefts@, rights@)[j],
            forall|j: int| 2 * i <= j < before.len() ==> #[trigger] data@[j] == before[j],
        decreases frames - i,
    {
        data[i * 2] = lefts[i];
        data[i * 2 + 1] = rights[i];
        i = i + 1;
    }
    assert(data@ =~= woven(before, lefts@, rights@));
}

/// Taking a block apart and putting it together again gives it back.
pub proof fn sides_put_together_give_the_block(block: Seq<u32>)
    ensures
        woven(block, left_side(block), right_side(block)) == block,
{
    assert(woven(block, left_side(block), right_side(block)) =~= block);
}

/// A block put together from two sides has these sides.
pub proof fn woven_blocks_have_their_sides(block: Seq<u32>, lefts: Seq<u32>, rights: Seq<u32>)
    requires
        lefts.len() == block.len() / 2,
        rights.len() == block.len() / 2,
    ensures
        left_side(woven(block, lefts, rights)) == lefts,
        right_side(woven(block, lefts, rights)) == rights,
{
    assert(left_side(woven(block, lefts, rights)) =~= lefts);
    assert(right_side(woven(block, lefts, rights)) =~= rights);
}

/// The sides of a block are its samples in turn.
pub proof fn sides_take_turns(block: Seq<u32>, frame: int)
    requires
        0 <= frame < block.len() / 2,
    ensures
        left_side(block).len() == block.len() / 2,
        right_side(block).len() == block.len() / 2,
        left_side(block)[frame] == block[2 * frame],
        right_side(block)[frame] == block[2 * frame + 1],
{
}

/// A block is put together from its sides in turn, and a last sample that makes no whole
/// frame is kept.
pub proof fn woven_blocks_take_turns(
    block: Seq<u32>,
    lefts: Seq<u32>,
    rights: Seq<u32>,
    frame: int,
)
    requires
        0 <= frame < block.len() / 2,
    ensures
        woven(block, lefts, rights).len() == block.len(),
        woven(block, lefts, rights)[2 * frame] == lefts[frame],
        woven(block, lefts, rights)[2 * frame + 1] == rights[frame],
        block.len() % 2 == 1 ==> woven(block, lefts, rights).last() == block.last(),
{
}

}
