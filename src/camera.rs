//! Gathering rendered pixels into a row-major image buffer.
use vstd::prelude::*;

verus! {

/// Slot of pixel `(x, y)` in a row-major buffer of rows `width` wide.
pub open spec fn slot(width: nat, x: nat, y: nat) -> int {
    (y * width + x) as int
}

/// The colour that slot `k` ends with once `pixels` have been written in order
/// over a buffer filled with `fill`: the last write to the slot wins.
pub open spec fn painted<C>(pixels: Seq<(usize, usize, C)>, width: nat, fill: C, k: int) -> C
    decreases pixels.len(),
{
    if pixels.len() == 0 {
        fill
    } else {
        let (x, y, c) = pixels.last();
        if slot(width, x as nat, y as nat) == k {
            c
        } else {
            painted(pixels.drop_last(), width, fill, k)
        }
    }
}

/// Writes each `(x, y, colour)` into a `width` by `height` buffer, row by row,
/// top to bottom; slots that no pixel names keep `fill`.
pub fn collect_pixels<C: Copy>(
    width: usize,
    height: usize,
    pixels: Vec<(usize, usize, C)>,
    fill: C,
) -> (r: Vec<C>)
    requires
        width * height <= usize::MAX,
        forall|k: int| 0 <= k < pixels@.len() ==> (#[trigger] pixels@[k]).0 < width && pixels@[k].1 < height,
    ensures
        r@.len() == width * height,
        forall|k: int| 0 <= k < r@.len() ==> r@[k] == painted(pixels@, width as nat, fill, k),
{
    let n = width * height;
    let mut result: Vec<C> = Vec::new();
    while result.len() < n
        invariant
            result@.len() <= n,
            forall|k: int| 0 <= k < result@.len() ==> result@[k] == fill,
        decreases n - result@.len(),
    {
        result.push(fill);
    }
    let mut i: usize = 0;
    while i < pixels.len()
        invariant
            i <= pixels@.len(),
            n == width * height,
            result@.len() == n,
            forall|k: int| 0 <= k < pixels@.len() ==> (#[trigger] pixels@[k]).0 < width && pixels@[k].1 < height,
            forall|k: int| 0 <= k < n ==> result@[k] == painted(pixels@.take(i as int), width as nat, fill, k),
        decreases pixels@.len() - i,
    {
        let (x, y, c) = pixels[i];
        assert(pixels@[i as int].0 < width && pixels@[i as int].1 < height);
        assert(y * width + x < width * height) by (nonlinear_arith)
            requires
                x < width,
                y < height,
        ;
        let idx = y * width + x;
        result[idx] = c;
        proof {
            let next = pixels@.take(i + 1);
            assert(next.drop_last() =~= pixels@.take(i as int));
            assert(next.last() == pixels@[i as int]);
        }
        i += 1;
    }
    proof {
        assert(pixels@.take(pixels@.len() as int) =~= pixels@);
    }
    result
}

/// No two pixels of the list name the same slot.
pub open spec fn distinct_slots<C>(pixels: Seq<(usize, usize, C)>, width: nat) -> bool {
    forall|i: int, j: int|
        0 <= i < pixels.len() && 0 <= j < pixels.len() && i != j ==> slot(
            width,
            (#[trigger] pixels[i]).0 as nat,
            pixels[i].1 as nat,
        ) != slot(width, (#[trigger] pixels[j]).0 as nat, pixels[j].1 as nat)
}

/// With distinct slots, a slot holds the colour of the pixel that names it,
/// or `fill` when none does.
proof fn lemma_painted_distinct<C>(pixels: Seq<(usize, usize, C)>, width: nat, fill: C, k: int)
    requires
        distinct_slots(pixels, width),
    ensures
        (forall|i: int| 0 <= i < pixels.len() ==> slot(width, (#[trigger] pixels[i]).0 as nat, pixels[i].1 as nat) != k)
            ==> painted(pixels, width, fill, k) == fill,
        forall|i: int|
            0 <= i < pixels.len() && slot(width, (#[trigger] pixels[i]).0 as nat, pixels[i].1 as nat) == k
                ==> painted(pixels, width, fill, k) == pixels[i].2,
    decreases pixels.len(),
{
    if pixels.len() > 0 {
        let prefix = pixels.drop_last();
        assert(distinct_slots(prefix, width)) by {
            assert forall|i: int, j: int|
                0 <= i < prefix.len() && 0 <= j < prefix.len() && i != j implies slot(
                width,
                (#[trigger] prefix[i]).0 as nat,
                prefix[i].1 as nat,
            ) != slot(width, (#[trigger] prefix[j]).0 as nat, prefix[j].1 as nat) by {
                assert(prefix[i] == pixels[i] && prefix[j] == pixels[j]);
            }
        }
        lemma_painted_distinct(prefix, width, fill, k);
        let last = pixels.len() - 1;
        assert forall|i: int|
            0 <= i < pixels.len() && slot(width, (#[trigger] pixels[i]).0 as nat, pixels[i].1 as nat) == k
                implies painted(pixels, width, fill, k) == pixels[i].2 by {
            if i < last {
                assert(prefix[i] == pixels[i]);
                assert(pixels[last] == pixels.last());
            }
        }
        if forall|i: int| 0 <= i < pixels.len() ==> slot(width, (#[trigger] pixels[i]).0 as nat, pixels[i].1 as nat) != k {
            assert(pixels[last] == pixels.last());
            assert forall|i: int| 0 <= i < prefix.len() implies slot(width, (#[trigger] prefix[i]).0 as nat, prefix[i].1 as nat) != k by {
                assert(prefix[i] == pixels[i]);
            }
        }
    }
}

/// When each slot is written by at most one pixel, the buffer does not depend
/// on the order in which the pixels arrive.
pub proof fn lemma_pixel_order_irrelevant<C>(
    order_a: Seq<(usize, usize, C)>,
    order_b: Seq<(usize, usize, C)>,
    width: nat,
    fill: C,
    k: int,
)
    requires
        order_a.to_multiset() == order_b.to_multiset(),
        distinct_slots(order_a, width),
        distinct_slots(order_b, width),
    ensures
        painted(order_a, width, fill, k) == painted(order_b, width, fill, k),
{
    lemma_painted_distinct(order_a, width, fill, k);
    lemma_painted_distinct(order_b, width, fill, k);
    if exists|i: int| 0 <= i < order_a.len() && slot(width, (#[trigger] order_a[i]).0 as nat, order_a[i].1 as nat) == k {
        let i = choose|i: int| 0 <= i < order_a.len() && slot(width, (#[trigger] order_a[i]).0 as nat, order_a[i].1 as nat) == k;
        vstd::seq_lib::to_multiset_contains(order_a, order_a[i]);
        vstd::seq_lib::to_multiset_contains(order_b, order_a[i]);
        assert(order_a.contains(order_a[i]));
        let j = choose|j: int| 0 <= j < order_b.len() && order_b[j] == order_a[i];
        assert(slot(width, order_b[j].0 as nat, order_b[j].1 as nat) == k);
    } else if exists|j: int| 0 <= j < order_b.len() && slot(width, (#[trigger] order_b[j]).0 as nat, order_b[j].1 as nat) == k {
        let j = choose|j: int| 0 <= j < order_b.len() && slot(width, (#[trigger] order_b[j]).0 as nat, order_b[j].1 as nat) == k;
        vstd::seq_lib::to_multiset_contains(order_a, order_b[j]);
        vstd::seq_lib::to_multiset_contains(order_b, order_b[j]);
        assert(order_b.contains(order_b[j]));
        let i = choose|i: int| 0 <= i < order_a.len() && order_a[i] == order_b[j];
        assert(slot(width, order_a[i].0 as nat, order_a[i].1 as nat) == k);
    }
}

} // verus!
