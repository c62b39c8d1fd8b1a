//! Chunked work partitioning: the flattened sample list is split into
//! contiguous disjoint ranges, one per worker; each worker owns its range and
//! its private histogram exclusively for the whole pass.

use vstd::prelude::*;

verus! {

/// The chunk length used for `count` samples over `threads` workers: the
/// even share, and never less than one sample.
pub open spec fn chunk_len_spec(count: int, threads: int) -> int
    recommends
        threads >= 1,
{
    if count / threads < 1 {
        1
    } else {
        count / threads
    }
}

/// The contiguous chunks covering `[pos, count)` in strides of `cs`.
pub open spec fn chunks_from(pos: int, count: int, cs: int) -> Seq<(int, int)>
    decreases count - pos,
{
    if pos >= count || cs < 1 {
        Seq::empty()
    } else {
        let next = if count < pos + cs {
            count
        } else {
            pos + cs
        };
        seq![(pos, next)] + chunks_from(next, count, cs)
    }
}

/// The chunk layout of `count` samples over `threads` workers.
pub open spec fn chunks_of(count: int, threads: int) -> Seq<(int, int)> {
    chunks_from(0, count, chunk_len_spec(count, threads))
}

/// Contiguous disjoint chunks of `[0, count)`: exactly `chunks_of`.
pub fn chunk_bounds(count: usize, threads: usize) -> (r: Vec<(usize, usize)>)
    requires
        threads >= 1,
    ensures
        r@.map_values(|p: (usize, usize)| (p.0 as int, p.1 as int)) == chunks_of(
            count as int,
            threads as int,
        ),
        count == 0 ==> r@.len() == 0,
        count > 0 ==> r@.len() >= 1,
        forall|i: int| 0 <= i < r@.len() ==> #[trigger] r@[i].0 < r@[i].1 <= count,
        forall|i: int|
            0 <= i < r@.len() ==> #[trigger] r@[i].0 == if i == 0 {
                0int
            } else {
                r@[i - 1].1 as int
            },
        r@.len() > 0 ==> r@[r@.len() - 1].1 == count,
        forall|i: int|
            0 <= i < r@.len() ==> #[trigger] (r@[i].1 - r@[i].0) <= chunk_len_spec(
                count as int,
                threads as int,
            ),
{
    let share: usize = count / threads;
    let cs: usize = if share < 1 {
        1
    } else {
        share
    };
    let mut bounds: Vec<(usize, usize)> = Vec::new();
    let mut pos: usize = 0;
    while pos < count
        invariant
            1 <= cs,
            cs == chunk_len_spec(count as int, threads as int),
            pos <= count,
            count > 0 ==> (pos == 0 <==> bounds@.len() == 0),
            count == 0 ==> bounds@.len() == 0,
            bounds@.map_values(|p: (usize, usize)| (p.0 as int, p.1 as int)) + chunks_from(
                pos as int,
                count as int,
                cs as int,
            ) == chunks_of(count as int, threads as int),
            forall|i: int| 0 <= i < bounds@.len() ==> #[trigger] bounds@[i].0 < bounds@[i].1
                <= count,
            forall|i: int|
                0 <= i < bounds@.len() ==> #[trigger] bounds@[i].0 == if i == 0 {
                    0int
                } else {
                    bounds@[i - 1].1 as int
                },
            bounds@.len() > 0 ==> bounds@[bounds@.len() - 1].1 == pos,
            forall|i: int|
                0 <= i < bounds@.len() ==> #[trigger] (bounds@[i].1 - bounds@[i].0) <= cs,
        decreases count - pos,
    {
        let next: usize = if count - pos < cs {
            count
        } else {
            pos + cs
        };
        let ghost prev = bounds@;
        bounds.push((pos, next));
        proof {
            let m = |p: (usize, usize)| (p.0 as int, p.1 as int);
            assert(bounds@.map_values(m) =~= prev.map_values(m).push((pos as int, next as int)));
            assert(chunks_from(pos as int, count as int, cs as int) == seq![
                (pos as int, next as int),
            ] + chunks_from(next as int, count as int, cs as int));
            assert(prev.map_values(m).push((pos as int, next as int)) + chunks_from(
                next as int,
                count as int,
                cs as int,
            ) =~= prev.map_values(m) + chunks_from(pos as int, count as int, cs as int));
        }
        pos = next;
    }
    proof {
        assert(chunks_from(pos as int, count as int, cs as int) =~= Seq::<(int, int)>::empty());
        assert(bounds@.map_values(|p: (usize, usize)| (p.0 as int, p.1 as int)) + Seq::<
            (int, int),
        >::empty() =~= bounds@.map_values(|p: (usize, usize)| (p.0 as int, p.1 as int)));
    }
    bounds
}

} // verus!
