use vstd::prelude::*;

verus! {

/// Where segment `i` of `file_count` files split among `thread_count` workers begins:
/// every worker gets `file_count / thread_count` files, and the first
/// `file_count % thread_count` workers one more, so that no file is left out.
pub open spec fn segment_start(file_count: nat, thread_count: nat, i: nat) -> nat
    recommends
        thread_count > 0,
{
    let size = file_count / thread_count;
    let rem = file_count % thread_count;
    i * size + if i < rem {
        i
    } else {
        rem
    }
}

/// Splits `file_count` files into `thread_count` contiguous segments, one per worker,
/// given as `(start, end)` pairs.
pub fn segment_bounds(file_count: usize, thread_count: usize) -> (r: Vec<(usize, usize)>)
    requires
        thread_count > 0,
    ensures
        r@.len() == thread_count,
        forall|i: int| 0 <= i < thread_count ==> #[trigger] r@[i].0 == segment_start(file_count as nat, thread_count as nat, i as nat)
            && r@[i].1 == segment_start(file_count as nat, thread_count as nat, (i + 1) as nat),
        forall|i: int| 0 <= i < thread_count ==> #[trigger] r@[i].0 <= r@[i].1 <= file_count,
        r@[0].0 == 0,
        r@[thread_count - 1].1 == file_count,
{
    let size = file_count / thread_count;
    let rem = file_count % thread_count;
    let mut r: Vec<(usize, usize)> = Vec::new();
    let mut start: usize = 0;
    let mut i: usize = 0;
    proof {
        assert(file_count == size * thread_count + rem) by (nonlinear_arith)
            requires size == file_count / thread_count, rem == file_count % thread_count, thread_count > 0;
    }
    while i < thread_count
        invariant
            0 <= i <= thread_count,
            size == file_count / thread_count,
            rem == file_count % thread_count,
            rem < thread_count,
            file_count == size * thread_count + rem,
            r@.len() == i,
            start == segment_start(file_count as nat, thread_count as nat, i as nat),
            start <= file_count,
            start == i * size + if i < rem { i as int } else { rem as int },
            forall|k: int| 0 <= k < i ==> #[trigger] r@[k].0 == segment_start(file_count as nat, thread_count as nat, k as nat)
                && r@[k].1 == segment_start(file_count as nat, thread_count as nat, (k + 1) as nat),
            forall|k: int| 0 <= k < i ==> #[trigger] r@[k].0 <= r@[k].1 <= file_count,
        decreases thread_count - i,
    {
        let extra: usize = if i < rem { 1 } else { 0 };
        proof {
            assert((i + 1) * size + (if i + 1 < rem { (i + 1) as int } else { rem as int }) <= file_count) by (nonlinear_arith)
                requires i < thread_count, file_count == size * thread_count + rem, rem < thread_count;
            assert((i + 1) * size == i * size + size) by (nonlinear_arith);
        }
        let end = start + size + extra;
        proof {
            assert(end == segment_start(file_count as nat, thread_count as nat, (i + 1) as nat));
        }
        r.push((start, end));
        start = end;
        i = i + 1;
    }
    proof {
        assert(thread_count * size == size * thread_count) by (nonlinear_arith);
        assert(start == file_count);
        let k = thread_count - 1;
        assert(r@[k as int].0 == segment_start(file_count as nat, thread_count as nat, k as nat));
        assert(r@[k as int].1 == segment_start(file_count as nat, thread_count as nat, (k + 1) as nat));
    }
    r
}

} // verus!
