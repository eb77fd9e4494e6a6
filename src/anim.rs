use vstd::prelude::*;

verus! {

/// Total duration of the first `n` frames.
pub open spec fn elapsed(d: Seq<u32>, n: int) -> int
    decreases n,
{
    if n <= 0 || n > d.len() {
        0
    } else {
        elapsed(d, n - 1) + d[n - 1]
    }
}

proof fn lemma_elapsed_bounds(d: Seq<u32>, n: int)
    requires
        0 <= n <= d.len(),
    ensures
        0 <= elapsed(d, n) <= n * 4294967295,
    decreases n,
{
    if n > 0 {
        lemma_elapsed_bounds(d, n - 1);
    }
}

/// Index of the frame shown at `time` (milliseconds) of a looping
/// animation whose frames last `durations` milliseconds: the frame whose
/// span holds `time` modulo the total length. `None` when the total length
/// is zero.
pub fn frame_at(durations: &[u32], time: u32) -> (r: Option<usize>)
    requires
        durations@.len() <= u32::MAX,
    ensures
        r is None <==> elapsed(durations@, durations@.len() as int) == 0,
        r matches Some(i) ==> {
            let t = time as int % elapsed(durations@, durations@.len() as int);
            &&& i < durations@.len()
            &&& elapsed(durations@, i as int) <= t < elapsed(durations@, i + 1)
        },
{
    let n = durations.len();
    let mut total: u64 = 0;
    let mut i: usize = 0;
    while i < n
        invariant
            n == durations@.len() <= u32::MAX,
            0 <= i <= n,
            total == elapsed(durations@, i as int),
        decreases n - i,
    {
        proof {
            lemma_elapsed_bounds(durations@, i as int);
            assert(i * 4294967295 <= 4294967295 * 4294967295) by (nonlinear_arith)
                requires
                    i <= 4294967295,
            ;
        }
        total = total + durations[i] as u64;
        i += 1;
    }
    if total == 0 {
        return None;
    }
    let t: u64 = time as u64 % total;
    let mut acc: u64 = 0;
    let mut k: usize = 0;
    while k < n
        invariant
            n == durations@.len() <= u32::MAX,
            0 <= k <= n,
            total == elapsed(durations@, n as int),
            total > 0,
            t == time as int % total as int,
            acc == elapsed(durations@, k as int),
            acc <= t,
        decreases n - k,
    {
        proof {
            lemma_elapsed_bounds(durations@, k as int + 1);
            assert((k + 1) * 4294967295 <= 4294967296 * 4294967295) by (nonlinear_arith)
                requires
                    k + 1 <= 4294967296,
            ;
        }
        let next = acc + durations[k] as u64;
        if t < next {
            return Some(k);
        }
        acc = next;
        k += 1;
    }
    proof {
        assert(t < total);
    }
    None
}

} // verus!
