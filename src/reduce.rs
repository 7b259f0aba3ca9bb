//! Downsampling of a turnover history into a bounded series of points.

use vstd::prelude::*;

verus! {

/// Longest series handed on for display.
pub const MAX_POINTS: usize = 500;

/// Index of the partner of element `2 * i` in a halving pass: the next
/// element, or the element itself when it is the last and unpaired.
pub open spec fn partner(len: nat, i: int) -> int {
    if 2 * i + 1 < len {
        2 * i + 1
    } else {
        2 * i
    }
}

/// `b` is `a` halved: each element of `b` is what `mean` gave on one adjacent
/// pair of `a`.
#[verifier::opaque]
pub open spec fn is_halving<T, F: Fn(T, T) -> T>(a: Seq<T>, b: Seq<T>, mean: F) -> bool {
    &&& b.len() == (a.len() + 1) / 2
    &&& forall|i: int|
        0 <= i < b.len() ==> mean.ensures((a[2 * i], a[partner(a.len(), i)]), #[trigger] b[i])
}

/// Number of halving passes that bring a series of `n` points to at most
/// `MAX_POINTS`.
pub open spec fn pass_count(n: nat) -> nat
    decreases n,
{
    if n <= MAX_POINTS {
        0
    } else {
        1 + pass_count((n + 1) / 2)
    }
}

/// Length of a series of `n` points after those passes.
pub open spec fn reduced_len(n: nat) -> nat
    decreases n,
{
    if n <= MAX_POINTS {
        n
    } else {
        reduced_len((n + 1) / 2)
    }
}

/// `out` comes from `v` by `passes` halvings.
pub open spec fn halved_from<T, F: Fn(T, T) -> T>(
    v: Seq<T>,
    out: Seq<T>,
    passes: nat,
    mean: F,
) -> bool {
    exists|stages: Seq<Seq<T>>|
        #![trigger stages.len()]
        {
            &&& stages.len() == passes + 1
            &&& stages[0] == v
            &&& stages[passes as int] == out
            &&& forall|k: int|
                0 <= k < passes ==> is_halving(#[trigger] stages[k], stages[k + 1], mean)
        }
}

/// One halving pass: averages adjacent pairs, the last unpaired element with
/// itself.
pub fn halve<T: Copy, F: Fn(T, T) -> T>(v: &Vec<T>, mean: &F) -> (r: Vec<T>)
    requires
        forall|a: T, b: T| mean.requires((a, b)),
    ensures
        r@.len() == (v@.len() + 1) / 2,
        is_halving(v@, r@, *mean),
{
    let n = v.len();
    let half = n / 2 + n % 2;
    let mut out: Vec<T> = Vec::new();
    let mut j: usize = 0;
    while j < half
        invariant
            n == v@.len(),
            half == (n + 1) / 2,
            j <= half,
            out@.len() == j,
            forall|a: T, b: T| mean.requires((a, b)),
            forall|k: int|
                0 <= k < out@.len() ==> mean.ensures(
                    (v@[2 * k], v@[partner(n as nat, k)]),
                    #[trigger] out@[k],
                ),
        decreases half - j,
    {
        let i = 2 * j;
        let second = if i + 1 < n {
            v[i + 1]
        } else {
            v[i]
        };
        let m = mean(v[i], second);
        out.push(m);
        j = j + 1;
    }
    proof {
        reveal(is_halving);
    }
    out
}

proof fn lemma_extend_stages<T, F: Fn(T, T) -> T>(
    stages: Seq<Seq<T>>,
    passes: nat,
    next: Seq<T>,
    mean: F,
) -> (r: Seq<Seq<T>>)
    requires
        stages.len() == passes + 1,
        is_halving(stages[passes as int], next, mean),
        forall|k: int| 0 <= k < passes ==> is_halving(#[trigger] stages[k], stages[k + 1], mean),
    ensures
        r == stages.push(next),
        forall|k: int| 0 <= k < passes + 1 ==> is_halving(#[trigger] r[k], r[k + 1], mean),
{
    let r = stages.push(next);
    assert forall|k: int| 0 <= k < passes + 1 implies is_halving(#[trigger] r[k], r[k + 1], mean) by {
        if k < passes {
            assert(r[k] == stages[k]);
            assert(r[k + 1] == stages[k + 1]);
        }
    }
    r
}

fn copy_of<T: Copy>(v: &Vec<T>) -> (r: Vec<T>)
    ensures
        r@ == v@,
{
    let mut out: Vec<T> = Vec::new();
    let mut i: usize = 0;
    while i < v.len()
        invariant
            i <= v@.len(),
            out@ =~= v@.subrange(0, i as int),
        decreases v@.len() - i,
    {
        out.push(v[i]);
        i = i + 1;
    }
    assert(out@ =~= v@);
    out
}

/// A reduced length never exceeds `MAX_POINTS`; a short series needs no pass.
pub proof fn lemma_reduced_len_bound(n: nat)
    ensures
        reduced_len(n) <= MAX_POINTS,
        n <= MAX_POINTS ==> reduced_len(n) == n && pass_count(n) == 0,
    decreases n,
{
    if n > MAX_POINTS {
        lemma_reduced_len_bound((n + 1) / 2);
    }
}

/// Halves `history` until it holds at most `MAX_POINTS` elements; returns the
/// reduced series and the number of passes made.
pub fn reduce<T: Copy, F: Fn(T, T) -> T>(history: &Vec<T>, mean: &F) -> (r: (Vec<T>, usize))
    requires
        forall|a: T, b: T| mean.requires((a, b)),
    ensures
        r.0@.len() == reduced_len(history@.len()),
        r.0@.len() <= MAX_POINTS,
        r.1 == pass_count(history@.len()),
        halved_from(history@, r.0@, r.1 as nat, *mean),
        history@.len() <= MAX_POINTS ==> r.0@ == history@ && r.1 == 0,
{
    let total: usize = history.len();
    let mut cur: Vec<T> = copy_of(history);
    let mut passes: usize = 0;
    let ghost mut stages: Seq<Seq<T>> = seq![history@];
    while cur.len() > MAX_POINTS
        invariant
            forall|a: T, b: T| mean.requires((a, b)),
            passes + cur@.len() <= total,
            total == history@.len(),
            pass_count(history@.len()) == passes + pass_count(cur@.len()),
            reduced_len(history@.len()) == reduced_len(cur@.len()),
            stages.len() == passes + 1,
            stages[0] == history@,
            stages[passes as int] == cur@,
            forall|k: int| 0 <= k < passes ==> is_halving(#[trigger] stages[k], stages[k + 1], *mean),
            history@.len() <= MAX_POINTS ==> cur@ == history@ && passes == 0,
        decreases cur@.len(),
    {
        let next = halve(&cur, mean);
        proof {
            assert(pass_count(cur@.len()) == 1 + pass_count(next@.len()));
            assert(reduced_len(cur@.len()) == reduced_len(next@.len()));
            stages = lemma_extend_stages(stages, passes as nat, next@, *mean);
        }
        cur = next;
        passes = passes + 1;
    }
    proof {
        lemma_reduced_len_bound(cur@.len());
        lemma_reduced_len_bound(history@.len());
        assert(stages.len() == passes + 1);
    }
    (cur, passes)
}

proof fn lemma_mul_bound(a: int, b: int, x: int, y: int)
    requires
        0 <= a <= x,
        0 <= b <= y,
    ensures
        a * b <= x * y,
{
    assert(a * b <= x * y) by (nonlinear_arith)
        requires
            0 <= a <= x,
            0 <= b <= y,
    ;
}

/// x-coordinate of point `k` of a series reduced by `passes` halvings, for
/// windows of `size` blocks: `size` first, then a step of `size * passes`.
pub open spec fn point_x(size: nat, passes: nat, k: nat) -> nat {
    size + k * size * passes
}

/// The points to draw for the history `values` of a tracker with windows of
/// `size` blocks: nothing for an empty history; else the reduced series, each
/// value at its x-coordinate.
pub fn graph_points<T: Copy, F: Fn(T, T) -> T>(size: u32, values: &Vec<T>, mean: &F) -> (r: Vec<(u128, T)>)
    requires
        forall|a: T, b: T| mean.requires((a, b)),
    ensures
        values@.len() == 0 ==> r@.len() == 0,
        values@.len() > 0 ==> exists|reduced: Seq<T>|
            {
                &&& halved_from(values@, reduced, pass_count(values@.len()), *mean)
                &&& reduced.len() == reduced_len(values@.len())
                &&& r@.len() == reduced.len()
                &&& forall|k: int|
                    0 <= k < r@.len() ==> (#[trigger] r@[k]).1 == reduced[k] && r@[k].0 as nat
                        == point_x(size as nat, pass_count(values@.len()), k as nat)
            },
{
    let mut out: Vec<(u128, T)> = Vec::new();
    if values.len() == 0 {
        return out;
    }
    let (reduced, passes) = reduce(values, mean);
    proof {
        lemma_mul_bound(size as int, passes as int, 0xffff_ffff, 0xffff_ffff_ffff_ffff);
    }
    let step: u128 = (size as u128) * (passes as u128);
    let mut k: usize = 0;
    while k < reduced.len()
        invariant
            k <= reduced@.len(),
            reduced@.len() <= MAX_POINTS,
            step == size as nat * passes as nat,
            step <= 0xffff_ffff * 0xffff_ffff_ffff_ffff,
            out@.len() == k,
            forall|j: int|
                0 <= j < k ==> (#[trigger] out@[j]).1 == reduced@[j] && out@[j].0 as nat
                    == point_x(size as nat, passes as nat, j as nat),
        decreases reduced@.len() - k,
    {
        proof {
            lemma_mul_bound(k as int, step as int, 500, 0xffff_ffff_ffff_fffe_0000_0001);
            assert(k as nat * (size as nat * passes as nat) == k as nat * size as nat * passes as nat)
                by (nonlinear_arith);
        }
        let x: u128 = size as u128 + (k as u128) * step;
        out.push((x, reduced[k]));
        k = k + 1;
    }
    out
}

} // verus!
