//! The ear-cutting tessellation of the visible area.
//!
//! The pass walks around a polygon of `n` points. From a start point `s` it
//! looks at the next points; points that lie on the line through `s` and
//! its successor are passed over, and when the turn from `s` over the point
//! before `now` to `now` is a left turn, that triangle is cut off and the
//! walk goes on from `now`; otherwise it goes on from the point before `now`.
//! Every start point is kept for the next pass. When the points passed over
//! run up to the last point of the polygon, the walk ends there and keeps
//! that last point, so that the edge back to point 0 stays in the polygon. The two geometric questions
//! (are two edges parallel, is a turn a left turn) are asked of the caller,
//! which knows the coordinates; this module decides everything else.
//!
//! The whole tessellation makes pass after pass over the kept points until
//! three or fewer are left. Where the two tests agree with the geometry of
//! the points (`orientation_law`), a pass that keeps every point is followed
//! within two passes by one that cuts, so the tessellation ends.
use vstd::arithmetic::div_mod::lemma_small_mod;
use vstd::prelude::*;

verus! {

/// A triangle, by the indices of its three corners.
pub type TriIndices = (usize, usize, usize);

/// What a pass over a polygon gives: the triangles cut off, and the points
/// that are kept for the next pass, in the order of that pass.
pub struct ReducePass {
    pub triangles: Vec<TriIndices>,
    pub next_points: Vec<usize>,
}

/// The state of the walk where a new start point `s` is taken: `s` is kept,
/// then the walk looks at `now`. The result holds the triangles cut off, the
/// points kept, and whether the walk ended while passing over points on the
/// line of `s`.
pub open spec fn scan_from(
    n: usize,
    parallel: spec_fn(usize, usize, usize, usize) -> bool,
    left_turn: spec_fn(usize, usize, usize) -> bool,
    s: usize,
    now: usize,
    kept: Seq<usize>,
    tris: Seq<TriIndices>,
) -> (Seq<TriIndices>, Seq<usize>, bool)
    decreases n + 2 - now, 1int,
{
    let kept = kept.push(s);
    if now < n {
        skip_from(n, parallel, left_turn, s, now, kept, tris)
    } else if now == n {
        if left_turn(s, (n - 1) as usize, 0) {
            (tris.push((s, (n - 1) as usize, 0usize)), kept, false)
        } else {
            (tris, kept.push((n - 1) as usize), false)
        }
    } else {
        (tris, kept, false)
    }
}

/// The state of the walk where `s` has been kept and `now` is looked at:
/// while the edge into `now` is parallel to the edge out of `s`, `now`
/// moves on, and when it reaches the last point the walk ends keeping that
/// point; otherwise the turn `s`, `now - 1`, `now` decides.
pub open spec fn skip_from(
    n: usize,
    parallel: spec_fn(usize, usize, usize, usize) -> bool,
    left_turn: spec_fn(usize, usize, usize) -> bool,
    s: usize,
    now: usize,
    kept: Seq<usize>,
    tris: Seq<TriIndices>,
) -> (Seq<TriIndices>, Seq<usize>, bool)
    decreases n + 2 - now, 0int,
{
    if now < 1 || now >= n || n >= usize::MAX {
        (tris, kept, false)
    } else if parallel((now - 1) as usize, now, s, ((s + 1) % (n as int)) as usize) {
        if now + 1 == n {
            (tris, kept.push((n - 1) as usize), true)
        } else {
            skip_from(n, parallel, left_turn, s, (now + 1) as usize, kept, tris)
        }
    } else if left_turn(s, (now - 1) as usize, now) {
        scan_from(
            n,
            parallel,
            left_turn,
            now,
            (now + 2) as usize,
            kept,
            tris.push((s, (now - 1) as usize, now)),
        )
    } else {
        scan_from(n, parallel, left_turn, (now - 1) as usize, (now + 1) as usize, kept, tris)
    }
}

/// The whole pass over a polygon of `n` points that came out of a pass over
/// `last_len` points: the walk starts at point 0 looking at point 2. When
/// the walk did not end among parallel edges and kept as many points as the
/// previous polygon had, the kept points are turned around.
pub open spec fn pass_outcome(
    n: usize,
    last_len: usize,
    parallel: spec_fn(usize, usize, usize, usize) -> bool,
    left_turn: spec_fn(usize, usize, usize) -> bool,
) -> (Seq<TriIndices>, Seq<usize>) {
    let (tris, kept, ended_on_line) = scan_from(
        n,
        parallel,
        left_turn,
        0,
        2,
        Seq::empty(),
        Seq::empty(),
    );
    if !ended_on_line && last_len == kept.len() {
        (tris, kept.reverse())
    } else {
        (tris, kept)
    }
}

/// What a caller's answer to "is edge `a0`-`a1` parallel to edge `b0`-`b1`"
/// is, where its answers depend on the question alone.
pub open spec fn parallel_answers<F: Fn(usize, usize, usize, usize) -> bool>(f: F) -> spec_fn(
    usize,
    usize,
    usize,
    usize,
) -> bool {
    |a0: usize, a1: usize, b0: usize, b1: usize| call_ensures(f, (a0, a1, b0, b1), true)
}

/// What a caller's answer to "is `a`, `b`, `c` a left turn" is, where its
/// answers depend on the question alone.
pub open spec fn left_turn_answers<G: Fn(usize, usize, usize) -> bool>(g: G) -> spec_fn(
    usize,
    usize,
    usize,
) -> bool {
    |a: usize, b: usize, c: usize| call_ensures(g, (a, b, c), true)
}

/// The question about parallel edges can be asked of any points below `n`,
/// and the same question always gets the same answer.
pub open spec fn answers_parallel<F: Fn(usize, usize, usize, usize) -> bool>(f: F, n: usize) -> bool {
    &&& forall|a0: usize, a1: usize, b0: usize, b1: usize|
        a0 < n && a1 < n && b0 < n && b1 < n ==> #[trigger] call_requires(f, (a0, a1, b0, b1))
    &&& forall|a0: usize, a1: usize, b0: usize, b1: usize, r: bool|
        #[trigger] call_ensures(f, (a0, a1, b0, b1), r) ==> (r <==> call_ensures(
            f,
            (a0, a1, b0, b1),
            true,
        ))
}

/// The question about left turns can be asked of any points below `n`, and
/// the same question always gets the same answer.
pub open spec fn answers_left_turn<G: Fn(usize, usize, usize) -> bool>(g: G, n: usize) -> bool {
    &&& forall|a: usize, b: usize, c: usize|
        a < n && b < n && c < n ==> #[trigger] call_requires(g, (a, b, c))
    &&& forall|a: usize, b: usize, c: usize, r: bool|
        #[trigger] call_ensures(g, (a, b, c), r) ==> (r <==> call_ensures(g, (a, b, c), true))
}

/// The caller's parallel-edge test can be asked of any points below `n`,
/// and its answer to such a question is what `par` says.
pub open spec fn answers_parallel_as<F: Fn(usize, usize, usize, usize) -> bool>(
    f: F,
    par: spec_fn(usize, usize, usize, usize) -> bool,
    n: usize,
) -> bool {
    &&& forall|a0: usize, a1: usize, b0: usize, b1: usize|
        a0 < n && a1 < n && b0 < n && b1 < n ==> #[trigger] call_requires(f, (a0, a1, b0, b1))
    &&& forall|a0: usize, a1: usize, b0: usize, b1: usize, r: bool|
        a0 < n && a1 < n && b0 < n && b1 < n && #[trigger] call_ensures(f, (a0, a1, b0, b1), r)
            ==> r == par(a0, a1, b0, b1)
}

/// The caller's left-turn test can be asked of any points below `n`, and
/// its answer to such a question is what `lt` says.
pub open spec fn answers_left_turn_as<G: Fn(usize, usize, usize) -> bool>(
    g: G,
    lt: spec_fn(usize, usize, usize) -> bool,
    n: usize,
) -> bool {
    &&& forall|a: usize, b: usize, c: usize|
        a < n && b < n && c < n ==> #[trigger] call_requires(g, (a, b, c))
    &&& forall|a: usize, b: usize, c: usize, r: bool|
        a < n && b < n && c < n && #[trigger] call_ensures(g, (a, b, c), r) ==> r == lt(a, b, c)
}

/// Makes one pass over a polygon of `n` points, `n > 3`, that came out of a
/// pass over `last_len` points.
pub fn reduce_pass<F, G>(n: usize, last_len: usize, parallel: F, left_turn: G) -> (pass: ReducePass) where
    F: Fn(usize, usize, usize, usize) -> bool,
    G: Fn(usize, usize, usize) -> bool,

    requires
        3 < n < usize::MAX,
        answers_parallel(parallel, n),
        answers_left_turn(left_turn, n),
    ensures
        (pass.triangles@, pass.next_points@) == pass_outcome(
            n,
            last_len,
            parallel_answers(parallel),
            left_turn_answers(left_turn),
        ),
{
    reduce_pass_with(
        n,
        last_len,
        parallel,
        left_turn,
        Ghost(parallel_answers(parallel)),
        Ghost(left_turn_answers(left_turn)),
    )
}

/// Makes one pass over a polygon of `n` points, `n > 3`, that came out of a
/// pass over `last_len` points, where the answers of the two tests are
/// known as `par` and `lt`.
pub fn reduce_pass_with<F, G>(
    n: usize,
    last_len: usize,
    parallel: F,
    left_turn: G,
    Ghost(par): Ghost<spec_fn(usize, usize, usize, usize) -> bool>,
    Ghost(lt): Ghost<spec_fn(usize, usize, usize) -> bool>,
) -> (pass: ReducePass) where
    F: Fn(usize, usize, usize, usize) -> bool,
    G: Fn(usize, usize, usize) -> bool,

    requires
        3 < n < usize::MAX,
        answers_parallel_as(parallel, par, n),
        answers_left_turn_as(left_turn, lt, n),
    ensures
        (pass.triangles@, pass.next_points@) == pass_outcome(n, last_len, par, lt),
        no_straight_corner(n, par) ==> {
            &&& pass.next_points@.len() + pass.triangles@.len() == n
            &&& forall|i: usize| i < n ==> kept_or_cut(pass.next_points@, pass.triangles@, i)
            &&& no_repeats(pass.next_points@)
        },
{
    proof {
        if no_straight_corner(n, par) {
            lemma_pass_partitions(n, last_len, par, lt);
        }
    }
    let ghost outcome = scan_from(n, par, lt, 0, 2, Seq::empty(), Seq::empty());
    let mut tris: Vec<TriIndices> = Vec::new();
    let mut kept: Vec<usize> = Vec::new();
    let mut s: usize = 0;
    let mut now: usize = 2;
    let mut at_start = true;
    let mut ended_on_line = false;
    loop
        invariant_except_break
            3 < n < usize::MAX,
            answers_parallel_as(parallel, par, n),
            answers_left_turn_as(left_turn, lt, n),
            s < n,
            s + 2 <= now <= n + 1,
            !at_start ==> now < n,
            !ended_on_line,
            outcome == if at_start {
                scan_from(n, par, lt, s, now, kept@, tris@)
            } else {
                skip_from(n, par, lt, s, now, kept@, tris@)
            },
        ensures
            outcome == (tris@, kept@, ended_on_line),
        decreases n + 2 - now, if at_start { 1int } else { 0int },
    {
        if at_start {
            let ghost k0 = kept@;
            let ghost t0 = tris@;
            assert(outcome == scan_from(n, par, lt, s, now, k0, t0));
            kept.push(s);
            if now < n {
                at_start = false;
            } else if now == n {
                let turns_left = left_turn(s, n - 1, 0);
                assert(turns_left == lt(s, (n - 1) as usize, 0));
                if turns_left {
                    tris.push((s, n - 1, 0));
                } else {
                    kept.push(n - 1);
                }
                break;
            } else {
                break;
            }
        } else {
            let on_line = parallel(now - 1, now, s, (s + 1) % n);
            assert(on_line == par((now - 1) as usize, now, s, ((s + 1) % (n as int)) as usize));
            if on_line {
                now = now + 1;
                if now == n {
                    kept.push(n - 1);
                    ended_on_line = true;
                    break;
                }
            } else {
                let turns_left = left_turn(s, now - 1, now);
                assert(turns_left == lt(s, (now - 1) as usize, now));
                if turns_left {
                    tris.push((s, now - 1, now));
                    s = now;
                    now = now + 2;
                } else {
                    s = now - 1;
                    now = now + 1;
                }
                at_start = true;
            }
        }
    }
    if !ended_on_line && last_len == kept.len() {
        let ghost before = kept@;
        let mut reversed: Vec<usize> = Vec::new();
        let mut i: usize = kept.len();
        while i > 0
            invariant
                0 <= i <= before.len(),
                kept@ == before,
                reversed@.len() == before.len() - i,
                forall|k: int| 0 <= k < reversed@.len() ==> #[trigger] reversed@[k] == before[before.len() - 1 - k],
            decreases i,
        {
            i = i - 1;
            reversed.push(kept[i]);
        }
        assert(reversed@ =~= before.reverse());
        kept = reversed;
    }
    ReducePass { triangles: tris, next_points: kept }
}

/// A triangle of a pass over `n` points: it is cut from its first corner
/// across an edge between two consecutive points of the polygon, the last
/// edge closing the polygon included, and its corners are points of it.
pub open spec fn cut_triangle(n: usize, t: TriIndices) -> bool {
    &&& t.0 < t.1 < n
    &&& t.2 < n
    &&& (t.2 == t.1 + 1 || (t.1 == n - 1 && t.2 == 0))
}

/// What holds of the triangles and kept points at every state of the walk.
pub open spec fn walk_well_formed(
    n: usize,
    s: usize,
    now: usize,
    kept: Seq<usize>,
    tris: Seq<TriIndices>,
    started: bool,
) -> bool {
    &&& n < usize::MAX
    &&& s < n
    &&& s + 2 <= now <= n + 1
    &&& forall|i: int| 0 <= i < kept.len() ==> #[trigger] kept[i] < n
    &&& forall|i: int| 0 <= i < tris.len() ==> cut_triangle(n, #[trigger] tris[i])
    &&& kept.len() + tris.len() <= s + if started {
        1int
    } else {
        0int
    }
    &&& started ==> kept.len() >= 1
    &&& 3 < n
    &&& !started ==> (kept.len() >= 1 || now == 2)
    &&& tris.len() > 0 ==> kept.len() >= if started {
        2int
    } else {
        1int
    }
}

/// What holds of the end of a walk over `n` points.
pub open spec fn walk_outcome_well_formed(
    n: usize,
    outcome: (Seq<TriIndices>, Seq<usize>, bool),
) -> bool {
    let (tris, kept, _) = outcome;
    &&& forall|i: int| 0 <= i < kept.len() ==> #[trigger] kept[i] < n
    &&& forall|i: int| 0 <= i < tris.len() ==> cut_triangle(n, #[trigger] tris[i])
    &&& kept.len() + tris.len() <= n
    &&& kept.len() >= 1
    &&& tris.len() > 0 ==> kept.len() >= 2
}

proof fn lemma_scan_well_formed(
    n: usize,
    parallel: spec_fn(usize, usize, usize, usize) -> bool,
    left_turn: spec_fn(usize, usize, usize) -> bool,
    s: usize,
    now: usize,
    kept: Seq<usize>,
    tris: Seq<TriIndices>,
)
    requires
        walk_well_formed(n, s, now, kept, tris, false),
    ensures
        walk_outcome_well_formed(n, scan_from(n, parallel, left_turn, s, now, kept, tris)),
    decreases n + 2 - now, 1int,
{
    let k = kept.push(s);
    assert forall|i: int| 0 <= i < k.len() implies #[trigger] k[i] < n by {
        if i < kept.len() {
            assert(k[i] == kept[i]);
        }
    }
    if now < n {
        lemma_skip_well_formed(n, parallel, left_turn, s, now, k, tris);
    } else if now == n {
        let t = (s, (n - 1) as usize, 0usize);
        let tp = tris.push(t);
        assert forall|i: int| 0 <= i < tp.len() implies cut_triangle(n, #[trigger] tp[i]) by {
            if i < tris.len() {
                assert(tp[i] == tris[i]);
            }
        }
        let kp = k.push((n - 1) as usize);
        assert forall|i: int| 0 <= i < kp.len() implies #[trigger] kp[i] < n by {
            if i < k.len() {
                assert(kp[i] == k[i]);
            }
        }
    }
}

proof fn lemma_skip_well_formed(
    n: usize,
    parallel: spec_fn(usize, usize, usize, usize) -> bool,
    left_turn: spec_fn(usize, usize, usize) -> bool,
    s: usize,
    now: usize,
    kept: Seq<usize>,
    tris: Seq<TriIndices>,
)
    requires
        walk_well_formed(n, s, now, kept, tris, true),
    ensures
        walk_outcome_well_formed(n, skip_from(n, parallel, left_turn, s, now, kept, tris)),
    decreases n + 2 - now, 0int,
{
    if now < 1 || now >= n || n >= usize::MAX {
    } else if parallel((now - 1) as usize, now, s, ((s + 1) % (n as int)) as usize) {
        if now + 1 != n {
            lemma_skip_well_formed(n, parallel, left_turn, s, (now + 1) as usize, kept, tris);
        }
    } else if left_turn(s, (now - 1) as usize, now) {
        let tp = tris.push((s, (now - 1) as usize, now));
        assert forall|i: int| 0 <= i < tp.len() implies cut_triangle(n, #[trigger] tp[i]) by {
            if i < tris.len() {
                assert(tp[i] == tris[i]);
            }
        }
        lemma_scan_well_formed(n, parallel, left_turn, now, (now + 2) as usize, kept, tp);
    } else {
        lemma_scan_well_formed(
            n,
            parallel,
            left_turn,
            (now - 1) as usize,
            (now + 1) as usize,
            kept,
            tris,
        );
    }
}

/// Whatever the geometric answers, a pass over `n` points names only points
/// of the polygon, keeps at least one point, cuts every triangle from a start
/// point across an edge of the polygon, and keeps, together with the
/// triangles it cuts off, no more than `n` points: every triangle cut off
/// takes a point away, so a pass that cuts a triangle leaves a smaller
/// polygon.
pub proof fn lemma_pass_shrinks(
    n: usize,
    last_len: usize,
    parallel: spec_fn(usize, usize, usize, usize) -> bool,
    left_turn: spec_fn(usize, usize, usize) -> bool,
)
    requires
        3 < n < usize::MAX,
    ensures
        ({
            let (tris, kept) = pass_outcome(n, last_len, parallel, left_turn);
            &&& forall|i: int| 0 <= i < kept.len() ==> #[trigger] kept[i] < n
            &&& forall|i: int| 0 <= i < tris.len() ==> cut_triangle(n, #[trigger] tris[i])
            &&& kept.len() >= 1
            &&& kept.len() + tris.len() <= n
            &&& tris.len() > 0 ==> kept.len() < n
            &&& tris.len() > 0 ==> kept.len() >= 2
        }),
{
    lemma_scan_well_formed(n, parallel, left_turn, 0, 2, Seq::empty(), Seq::empty());
    let (tris, kept, ended_on_line) = scan_from(
        n,
        parallel,
        left_turn,
        0,
        2,
        Seq::empty(),
        Seq::empty(),
    );
    let r = kept.reverse();
    assert forall|i: int| 0 <= i < r.len() implies #[trigger] r[i] < n by {
        assert(r[i] == kept[kept.len() - 1 - i]);
    }
}



/// Point `i` is kept, or is the middle corner of a triangle cut off.
pub open spec fn kept_or_cut(kept: Seq<usize>, tris: Seq<TriIndices>, i: usize) -> bool {
    kept.contains(i) || exists|j: int| 0 <= j < tris.len() && (#[trigger] tris[j]).1 == i
}

/// No point occurs twice.
pub open spec fn no_repeats(s: Seq<usize>) -> bool {
    forall|i: int, j: int| 0 <= i < s.len() && 0 <= j < s.len() && i != j ==> s[i] != s[j]
}

/// The parallel-edge test never finds the two edges at three consecutive
/// points of a polygon of `n` points parallel.
pub open spec fn no_straight_corner(
    n: usize,
    parallel: spec_fn(usize, usize, usize, usize) -> bool,
) -> bool {
    forall|t: usize| t + 2 < n ==> !#[trigger] parallel((t + 1) as usize, (t + 2) as usize, t, (t + 1) as usize)
}

proof fn lemma_kept_or_cut_grows(kept: Seq<usize>, tris: Seq<TriIndices>, x: usize, t: TriIndices, i: usize)
    requires
        kept_or_cut(kept, tris, i),
    ensures
        kept_or_cut(kept.push(x), tris, i),
        kept_or_cut(kept, tris.push(t), i),
{
    if kept.contains(i) {
        let j = choose|j: int| 0 <= j < kept.len() && kept[j] == i;
        assert(kept.push(x)[j] == i);
    } else {
        let j = choose|j: int| 0 <= j < tris.len() && (#[trigger] tris[j]).1 == i;
        assert(tris.push(t)[j] == tris[j]);
    }
}

/// A walk that never finds the edges at consecutive points parallel keeps
/// every start point in increasing order, loses no point, and every point
/// from 0 on is kept or the middle corner of a triangle cut off.
proof fn lemma_scan_partition(
    n: usize,
    parallel: spec_fn(usize, usize, usize, usize) -> bool,
    left_turn: spec_fn(usize, usize, usize) -> bool,
    s: usize,
    kept: Seq<usize>,
    tris: Seq<TriIndices>,
)
    requires
        s + 1 <= n < usize::MAX,
        no_straight_corner(n, parallel),
        forall|i: usize| i < s ==> kept_or_cut(kept, tris, i),
        forall|i: int, j: int| 0 <= i < j < kept.len() ==> kept[i] < kept[j],
        forall|i: int| 0 <= i < kept.len() ==> kept[i] < s,
    ensures
        ({
            let o = scan_from(n, parallel, left_turn, s, (s + 2) as usize, kept, tris);
            &&& o.0.len() + o.1.len() == tris.len() + kept.len() + n - s
            &&& !o.2
            &&& forall|i: usize| i < n ==> kept_or_cut(o.1, o.0, i)
            &&& forall|i: int, j: int| 0 <= i < j < o.1.len() ==> o.1[i] < o.1[j]
        }),
    decreases n - s,
{
    let k = kept.push(s);
    assert forall|i: usize| i < s implies kept_or_cut(k, tris, i) by {
        lemma_kept_or_cut_grows(kept, tris, s, (0usize, 0usize, 0usize), i);
    }
    assert(k[kept.len() as int] == s);
    assert(kept_or_cut(k, tris, s));
    if s + 2 < n {
        lemma_small_mod((s + 1) as nat, n as nat);
        assert(!parallel((s + 1) as usize, (s + 2) as usize, s, (s + 1) as usize));
        if left_turn(s, (s + 1) as usize, (s + 2) as usize) {
            let t = (s, (s + 1) as usize, (s + 2) as usize);
            let tp = tris.push(t);
            assert forall|i: usize| i < s + 2 implies kept_or_cut(k, tp, i) by {
                if i <= s {
                    lemma_kept_or_cut_grows(k, tris, 0, t, i);
                } else {
                    assert(tp[tris.len() as int] == t);
                }
            }
            lemma_scan_partition(n, parallel, left_turn, (s + 2) as usize, k, tp);
        } else {
            lemma_scan_partition(n, parallel, left_turn, (s + 1) as usize, k, tris);
        }
    } else if s + 2 == n {
        if left_turn(s, (n - 1) as usize, 0) {
            let t = (s, (n - 1) as usize, 0usize);
            let tp = tris.push(t);
            assert forall|i: usize| i < n implies kept_or_cut(k, tp, i) by {
                if i <= s {
                    lemma_kept_or_cut_grows(k, tris, 0, t, i);
                } else {
                    assert(tp[tris.len() as int] == t);
                }
            }
        } else {
            let kp = k.push((n - 1) as usize);
            assert forall|i: usize| i < n implies kept_or_cut(kp, tris, i) by {
                if i <= s {
                    lemma_kept_or_cut_grows(k, tris, (n - 1) as usize, (0usize, 0usize, 0usize), i);
                } else {
                    assert(kp[k.len() as int] == n - 1);
                }
            }
        }
    }
}

/// A pass over `n` points in which the parallel-edge test never finds the
/// edges at three consecutive points parallel cuts every point it does not
/// keep: each point of the polygon is kept or is the middle corner of a
/// triangle cut off, no point is kept twice, and the points kept and the
/// triangles cut number exactly `n`.
pub proof fn lemma_pass_partitions(
    n: usize,
    last_len: usize,
    parallel: spec_fn(usize, usize, usize, usize) -> bool,
    left_turn: spec_fn(usize, usize, usize) -> bool,
)
    requires
        3 < n < usize::MAX,
        no_straight_corner(n, parallel),
    ensures
        ({
            let (tris, kept) = pass_outcome(n, last_len, parallel, left_turn);
            &&& kept.len() + tris.len() == n
            &&& forall|i: usize| i < n ==> kept_or_cut(kept, tris, i)
            &&& no_repeats(kept)
        }),
{
    lemma_scan_partition(n, parallel, left_turn, 0, Seq::empty(), Seq::empty());
    let (tris, kept, ended) = scan_from(n, parallel, left_turn, 0, 2, Seq::empty(), Seq::empty());
    assert(no_repeats(kept)) by {
        assert forall|i: int, j: int|
            0 <= i < kept.len() && 0 <= j < kept.len() && i != j implies kept[i] != kept[j] by {
            if i < j {
                assert(kept[i] < kept[j]);
            } else {
                assert(kept[j] < kept[i]);
            }
        }
    }
    if last_len == kept.len() {
        let r = kept.reverse();
        assert forall|i: usize| i < n implies kept_or_cut(r, tris, i) by {
            assert(kept_or_cut(kept, tris, i));
            if kept.contains(i) {
                let j = choose|j: int| 0 <= j < kept.len() && kept[j] == i;
                assert(r[kept.len() - 1 - j] == i);
                assert(r.contains(i));
            }
        }
        assert forall|i: int, j: int|
            0 <= i < r.len() && 0 <= j < r.len() && i != j implies r[i] != r[j] by {
            assert(r[i] == kept[kept.len() - 1 - i]);
            assert(r[j] == kept[kept.len() - 1 - j]);
        }
    }
}

/// From a start point `s` looking at `now`, a walk keeps and cuts at most
/// as many points as are left from `now` on, plus two; it only adds
/// triangles and kept points.
proof fn lemma_scan_bound(
    n: usize,
    parallel: spec_fn(usize, usize, usize, usize) -> bool,
    left_turn: spec_fn(usize, usize, usize) -> bool,
    s: usize,
    now: usize,
    kept: Seq<usize>,
    tris: Seq<TriIndices>,
)
    requires
        s + 2 <= now <= n + 1,
    ensures
        ({
            let o = scan_from(n, parallel, left_turn, s, now, kept, tris);
            &&& o.0.len() >= tris.len()
            &&& o.0.len() + o.1.len() <= tris.len() + kept.len() + n - now + 2
        }),
    decreases n + 2 - now, 1int,
{
    if now < n {
        lemma_skip_bound(n, parallel, left_turn, s, now, kept.push(s), tris);
    }
}

/// The same, at the state where `s` has been kept.
proof fn lemma_skip_bound(
    n: usize,
    parallel: spec_fn(usize, usize, usize, usize) -> bool,
    left_turn: spec_fn(usize, usize, usize) -> bool,
    s: usize,
    now: usize,
    kept: Seq<usize>,
    tris: Seq<TriIndices>,
)
    requires
        s + 2 <= now <= n + 1,
    ensures
        ({
            let o = skip_from(n, parallel, left_turn, s, now, kept, tris);
            &&& o.0.len() >= tris.len()
            &&& o.0.len() + o.1.len() <= tris.len() + kept.len() + n - now + 1
        }),
    decreases n + 2 - now, 0int,
{
    if now < 1 || now >= n || n >= usize::MAX {
    } else if parallel((now - 1) as usize, now, s, ((s + 1) % (n as int)) as usize) {
        if now + 1 != n {
            lemma_skip_bound(n, parallel, left_turn, s, (now + 1) as usize, kept, tris);
        }
    } else if left_turn(s, (now - 1) as usize, now) {
        lemma_scan_bound(
            n,
            parallel,
            left_turn,
            now,
            (now + 2) as usize,
            kept,
            tris.push((s, (now - 1) as usize, now)),
        );
    } else {
        lemma_scan_bound(
            n,
            parallel,
            left_turn,
            (now - 1) as usize,
            (now + 1) as usize,
            kept,
            tris,
        );
    }
}

/// A walk from `s` that cuts nothing and loses no point keeps every point
/// from `s` on, in order, does not end among parallel edges, and found the
/// edges at the last three points not parallel and no left turn there.
proof fn lemma_scan_tight(
    n: usize,
    parallel: spec_fn(usize, usize, usize, usize) -> bool,
    left_turn: spec_fn(usize, usize, usize) -> bool,
    s: usize,
    kept: Seq<usize>,
    tris: Seq<TriIndices>,
)
    requires
        s + 1 <= n < usize::MAX,
    ensures
        ({
            let o = scan_from(n, parallel, left_turn, s, (s + 2) as usize, kept, tris);
            (o.0.len() == tris.len() && o.0.len() + o.1.len() == tris.len() + kept.len() + n - s)
                ==> {
                &&& o.1 == kept + Seq::new((n - s) as nat, |i: int| (s + i) as usize)
                &&& !o.2
                &&& s + 3 <= n ==> !parallel(
                    (n - 2) as usize,
                    (n - 1) as usize,
                    (n - 3) as usize,
                    (n - 2) as usize,
                ) && !left_turn((n - 3) as usize, (n - 2) as usize, (n - 1) as usize)
            }
        }),
    decreases n - s,
{
    let now = (s + 2) as usize;
    let k = kept.push(s);
    let o = scan_from(n, parallel, left_turn, s, now, kept, tris);
    if now < n {
        lemma_small_mod((s + 1) as nat, n as nat);
        if parallel((now - 1) as usize, now, s, (s + 1) as usize) {
            if now + 1 != n {
                lemma_skip_bound(n, parallel, left_turn, s, (now + 1) as usize, k, tris);
            }
        } else if left_turn(s, (now - 1) as usize, now) {
            lemma_scan_bound(
                n,
                parallel,
                left_turn,
                now,
                (now + 2) as usize,
                k,
                tris.push((s, (now - 1) as usize, now)),
            );
        } else {
            lemma_scan_tight(n, parallel, left_turn, (s + 1) as usize, k, tris);
            assert(k + Seq::new((n - s - 1) as nat, |i: int| (s + 1 + i) as usize) =~= kept
                + Seq::new((n - s) as nat, |i: int| (s + i) as usize));
        }
    } else if now == n {
        assert(k.push((n - 1) as usize) =~= kept + Seq::new((n - s) as nat, |i: int| (s + i) as usize));
    } else {
        assert(k =~= kept + Seq::new((n - s) as nat, |i: int| (s + i) as usize));
    }
}

/// A pass that keeps every point of the polygon cuts nothing, keeps the
/// points in order before it turns them around, and found the edges at the
/// last three points not parallel and no left turn there.
proof fn lemma_pass_keeping_all(
    n: usize,
    last_len: usize,
    parallel: spec_fn(usize, usize, usize, usize) -> bool,
    left_turn: spec_fn(usize, usize, usize) -> bool,
)
    requires
        3 < n < usize::MAX,
        pass_outcome(n, last_len, parallel, left_turn).1.len() == n,
    ensures
        pass_outcome(n, last_len, parallel, left_turn).0.len() == 0,
        pass_outcome(n, last_len, parallel, left_turn).1 == if last_len == n {
            Seq::new(n as nat, |i: int| (n - 1 - i) as usize)
        } else {
            Seq::new(n as nat, |i: int| i as usize)
        },
        !parallel((n - 2) as usize, (n - 1) as usize, (n - 3) as usize, (n - 2) as usize),
        !left_turn((n - 3) as usize, (n - 2) as usize, (n - 1) as usize),
{
    lemma_pass_shrinks(n, last_len, parallel, left_turn);
    lemma_scan_tight(n, parallel, left_turn, 0, Seq::empty(), Seq::empty());
    let o = scan_from(n, parallel, left_turn, 0, 2, Seq::empty(), Seq::empty());
    let ident = Seq::new(n as nat, |i: int| i as usize);
    assert(Seq::<usize>::empty() + Seq::new((n - 0) as nat, |i: int| (0 + i) as usize) =~= ident);
    assert(ident.reverse() =~= Seq::new(n as nat, |i: int| (n - 1 - i) as usize));
}


/// The answers of a test asked of points of a polygon, where the polygon's
/// `i`-th point is point `poly[i]` of the whole picture.
pub open spec fn parallel_through(
    poly: Seq<usize>,
    par: spec_fn(usize, usize, usize, usize) -> bool,
) -> spec_fn(usize, usize, usize, usize) -> bool {
    |a0: usize, a1: usize, b0: usize, b1: usize|
        par(poly[a0 as int], poly[a1 as int], poly[b0 as int], poly[b1 as int])
}

/// The same, for the left-turn test.
pub open spec fn left_turn_through(
    poly: Seq<usize>,
    lt: spec_fn(usize, usize, usize) -> bool,
) -> spec_fn(usize, usize, usize) -> bool {
    |a: usize, b: usize, c: usize| lt(poly[a as int], poly[b as int], poly[c as int])
}

/// The two tests agree with the geometry of `n` points: for three points
/// `a`, `b`, `c`, whether the edges `b`-`c` and `a`-`b` are parallel does
/// not depend on the direction in which they are walked, and where they are
/// not parallel, exactly one of `a, b, c` and `c, b, a` turns left.
pub open spec fn orientation_law(
    par: spec_fn(usize, usize, usize, usize) -> bool,
    lt: spec_fn(usize, usize, usize) -> bool,
    n: usize,
) -> bool {
    forall|a: usize, b: usize, c: usize|
        #![trigger lt(a, b, c)]
        a < n && b < n && c < n ==> par(b, c, a, b) == par(b, a, c, b) && (!par(b, c, a, b) ==> lt(
            a,
            b,
            c,
        ) != lt(c, b, a))
}

/// Every point of the polygon is one of the `n` points.
pub open spec fn points_below(poly: Seq<usize>, n: usize) -> bool {
    forall|i: int| 0 <= i < poly.len() ==> #[trigger] poly[i] < n
}

/// The pass over `poly` keeps every one of its points.
pub open spec fn pass_keeps_all(
    poly: Seq<usize>,
    last_len: usize,
    par: spec_fn(usize, usize, usize, usize) -> bool,
    lt: spec_fn(usize, usize, usize) -> bool,
) -> bool {
    pass_outcome(
        poly.len() as usize,
        last_len,
        parallel_through(poly, par),
        left_turn_through(poly, lt),
    ).1.len() == poly.len()
}

/// How far the tessellation of `poly` is from its end: three for every
/// point, plus two while the polygon has not come out of a pass of its own
/// size, plus one while the pass over it would keep every point.
pub open spec fn tessellation_measure(
    poly: Seq<usize>,
    last_len: usize,
    par: spec_fn(usize, usize, usize, usize) -> bool,
    lt: spec_fn(usize, usize, usize) -> bool,
) -> int {
    3 * poly.len() + if last_len != poly.len() {
        2int
    } else if pass_keeps_all(poly, last_len, par, lt) {
        1int
    } else {
        0int
    }
}

/// A polygon whose tessellation is asked for: no more points than the
/// `n` points it is made of, each of them one of these, a length that fits
/// in `usize`, and, when there are more than three points to choose from,
/// tests that agree with their geometry.
pub open spec fn tessellation_posed(
    n: usize,
    poly: Seq<usize>,
    par: spec_fn(usize, usize, usize, usize) -> bool,
    lt: spec_fn(usize, usize, usize) -> bool,
) -> bool {
    &&& poly.len() <= n
    &&& poly.len() < usize::MAX
    &&& points_below(poly, n)
    &&& n > 3 ==> orientation_law(par, lt, n)
}

/// The triangles of `poly`, a polygon through points below `n`, that came
/// out of a pass over `last_len` points: a polygon of more than three points
/// gives the triangles of one pass and then those of the polygon of the
/// points that the pass keeps; a triangle gives itself; fewer points give
/// nothing.
pub open spec fn tessellation(
    n: usize,
    poly: Seq<usize>,
    last_len: usize,
    par: spec_fn(usize, usize, usize, usize) -> bool,
    lt: spec_fn(usize, usize, usize) -> bool,
) -> Seq<TriIndices>
    decreases tessellation_measure(poly, last_len, par, lt),
    when tessellation_posed(n, poly, par, lt)
{
    let m = poly.len();
    if m > 3 {
        let (tris, kept) = pass_outcome(
            m as usize,
            last_len,
            parallel_through(poly, par),
            left_turn_through(poly, lt),
        );
        proof {
            lemma_tessellation_step(n, poly, last_len, par, lt);
        }
        tris.map_values(|t: TriIndices| (poly[t.0 as int], poly[t.1 as int], poly[t.2 as int]))
            + tessellation(n, kept.map_values(|i: usize| poly[i as int]), m as usize, par, lt)
    } else if m == 3 {
        seq![(poly[0], poly[1], poly[2])]
    } else {
        Seq::empty()
    }
}

/// The triangles cut are those given, followed by ones that the
/// left-turn test passed.
pub open spec fn all_turn_left(
    left_turn: spec_fn(usize, usize, usize) -> bool,
    tris: Seq<TriIndices>,
) -> bool {
    forall|i: int| 0 <= i < tris.len() ==> #[trigger] left_turn(tris[i].0, tris[i].1, tris[i].2)
}

proof fn lemma_push_turning_left(
    left_turn: spec_fn(usize, usize, usize) -> bool,
    tris: Seq<TriIndices>,
    t: TriIndices,
)
    requires
        all_turn_left(left_turn, tris),
        left_turn(t.0, t.1, t.2),
    ensures
        all_turn_left(left_turn, tris.push(t)),
{
    let tp = tris.push(t);
    assert forall|i: int| 0 <= i < tp.len() implies #[trigger] left_turn(tp[i].0, tp[i].1, tp[i].2) by {
        if i < tris.len() {
            assert(tp[i] == tris[i]);
        }
    }
}

/// Every triangle that a walk cuts is one that the left-turn test passed.
proof fn lemma_scan_turns_left(
    n: usize,
    parallel: spec_fn(usize, usize, usize, usize) -> bool,
    left_turn: spec_fn(usize, usize, usize) -> bool,
    s: usize,
    now: usize,
    kept: Seq<usize>,
    tris: Seq<TriIndices>,
)
    requires
        all_turn_left(left_turn, tris),
    ensures
        all_turn_left(left_turn, scan_from(n, parallel, left_turn, s, now, kept, tris).0),
    decreases n + 2 - now, 1int,
{
    if now < n {
        lemma_skip_turns_left(n, parallel, left_turn, s, now, kept.push(s), tris);
    } else if now == n && left_turn(s, (n - 1) as usize, 0) {
        lemma_push_turning_left(left_turn, tris, (s, (n - 1) as usize, 0usize));
    }
}

/// The same, at the state where `s` has been kept.
proof fn lemma_skip_turns_left(
    n: usize,
    parallel: spec_fn(usize, usize, usize, usize) -> bool,
    left_turn: spec_fn(usize, usize, usize) -> bool,
    s: usize,
    now: usize,
    kept: Seq<usize>,
    tris: Seq<TriIndices>,
)
    requires
        all_turn_left(left_turn, tris),
    ensures
        all_turn_left(left_turn, skip_from(n, parallel, left_turn, s, now, kept, tris).0),
    decreases n + 2 - now, 0int,
{
    if now < 1 || now >= n || n >= usize::MAX {
    } else if parallel((now - 1) as usize, now, s, ((s + 1) % (n as int)) as usize) {
        if now + 1 != n {
            lemma_skip_turns_left(n, parallel, left_turn, s, (now + 1) as usize, kept, tris);
        }
    } else if left_turn(s, (now - 1) as usize, now) {
        let t = (s, (now - 1) as usize, now);
        lemma_push_turning_left(left_turn, tris, t);
        lemma_scan_turns_left(n, parallel, left_turn, now, (now + 2) as usize, kept, tris.push(t));
    } else {
        lemma_scan_turns_left(
            n,
            parallel,
            left_turn,
            (now - 1) as usize,
            (now + 1) as usize,
            kept,
            tris,
        );
    }
}

/// One step of the tessellation of a polygon of more than three points:
/// the polygon of the kept points is again one through points below `n`,
/// the triangles cut and the points kept are no more than the polygon's
/// points, a step that cuts keeps at least two points, and the measure goes
/// down.
pub proof fn lemma_tessellation_step(
    n: usize,
    poly: Seq<usize>,
    last_len: usize,
    par: spec_fn(usize, usize, usize, usize) -> bool,
    lt: spec_fn(usize, usize, usize) -> bool,
)
    requires
        tessellation_posed(n, poly, par, lt),
        3 < poly.len(),
    ensures
        ({
            let m = poly.len() as usize;
            let (tris, kept) = pass_outcome(
                m,
                last_len,
                parallel_through(poly, par),
                left_turn_through(poly, lt),
            );
            let next = kept.map_values(|i: usize| poly[i as int]);
            &&& tessellation_posed(n, next, par, lt)
            &&& forall|i: int| 0 <= i < tris.len() ==> #[trigger] lt(
                poly[tris[i].0 as int],
                poly[tris[i].1 as int],
                poly[tris[i].2 as int],
            )
            &&& forall|i: int| 0 <= i < tris.len() ==> cut_triangle(m, #[trigger] tris[i])
            &&& forall|i: int| 0 <= i < kept.len() ==> #[trigger] kept[i] < m
            &&& tris.len() + next.len() <= m
            &&& tris.len() > 0 ==> next.len() >= 2
            &&& tessellation_measure(next, m, par, lt) < tessellation_measure(
                poly,
                last_len,
                par,
                lt,
            )
        }),
{
    let m = poly.len() as usize;
    let pp = parallel_through(poly, par);
    let lp = left_turn_through(poly, lt);
    lemma_pass_shrinks(m, last_len, pp, lp);
    lemma_scan_turns_left(m, pp, lp, 0, 2, Seq::empty(), Seq::empty());
    let (tris, kept) = pass_outcome(m, last_len, pp, lp);
    let next = kept.map_values(|i: usize| poly[i as int]);
    assert forall|i: int| 0 <= i < tris.len() implies #[trigger] lt(
        poly[tris[i].0 as int],
        poly[tris[i].1 as int],
        poly[tris[i].2 as int],
    ) by {
        assert(lp(tris[i].0, tris[i].1, tris[i].2));
    }
    assert forall|i: int| 0 <= i < next.len() implies #[trigger] next[i] < n by {
        assert(kept[i] < m);
    }
    if kept.len() == m && last_len == m {
        lemma_pass_keeping_all(m, last_len, pp, lp);
        assert(pass_keeps_all(poly, last_len, par, lt));
        let a = poly[m - 3];
        let b = poly[m - 2];
        let c = poly[m - 1];
        assert(a < n && b < n && c < n);
        assert(!pp((m - 2) as usize, (m - 1) as usize, (m - 3) as usize, (m - 2) as usize));
        assert(!par(b, c, a, b));
        assert(!lt(a, b, c));
        assert(lt(c, b, a));
        assert(next[0] == c && next[1] == b && next[2] == a);
        let pn = parallel_through(next, par);
        let ln = left_turn_through(next, lt);
        lemma_small_mod(1, m as nat);
        assert(!pn(1, 2, 0, ((0int + 1) % (m as int)) as usize));
        assert(ln(0, 1, 2));
        lemma_scan_bound(m, pn, ln, 2, 4, seq![0usize], seq![(0usize, 1usize, 2usize)]);
        assert(scan_from(m, pn, ln, 0, 2, Seq::empty(), Seq::empty()) == scan_from(
            m,
            pn,
            ln,
            2,
            4,
            seq![0usize],
            seq![(0usize, 1usize, 2usize)],
        ));
        lemma_pass_shrinks(m, m, pn, ln);
        assert(!pass_keeps_all(next, m, par, lt));
    }
}

/// The tessellation of a polygon of `m` points through points below `n`
/// has at most `m - 2` triangles (none for fewer than three points), every
/// corner is one of the `n` points, and every triangle but the last is one
/// that the left-turn test passed: only the last may be a polygon of three
/// points that is given as it stands.
pub proof fn lemma_tessellation_facts(
    n: usize,
    poly: Seq<usize>,
    last_len: usize,
    par: spec_fn(usize, usize, usize, usize) -> bool,
    lt: spec_fn(usize, usize, usize) -> bool,
)
    requires
        tessellation_posed(n, poly, par, lt),
    ensures
        tessellation(n, poly, last_len, par, lt).len() <= if poly.len() >= 2 {
            poly.len() - 2
        } else {
            0
        },
        forall|i: int|
            0 <= i < tessellation(n, poly, last_len, par, lt).len() ==> {
                let t = #[trigger] tessellation(n, poly, last_len, par, lt)[i];
                t.0 < n && t.1 < n && t.2 < n
            },
        forall|i: int|
            0 <= i < tessellation(n, poly, last_len, par, lt).len() - 1 ==> {
                let t = #[trigger] tessellation(n, poly, last_len, par, lt)[i];
                lt(t.0, t.1, t.2)
            },
    decreases tessellation_measure(poly, last_len, par, lt),
{
    let m = poly.len();
    if m > 3 {
        lemma_tessellation_step(n, poly, last_len, par, lt);
        let (tris, kept) = pass_outcome(
            m as usize,
            last_len,
            parallel_through(poly, par),
            left_turn_through(poly, lt),
        );
        let next = kept.map_values(|i: usize| poly[i as int]);
        lemma_tessellation_facts(n, next, m as usize, par, lt);
        let mapped = tris.map_values(
            |t: TriIndices| (poly[t.0 as int], poly[t.1 as int], poly[t.2 as int]),
        );
        let rest = tessellation(n, next, m as usize, par, lt);
        let whole = tessellation(n, poly, last_len, par, lt);
        assert(whole == mapped + rest);
        assert forall|i: int| 0 <= i < whole.len() implies {
            let t = #[trigger] whole[i];
            t.0 < n && t.1 < n && t.2 < n
        } by {
            if i < mapped.len() {
                assert(cut_triangle(m as usize, tris[i]));
            } else {
                assert(whole[i] == rest[i - mapped.len()]);
            }
        }
        assert forall|i: int| 0 <= i < whole.len() - 1 implies {
            let t = #[trigger] whole[i];
            lt(t.0, t.1, t.2)
        } by {
            if i < mapped.len() {
                assert(lt(poly[tris[i].0 as int], poly[tris[i].1 as int], poly[tris[i].2 as int]));
            } else {
                assert(whole[i] == rest[i - mapped.len()]);
            }
        }
    }
}


/// The parallel-edge test held by `f` may be asked this question.
pub open spec fn may_ask_parallel<F: Fn(usize, usize, usize, usize) -> bool>(
    f: &F,
    q: (usize, usize, usize, usize),
) -> bool {
    call_requires(*f, q)
}

/// The parallel-edge test held by `f` may answer this question with `r`.
pub open spec fn may_answer_parallel<F: Fn(usize, usize, usize, usize) -> bool>(
    f: &F,
    q: (usize, usize, usize, usize),
    r: bool,
) -> bool {
    call_ensures(*f, q, r)
}

/// The left-turn test held by `g` may be asked this question.
pub open spec fn may_ask_left_turn<G: Fn(usize, usize, usize) -> bool>(
    g: &G,
    q: (usize, usize, usize),
) -> bool {
    call_requires(*g, q)
}

/// The left-turn test held by `g` may answer this question with `r`.
pub open spec fn may_answer_left_turn<G: Fn(usize, usize, usize) -> bool>(
    g: &G,
    q: (usize, usize, usize),
    r: bool,
) -> bool {
    call_ensures(*g, q, r)
}

/// Tessellates `poly`, a polygon through points below `n`, that came out of
/// a pass over `last_len` points.
fn tessellate_polygon<F, G>(
    poly: Vec<usize>,
    last_len: usize,
    parallel: &F,
    left_turn: &G,
    Ghost(n): Ghost<usize>,
    Ghost(par): Ghost<spec_fn(usize, usize, usize, usize) -> bool>,
    Ghost(lt): Ghost<spec_fn(usize, usize, usize) -> bool>,
) -> (tris: Vec<TriIndices>) where
    F: Fn(usize, usize, usize, usize) -> bool,
    G: Fn(usize, usize, usize) -> bool,

    requires
        tessellation_posed(n, poly@, par, lt),
        answers_parallel_as(*parallel, par, n),
        answers_left_turn_as(*left_turn, lt, n),
    ensures
        tris@ == tessellation(n, poly@, last_len, par, lt),
    decreases tessellation_measure(poly@, last_len, par, lt),
{
    let m = poly.len();
    if m > 3 {
        let ghost pp = parallel_through(poly@, par);
        let ghost lp = left_turn_through(poly@, lt);
        let pts = &poly;
        let parallel_on = |a0: usize, a1: usize, b0: usize, b1: usize| -> (r: bool)
            requires
                a0 < pts@.len() && a1 < pts@.len() && b0 < pts@.len() && b1 < pts@.len(),
                may_ask_parallel(
                    parallel,
                    (pts@[a0 as int], pts@[a1 as int], pts@[b0 as int], pts@[b1 as int]),
                ),
            ensures
                may_answer_parallel(
                    parallel,
                    (pts@[a0 as int], pts@[a1 as int], pts@[b0 as int], pts@[b1 as int]),
                    r,
                ),
            { parallel(pts[a0], pts[a1], pts[b0], pts[b1]) };
        let left_turn_on = |a: usize, b: usize, c: usize| -> (r: bool)
            requires
                a < pts@.len() && b < pts@.len() && c < pts@.len(),
                may_ask_left_turn(left_turn, (pts@[a as int], pts@[b as int], pts@[c as int])),
            ensures
                may_answer_left_turn(left_turn, (pts@[a as int], pts@[b as int], pts@[c as int]), r),
            { left_turn(pts[a], pts[b], pts[c]) };
        let pass = reduce_pass_with(m, last_len, parallel_on, left_turn_on, Ghost(pp), Ghost(lp));
        proof {
            lemma_tessellation_step(n, poly@, last_len, par, lt);
        }
        let ghost mapped = pass.triangles@.map_values(
            |t: TriIndices| (poly@[t.0 as int], poly@[t.1 as int], poly@[t.2 as int]),
        );
        let mut tris: Vec<TriIndices> = Vec::new();
        let mut i: usize = 0;
        while i < pass.triangles.len()
            invariant
                0 <= i <= pass.triangles@.len(),
                m == poly@.len(),
                forall|j: int|
                    0 <= j < pass.triangles@.len() ==> cut_triangle(m, #[trigger] pass.triangles@[j]),
                mapped == pass.triangles@.map_values(
                    |t: TriIndices| (poly@[t.0 as int], poly@[t.1 as int], poly@[t.2 as int]),
                ),
                tris@ == mapped.take(i as int),
            decreases pass.triangles@.len() - i,
        {
            let t = pass.triangles[i];
            assert(cut_triangle(m, t));
            tris.push((poly[t.0], poly[t.1], poly[t.2]));
            assert(mapped.take(i + 1) =~= mapped.take(i as int).push(mapped[i as int]));
            i = i + 1;
        }
        assert(mapped.take(i as int) =~= mapped);
        let ghost kept = pass.next_points@;
        let mut next: Vec<usize> = Vec::new();
        let mut k: usize = 0;
        while k < pass.next_points.len()
            invariant
                0 <= k <= kept.len(),
                kept == pass.next_points@,
                m == poly@.len(),
                forall|j: int| 0 <= j < kept.len() ==> #[trigger] kept[j] < m,
                next@ == kept.take(k as int).map_values(|j: usize| poly@[j as int]),
            decreases kept.len() - k,
        {
            next.push(poly[pass.next_points[k]]);
            assert(kept.take(k + 1).map_values(|j: usize| poly@[j as int]) =~= kept.take(
                k as int,
            ).map_values(|j: usize| poly@[j as int]).push(poly@[kept[k as int] as int]));
            k = k + 1;
        }
        assert(kept.take(k as int) =~= kept);
        let mut rest = tessellate_polygon(
            next,
            m,
            parallel,
            left_turn,
            Ghost(n),
            Ghost(par),
            Ghost(lt),
        );
        tris.append(&mut rest);
        tris
    } else if m == 3 {
        let mut tris: Vec<TriIndices> = Vec::new();
        tris.push((poly[0], poly[1], poly[2]));
        tris
    } else {
        Vec::new()
    }
}

/// The identity polygon: the points `0..n` in order.
pub open spec fn all_points(n: usize) -> Seq<usize> {
    Seq::new(n as nat, |i: int| i as usize)
}

/// What the tessellation of `n` points gives: the triangles of the spec,
/// each corner one of the points, at most `n - 2` of them and exactly that
/// many where no three points lie on a line, and all but the last ones that
/// the left-turn test passed.
pub open spec fn tessellation_result(
    n: usize,
    last_len: usize,
    par: spec_fn(usize, usize, usize, usize) -> bool,
    lt: spec_fn(usize, usize, usize) -> bool,
    tris: Seq<TriIndices>,
) -> bool {
    &&& tris == tessellation(n, all_points(n), last_len, par, lt)
    &&& forall|i: int|
        0 <= i < tris.len() ==> (#[trigger] tris[i]).0 < n && tris[i].1 < n && tris[i].2 < n
    &&& tris.len() <= if n >= 2 {
        n - 2
    } else {
        0
    }
    &&& forall|i: int| 0 <= i < tris.len() - 1 ==> lt(#[trigger] tris[i].0, tris[i].1, tris[i].2)
    &&& no_three_on_a_line(par, n) ==> tris.len() == if n >= 2 {
        n - 2
    } else {
        0
    }
}

/// Tessellates the polygon of the points `0..n`, in order, that came out
/// of a pass over `last_len` points: passes are made until three or fewer
/// points are left.
pub fn tessellate<F, G>(n: usize, last_len: usize, parallel: F, left_turn: G) -> (tris: Vec<
    TriIndices,
>) where
    F: Fn(usize, usize, usize, usize) -> bool,
    G: Fn(usize, usize, usize) -> bool,

    requires
        n < usize::MAX,
        answers_parallel(parallel, n),
        answers_left_turn(left_turn, n),
        n > 3 ==> orientation_law(parallel_answers(parallel), left_turn_answers(left_turn), n),
    ensures
        tessellation_result(
            n,
            last_len,
            parallel_answers(parallel),
            left_turn_answers(left_turn),
            tris@,
        ),
{
    tessellate_with(
        n,
        last_len,
        parallel,
        left_turn,
        Ghost(parallel_answers(parallel)),
        Ghost(left_turn_answers(left_turn)),
    )
}

/// Tessellates the polygon of the points `0..n`, in order, that came out
/// of a pass over `last_len` points, where the answers of the two tests are
/// known as `par` and `lt`.
pub fn tessellate_with<F, G>(
    n: usize,
    last_len: usize,
    parallel: F,
    left_turn: G,
    Ghost(par): Ghost<spec_fn(usize, usize, usize, usize) -> bool>,
    Ghost(lt): Ghost<spec_fn(usize, usize, usize) -> bool>,
) -> (tris: Vec<TriIndices>) where
    F: Fn(usize, usize, usize, usize) -> bool,
    G: Fn(usize, usize, usize) -> bool,

    requires
        n < usize::MAX,
        answers_parallel_as(parallel, par, n),
        answers_left_turn_as(left_turn, lt, n),
        n > 3 ==> orientation_law(par, lt, n),
    ensures
        tessellation_result(n, last_len, par, lt, tris@),
{
    let ghost ident = all_points(n);
    let mut poly: Vec<usize> = Vec::new();
    let mut i: usize = 0;
    while i < n
        invariant
            0 <= i <= n,
            poly@ == ident.take(i as int),
            ident == all_points(n),
        decreases n - i,
    {
        poly.push(i);
        assert(ident.take(i + 1) =~= ident.take(i as int).push(i));
        i = i + 1;
    }
    assert(ident.take(n as int) =~= ident);
    proof {
        lemma_tessellation_facts(n, ident, last_len, par, lt);
        if no_three_on_a_line(par, n) {
            lemma_tessellation_count(n, ident, last_len, par, lt);
        }
    }
    tessellate_polygon(poly, last_len, &parallel, &left_turn, Ghost(n), Ghost(par), Ghost(lt))
}


/// The parallel-edge test never finds the two edges between three distinct
/// points parallel: no three of the `n` points lie on a line.
pub open spec fn no_three_on_a_line(
    parallel: spec_fn(usize, usize, usize, usize) -> bool,
    n: usize,
) -> bool {
    forall|a: usize, b: usize, c: usize|
        a < n && b < n && c < n && a != b && b != c && a != c ==> !#[trigger] parallel(b, c, a, b)
}

/// Where no three of the points lie on a line, the tessellation of a
/// polygon of `m` distinct points cuts exactly `m - 2` triangles (none for
/// fewer than three points): every point but two ends up as the middle
/// corner of a triangle.
pub proof fn lemma_tessellation_count(
    n: usize,
    poly: Seq<usize>,
    last_len: usize,
    par: spec_fn(usize, usize, usize, usize) -> bool,
    lt: spec_fn(usize, usize, usize) -> bool,
)
    requires
        tessellation_posed(n, poly, par, lt),
        no_repeats(poly),
        no_three_on_a_line(par, n),
    ensures
        tessellation(n, poly, last_len, par, lt).len() == if poly.len() >= 2 {
            poly.len() - 2
        } else {
            0
        },
    decreases tessellation_measure(poly, last_len, par, lt),
{
    let m = poly.len();
    if m > 3 {
        lemma_tessellation_step(n, poly, last_len, par, lt);
        let pp = parallel_through(poly, par);
        let lp = left_turn_through(poly, lt);
        assert forall|t: usize| t + 2 < m implies !#[trigger] pp(
            (t + 1) as usize,
            (t + 2) as usize,
            t,
            (t + 1) as usize,
        ) by {
            let a = poly[t as int];
            let b = poly[t + 1];
            let c = poly[t + 2];
            assert(a < n && b < n && c < n);
            assert(!par(b, c, a, b));
        }
        lemma_pass_partitions(m as usize, last_len, pp, lp);
        let (tris, kept) = pass_outcome(m as usize, last_len, pp, lp);
        let next = kept.map_values(|i: usize| poly[i as int]);
        assert forall|i: int, j: int|
            0 <= i < next.len() && 0 <= j < next.len() && i != j implies next[i] != next[j] by {
            assert(kept[i] != kept[j]);
            assert(kept[i] < m && kept[j] < m);
        }
        lemma_tessellation_count(n, next, m as usize, par, lt);
        let mapped = tris.map_values(
            |t: TriIndices| (poly[t.0 as int], poly[t.1 as int], poly[t.2 as int]),
        );
        assert(tessellation(n, poly, last_len, par, lt) == mapped + tessellation(
            n,
            next,
            m as usize,
            par,
            lt,
        ));
    }
}

} // verus!
