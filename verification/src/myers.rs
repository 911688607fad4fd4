use crate::sink::Diff;
use vstd::std_specs::cmp::PartialEqSpec;
use vstd::prelude::*;

verus! {

broadcast use vstd::slice::group_slice_axioms;

/// The largest combined input size the engine accepts; keeps every
/// intermediate index computation inside the machine word.
pub open spec fn size_cap() -> int {
    isize::MAX as int / 8
}

/// One report of an edit script: a stretch equal on both sides, one
/// present only in the old version, or one present only in the new.
#[derive(Clone, Copy, Debug)]
pub enum EditRec {
    Equal(usize),
    Drop(usize),
    Add(usize),
}

/// A script that walks the old and new ranges exactly once, in order:
/// each report consumes its stretch, equal stretches consume both
/// sides, and the whole script consumes `n` old and `m` new elements.
pub open spec fn script_consumes(sc: Seq<EditRec>, n: int, m: int) -> bool
    decreases sc.len(),
{
    if sc.len() == 0 {
        n == 0 && m == 0
    } else {
        match sc[0] {
            EditRec::Equal(l) => 0 < l <= n && l <= m && script_consumes(sc.skip(1), n - l, m - l),
            EditRec::Drop(l) => 0 < l <= n && script_consumes(sc.skip(1), n - l, m),
            EditRec::Add(l) => 0 < l <= m && script_consumes(sc.skip(1), n, m - l),
        }
    }
}

/// A script consumes nonnegative amounts.
pub proof fn lemma_script_nonneg(sc: Seq<EditRec>, n: int, m: int)
    requires
        script_consumes(sc, n, m),
    ensures
        n >= 0 && m >= 0,
    decreases sc.len(),
{
    if sc.len() > 0 {
        match sc[0] {
            EditRec::Equal(l) => {
                lemma_script_nonneg(sc.skip(1), n - l, m - l);
            },
            EditRec::Drop(l) => {
                lemma_script_nonneg(sc.skip(1), n - l, m);
            },
            EditRec::Add(l) => {
                lemma_script_nonneg(sc.skip(1), n, m - l);
            },
        }
    }
}

/// Two scripts one after the other consume the sums of what each
/// consumes.
pub proof fn lemma_script_concat(a: Seq<EditRec>, b: Seq<EditRec>, n1: int, m1: int, n2: int, m2: int)
    requires
        script_consumes(a, n1, m1),
        script_consumes(b, n2, m2),
    ensures
        script_consumes(a + b, n1 + n2, m1 + m2),
    decreases a.len(),
{
    lemma_script_nonneg(b, n2, m2);
    if a.len() == 0 {
        assert(a + b =~= b);
    } else {
        assert((a + b).skip(1) =~= a.skip(1) + b);
        match a[0] {
            EditRec::Equal(l) => {
                lemma_script_concat(a.skip(1), b, n1 - l, m1 - l, n2, m2);
            },
            EditRec::Drop(l) => {
                lemma_script_concat(a.skip(1), b, n1 - l, m1, n2, m2);
            },
            EditRec::Add(l) => {
                lemma_script_concat(a.skip(1), b, n1, m1 - l, n2, m2);
            },
        }
        assert((a + b)[0] == a[0]);
    }
}

/// Every equal stretch of the script pairs elements that compare
/// equal, positionally: walking the script from `(i, j)`, an equal
/// record of length `l` relates `f[j..j+l]` to `e[i..i+l]` element by
/// element under the elements' own equality.
pub open spec fn script_matches<T, U: PartialEq<T>>(
    sc: Seq<EditRec>,
    e: Seq<T>,
    i: int,
    f: Seq<U>,
    j: int,
) -> bool
    decreases sc.len(),
{
    if sc.len() == 0 {
        true
    } else {
        match sc[0] {
            EditRec::Equal(l) => (forall|q: int|
                0 <= q < l ==> #[trigger] f[j + q].eq_spec(&e[i + q])) && script_matches(
                sc.skip(1),
                e,
                i + l,
                f,
                j + l,
            ),
            EditRec::Drop(l) => script_matches(sc.skip(1), e, i + l, f, j),
            EditRec::Add(l) => script_matches(sc.skip(1), e, i, f, j + l),
        }
    }
}

/// Two matching scripts one after the other match, the second picking
/// up where the first's consumption left off.
pub proof fn lemma_matches_concat<T, U: PartialEq<T>>(
    a: Seq<EditRec>,
    b: Seq<EditRec>,
    e: Seq<T>,
    i: int,
    f: Seq<U>,
    j: int,
    n1: int,
    m1: int,
)
    requires
        script_matches(a, e, i, f, j),
        script_consumes(a, n1, m1),
        script_matches(b, e, i + n1, f, j + m1),
    ensures
        script_matches(a + b, e, i, f, j),
    decreases a.len(),
{
    if a.len() == 0 {
        assert(a + b =~= b);
    } else {
        assert((a + b).skip(1) =~= a.skip(1) + b);
        match a[0] {
            EditRec::Equal(l) => {
                lemma_matches_concat(a.skip(1), b, e, i + l, f, j + l, n1 - l, m1 - l);
            },
            EditRec::Drop(l) => {
                lemma_matches_concat(a.skip(1), b, e, i + l, f, j, n1 - l, m1);
            },
            EditRec::Add(l) => {
                lemma_matches_concat(a.skip(1), b, e, i, f, j + l, n1, m1 - l);
            },
        }
        assert((a + b)[0] == a[0]);
    }
}

/// Whether `l` elements starting at the two positions compare equal,
/// pairwise.
fn stretch_matches<T, U: PartialEq<T>>(
    e: &[T],
    i: usize,
    f: &[U],
    j: usize,
    l: usize,
) -> (r: bool)
    requires
        i + l <= e@.len(),
        j + l <= f@.len(),
    ensures
        r && <U as vstd::std_specs::cmp::PartialEqSpec<T>>::obeys_eq_spec() ==> forall|q: int|
            0 <= q < l ==> #[trigger] f@[j + q].eq_spec(&e@[i + q]),
{
    proof {
        assert(vstd::slice::spec_slice_len(e) == e@.len());
        assert(vstd::slice::spec_slice_len(f) == f@.len());
    }
    let mut q: usize = 0;
    while q < l
        invariant
            i + l <= e@.len(),
            j + l <= f@.len(),
            e@.len() <= usize::MAX,
            f@.len() <= usize::MAX,
            q <= l,
            <U as vstd::std_specs::cmp::PartialEqSpec<T>>::obeys_eq_spec() ==> forall|t: int|
                0 <= t < q ==> #[trigger] f@[j + t].eq_spec(&e@[i + t]),
        decreases l - q,
    {
        if !(f[j + q] == e[i + q]) {
            return false;
        }
        q += 1;
    }
    true
}

/// The nonnegative remainder of `a` modulo `b`.
pub fn modulo(a: isize, b: usize) -> (r: usize)
    requires
        0 < b <= isize::MAX as int / 4,
    ensures
        r < b,
{
    let bi = b as isize;
    proof {
        assert(1 <= bi <= isize::MAX as int / 4);
    }
    let rem = a % bi;
    proof {
        assert(-bi < rem < bi);
    }
    if rem < 0 {
        (rem + bi) as usize
    } else {
        rem as usize
    }
}

/// One bidirectional search pass over the diagonals at distance `h`:
/// extends the stored fronts in `c` against the opposite fronts in `d`
/// and reports a middle snake `(x, y, u, v)` when the two searches meet.
#[verifier::loop_isolation(false)]
#[verifier::rlimit(100)]
fn search_pass<T, U: PartialEq<T>>(
    c: &mut Vec<usize>,
    d: &Vec<usize>,
    forward: bool,
    e: &[T],
    i: usize,
    f: &[U],
    j: usize,
    n: usize,
    m: usize,
    z: usize,
    h: isize,
) -> (found: Option<(usize, usize, usize, usize)>)
    requires
        old(c)@.len() == z,
        d@.len() == z,
        0 < z <= isize::MAX as int / 4,
        n + m <= size_cap(),
        i + n <= e@.len(),
        j + m <= f@.len(),
        0 <= h <= size_cap(),
        forall|q: int| 0 <= q < z ==> #[trigger] old(c)@[q] <= n + 1,
    ensures
        final(c)@.len() == z,
        forall|q: int| 0 <= q < z ==> #[trigger] final(c)@[q] <= n + 1,
        match found {
            Some(snake) => snake.0 <= snake.2 <= n && snake.1 <= snake.3 <= m && snake.2 - snake.0
                == snake.3 - snake.1,
            None => true,
        },
{
    proof {
        assert(vstd::slice::spec_slice_len(e) == e@.len());
        assert(vstd::slice::spec_slice_len(f) == f@.len());
    }
    let l = (n + m) as isize;
    let w = n as isize - m as isize;
    let ni = n as isize;
    let mi = m as isize;
    let over_m: isize = if h - mi > 0 {
        h - mi
    } else {
        0
    };
    let over_n: isize = if h - ni > 0 {
        h - ni
    } else {
        0
    };
    let k0 = -(h - 2 * over_m);
    let k1 = h - 2 * over_n + 1;
    let mut k = k0;
    proof {
        assert(-h <= k0);
        assert(k1 <= h + 1);
    }
    while k < k1
        invariant
            c@.len() == z,
            0 < z <= isize::MAX as int / 4,
            n + m <= size_cap(),
            0 <= h <= size_cap(),
            -h <= k0 <= k,
            k <= h + 3,
            k1 <= h + 1,
            forall|q: int| 0 <= q < z ==> #[trigger] c@[q] <= n + 1,
        decreases k1 + 2 - k,
    {
        let idx_prev = modulo(k - 1, z);
        let idx_next = modulo(k + 1, z);
        let take_next = k == -h || (k != h && c[idx_prev] < c[idx_next]);
        let mut a: usize = if take_next {
            c[idx_next]
        } else {
            c[idx_prev] + 1
        };
        let mut b: usize = #[verifier::truncate] ((a as isize - k) as usize);
        let s = a;
        let t = b;
        while a < n && b < m
            invariant
                c@.len() == z,
                0 < z,
                n + m <= size_cap(),
                i + n <= e@.len(),
                j + m <= f@.len(),
                a <= n + 2,
                s <= a,
                t <= b,
                a - s == b - t,
                forall|q: int| 0 <= q < z ==> #[trigger] c@[q] <= n + 1,
            decreases n - a,
        {
            let ei: usize = if forward {
                a
            } else {
                n - a - 1
            };
            let fi: usize = if forward {
                b
            } else {
                m - b - 1
            };
            if !(f[j + fi] == e[i + ei]) {
                break ;
            }
            a = a + 1;
            b = b + 1;
        }
        let idx_k = modulo(k, z);
        let front = if a > n {
            n + 1
        } else {
            a
        };
        c.set(idx_k, front);
        let bound: isize = if forward {
            h - 1
        } else {
            h
        };
        let odd = l % 2 == 1;
        if odd == forward && w - k >= -bound && w - k <= bound {
            let cd = front;
            let dd = d[modulo(w - k, z)];
            let met = cd >= n || dd >= n - cd;
            if met {
                let (x, y, u, v) = if forward {
                    (s, t, a, b)
                } else {
                    let x2: usize = if a <= n {
                        n - a
                    } else {
                        0
                    };
                    let y2: usize = if b <= m {
                        m - b
                    } else {
                        0
                    };
                    let u2: usize = if s <= n {
                        n - s
                    } else {
                        0
                    };
                    let v2: usize = if t <= m {
                        m - t
                    } else {
                        0
                    };
                    (x2, y2, u2, v2)
                };
                if x <= u && u <= n && y <= v && v <= m && u - x == v - y {
                    return Some((x, y, u, v));
                }
            }
        }
        k = k + 2;
    }
    None
}

/// Myers' longest-common-subsequence diff between `e[i..i_]` and
/// `f[j..j_]`: finds a middle snake with a bidirectional search in
/// linear space, recurses on the two halves, and appends the equal,
/// dropped and added stretches to the script in order.
#[verifier::rlimit(100)]
fn diff_offsets<T, U: PartialEq<T>>(
    out: &mut Vec<EditRec>,
    e: &[T],
    i: usize,
    i_: usize,
    f: &[U],
    j: usize,
    j_: usize,
)
    requires
        i <= i_ <= e@.len(),
        j <= j_ <= f@.len(),
        (i_ - i) + (j_ - j) <= size_cap(),
    ensures
        final(out)@.len() >= old(out)@.len(),
        final(out)@.take(old(out)@.len() as int) == old(out)@,
        script_consumes(
            final(out)@.skip(old(out)@.len() as int),
            (i_ - i) as int,
            (j_ - j) as int,
        ),
        <U as vstd::std_specs::cmp::PartialEqSpec<T>>::obeys_eq_spec() ==> script_matches(
            final(out)@.skip(old(out)@.len() as int),
            e@,
            i as int,
            f@,
            j as int,
        ),
    decreases (i_ - i) + (j_ - j),
{
    let ghost base = out@.len() as int;
    if i_ > i && j_ > j {
        let n = i_ - i;
        let m = j_ - j;
        let l = (n + m) as isize;
        let z = 2 * (if n < m {
            n
        } else {
            m
        }) + 2;
        let mut g: Vec<usize> = Vec::new();
        while g.len() < z
            invariant
                g@.len() <= z,
                forall|q: int| 0 <= q < g@.len() ==> #[trigger] g@[q] == 0,
            decreases z - g@.len(),
        {
            g.push(0);
        }
        let mut p: Vec<usize> = Vec::new();
        while p.len() < z
            invariant
                p@.len() <= z,
                forall|q: int| 0 <= q < p@.len() ==> #[trigger] p@[q] == 0,
            decreases z - p@.len(),
        {
            p.push(0);
        }
        let hmax = l / 2 + l % 2;
        let mut h: isize = 0;
        proof {
            assert(forall|q: int| 0 <= q < z ==> #[trigger] g@[q] <= n + 1);
            assert(forall|q: int| 0 <= q < z ==> #[trigger] p@[q] <= n + 1);
        }
        while h <= hmax
            invariant
                out@.len() == base,
                out == old(out),
                g@.len() == z,
                p@.len() == z,
                0 < z <= isize::MAX as int / 4,
                n == i_ - i,
                m == j_ - j,
                i <= i_ <= e@.len(),
                j <= j_ <= f@.len(),
                n + m <= size_cap(),
                n > 0,
                m > 0,
                0 <= h <= hmax + 1,
                hmax <= size_cap(),
                forall|q: int| 0 <= q < z ==> #[trigger] g@[q] <= n + 1,
                forall|q: int| 0 <= q < z ==> #[trigger] p@[q] <= n + 1,
            decreases hmax - h + 1,
        {
            let mut found = search_pass(&mut g, &p, true, e, i, f, j, n, m, z, h);
            let mut bound = h - 1;
            if found.is_none() {
                found = search_pass(&mut p, &g, false, e, i, f, j, n, m, z, h);
                bound = h;
            }
            if let Some((x, y, u, v)) = found {
                if h + bound > 1 || (x != u && y != v) {
                    if x + y < n + m && u + v > 0 {
                        diff_offsets(out, e, i, i + x, f, j, j + y);
                        let ghost snap_a = out@;
                        let ghost left = snap_a.skip(base);
                        let ghost mid = snap_a.len() as int;
                        if x != u {
                            if stretch_matches(e, i + x, f, j + y, u - x) {
                                out.push(EditRec::Equal(u - x));
                                proof {
                                    reveal_with_fuel(script_consumes, 3);
                                    reveal_with_fuel(script_matches, 3);
                                    assert(out@.skip(mid) =~= seq![
                                        EditRec::Equal((u - x) as usize),
                                    ]);
                                    assert(out@.skip(mid).skip(1) =~= Seq::<EditRec>::empty());
                                }
                            } else {
                                // The meeting point did not stand on an
                                // equal stretch: report it as a
                                // replacement instead of claiming
                                // equality.
                                out.push(EditRec::Drop(u - x));
                                out.push(EditRec::Add(u - x));
                                proof {
                                    reveal_with_fuel(script_consumes, 4);
                                    reveal_with_fuel(script_matches, 4);
                                    assert(out@.skip(mid) =~= seq![
                                        EditRec::Drop((u - x) as usize),
                                        EditRec::Add((u - x) as usize),
                                    ]);
                                    assert(out@.skip(mid).skip(1) =~= seq![
                                        EditRec::Add((u - x) as usize),
                                    ]);
                                    assert(out@.skip(mid).skip(1).skip(1) =~= Seq::<
                                        EditRec,
                                    >::empty());
                                }
                            }
                        } else {
                            proof {
                                assert(out@.skip(mid) =~= Seq::<EditRec>::empty());
                            }
                        }
                        let ghost snap_b = out@;
                        let ghost mid2 = snap_b.len() as int;
                        let ghost eqpart = snap_b.skip(mid);
                        proof {
                            reveal_with_fuel(script_consumes, 4);
                            reveal_with_fuel(script_matches, 4);
                            assert(script_consumes(eqpart, (u - x) as int, (u - x) as int));
                            if <U as vstd::std_specs::cmp::PartialEqSpec<T>>::obeys_eq_spec() {
                                assert(script_matches(eqpart, e@, i + x, f@, j + y));
                            }
                        }
                        diff_offsets(out, e, i + u, i_, f, j + v, j_);
                        proof {
                            let right = out@.skip(mid2);
                            assert forall|q: int| 0 <= q < mid2 implies out@[q] == snap_b[q] by {
                                assert(out@.take(mid2)[q] == out@[q]);
                            }
                            assert(out@.skip(base) =~= left + (eqpart + right)) by {
                                assert(out@.skip(base).len() == (left + (eqpart + right)).len());
                                assert forall|q: int|
                                    0 <= q < out@.len() - base implies out@.skip(base)[q] == (left
                                    + (eqpart + right))[q] by {
                                    if q < mid - base {
                                        assert(out@[base + q] == snap_b[base + q]);
                                        assert(snap_b[base + q] == snap_a[base + q]);
                                    } else if q < mid2 - base {
                                        assert(out@[base + q] == snap_b[base + q]);
                                    }
                                }
                            }
                            lemma_script_concat(
                                eqpart,
                                right,
                                (u - x) as int,
                                (u - x) as int,
                                (i_ - (i + u)) as int,
                                (j_ - (j + v)) as int,
                            );
                            lemma_script_concat(
                                left,
                                eqpart + right,
                                x as int,
                                y as int,
                                (u - x) + (i_ - (i + u)),
                                (u - x) + (j_ - (j + v)),
                            );
                            if <U as vstd::std_specs::cmp::PartialEqSpec<T>>::obeys_eq_spec() {
                                lemma_matches_concat(
                                    eqpart,
                                    right,
                                    e@,
                                    i + x,
                                    f@,
                                    j + y,
                                    (u - x) as int,
                                    (u - x) as int,
                                );
                                lemma_matches_concat(
                                    left,
                                    eqpart + right,
                                    e@,
                                    i as int,
                                    f@,
                                    j as int,
                                    x as int,
                                    y as int,
                                );
                            }
                        }
                    } else {
                        // A degenerate snake offers no smaller halves:
                        // report the whole range as one replacement.
                        out.push(EditRec::Drop(n));
                        out.push(EditRec::Add(m));
                        proof {
                            reveal_with_fuel(script_consumes, 4);
                            reveal_with_fuel(script_matches, 4);
                            assert(out@.skip(base) =~= seq![EditRec::Drop(n), EditRec::Add(m)]);
                            assert(out@.skip(base).skip(1) =~= seq![EditRec::Add(m)]);
                            assert(out@.skip(base).skip(1).skip(1) =~= Seq::<EditRec>::empty());
                        }
                    }
                    return ;
                } else if m > n {
                    if stretch_matches(e, i, f, j, n) {
                        out.push(EditRec::Equal(n));
                        out.push(EditRec::Add(m - n));
                        proof {
                            reveal_with_fuel(script_consumes, 4);
                            reveal_with_fuel(script_matches, 4);
                            assert(out@.skip(base) =~= seq![
                                EditRec::Equal(n),
                                EditRec::Add((m - n) as usize),
                            ]);
                            assert(out@.skip(base).skip(1) =~= seq![
                                EditRec::Add((m - n) as usize),
                            ]);
                            assert(out@.skip(base).skip(1).skip(1) =~= Seq::<EditRec>::empty());
                        }
                    } else {
                        out.push(EditRec::Drop(n));
                        out.push(EditRec::Add(m));
                        proof {
                            reveal_with_fuel(script_consumes, 4);
                            reveal_with_fuel(script_matches, 4);
                            assert(out@.skip(base) =~= seq![EditRec::Drop(n), EditRec::Add(m)]);
                            assert(out@.skip(base).skip(1) =~= seq![EditRec::Add(m)]);
                            assert(out@.skip(base).skip(1).skip(1) =~= Seq::<EditRec>::empty());
                        }
                    }
                    return ;
                } else if m < n {
                    if stretch_matches(e, i, f, j, m) {
                        out.push(EditRec::Equal(m));
                        out.push(EditRec::Drop(n - m));
                        proof {
                            reveal_with_fuel(script_consumes, 4);
                            reveal_with_fuel(script_matches, 4);
                            assert(out@.skip(base) =~= seq![
                                EditRec::Equal(m),
                                EditRec::Drop((n - m) as usize),
                            ]);
                            assert(out@.skip(base).skip(1) =~= seq![
                                EditRec::Drop((n - m) as usize),
                            ]);
                            assert(out@.skip(base).skip(1).skip(1) =~= Seq::<EditRec>::empty());
                        }
                    } else {
                        out.push(EditRec::Drop(n));
                        out.push(EditRec::Add(m));
                        proof {
                            reveal_with_fuel(script_consumes, 4);
                            reveal_with_fuel(script_matches, 4);
                            assert(out@.skip(base) =~= seq![EditRec::Drop(n), EditRec::Add(m)]);
                            assert(out@.skip(base).skip(1) =~= seq![EditRec::Add(m)]);
                            assert(out@.skip(base).skip(1).skip(1) =~= Seq::<EditRec>::empty());
                        }
                    }
                    return ;
                } else {
                    // Equal lengths at a degenerate meeting point: the
                    // search cannot split further, so report the range
                    // as one replacement.
                    out.push(EditRec::Drop(n));
                    out.push(EditRec::Add(m));
                    proof {
                        reveal_with_fuel(script_consumes, 4);
                        reveal_with_fuel(script_matches, 4);
                        assert(out@.skip(base) =~= seq![EditRec::Drop(n), EditRec::Add(m)]);
                        assert(out@.skip(base).skip(1) =~= seq![EditRec::Add(m)]);
                        assert(out@.skip(base).skip(1).skip(1) =~= Seq::<EditRec>::empty());
                    }
                    return ;
                }
            }
            h = h + 1;
        }
        // The bidirectional search always meets within the distance
        // bound; should it not, the whole range is one replacement.
        out.push(EditRec::Drop(n));
        out.push(EditRec::Add(m));
        proof {
            reveal_with_fuel(script_consumes, 4);
            reveal_with_fuel(script_matches, 4);
            assert(out@.skip(base) =~= seq![EditRec::Drop(n), EditRec::Add(m)]);
            assert(out@.skip(base).skip(1) =~= seq![EditRec::Add(m)]);
            assert(out@.skip(base).skip(1).skip(1) =~= Seq::<EditRec>::empty());
        }
    } else if i_ > i {
        out.push(EditRec::Drop(i_ - i));
        proof {
            reveal_with_fuel(script_consumes, 3);
            reveal_with_fuel(script_matches, 3);
            assert(out@.skip(base) =~= seq![EditRec::Drop((i_ - i) as usize)]);
            assert(out@.skip(base).skip(1) =~= Seq::<EditRec>::empty());
        }
    } else if j_ > j {
        out.push(EditRec::Add(j_ - j));
        proof {
            reveal_with_fuel(script_consumes, 3);
            reveal_with_fuel(script_matches, 3);
            assert(out@.skip(base) =~= seq![EditRec::Add((j_ - j) as usize)]);
            assert(out@.skip(base).skip(1) =~= Seq::<EditRec>::empty());
        }
    } else {
        proof {
            assert(out@.skip(base) =~= Seq::<EditRec>::empty());
        }
    }
}

/// The Myers edit script from `e[e0..e1]` to `f[f0..f1]`, as data: a
/// record list that walks the old and new ranges exactly once, in
/// order.
pub fn edit_script<T, U: PartialEq<T>>(
    e: &[T],
    e0: usize,
    e1: usize,
    f: &[U],
    f0: usize,
    f1: usize,
) -> (r: Vec<EditRec>)
    requires
        e0 <= e1 <= e@.len(),
        f0 <= f1 <= f@.len(),
        (e1 - e0) + (f1 - f0) <= size_cap(),
    ensures
        script_consumes(r@, (e1 - e0) as int, (f1 - f0) as int),
        <U as vstd::std_specs::cmp::PartialEqSpec<T>>::obeys_eq_spec() ==> script_matches(
            r@,
            e@,
            e0 as int,
            f@,
            f0 as int,
        ),
{
    let mut out: Vec<EditRec> = Vec::new();
    diff_offsets(&mut out, e, e0, e1, f, f0, f1);
    proof {
        assert(out@.skip(0) =~= out@);
    }
    out
}

/// Runs the Myers diff between `e[e0..e1]` and `f[f0..f1]`: computes
/// the edit script, reports it to the sink in order with running
/// positions, and closes the sink with `finish`.  The sink's first
/// error comes back out.
pub fn diff<T, U: PartialEq<T>, D: Diff>(
    d: &mut D,
    e: &[T],
    e0: usize,
    e1: usize,
    f: &[U],
    f0: usize,
    f1: usize,
) -> (r: Result<(), D::Error>)
    requires
        e0 <= e1 <= e@.len(),
        f0 <= f1 <= f@.len(),
        (e1 - e0) + (f1 - f0) <= size_cap(),
{
    proof {
        assert(vstd::slice::spec_slice_len(e) == e@.len());
        assert(vstd::slice::spec_slice_len(f) == f@.len());
    }
    let script = edit_script(e, e0, e1, f, f0, f1);
    let count = script.len();
    let mut idx: usize = 0;
    let mut oi = e0;
    let mut nj = f0;
    proof {
        assert(script@.skip(0) =~= script@);
    }
    while idx < count
        invariant
            count == script@.len(),
            idx <= count,
            oi <= e1 <= e@.len(),
            nj <= f1 <= f@.len(),
            e@.len() <= usize::MAX,
            f@.len() <= usize::MAX,
            script_consumes(script@.skip(idx as int), (e1 - oi) as int, (f1 - nj) as int),
        decreases count - idx,
    {
        proof {
            assert(script@.skip(idx as int)[0] == script@[idx as int]);
            assert(script@.skip(idx as int).skip(1) =~= script@.skip(idx + 1));
        }
        match script[idx] {
            EditRec::Equal(l) => {
                d.equal(oi, nj, l)?;
                oi = oi + l;
                nj = nj + l;
            },
            EditRec::Drop(l) => {
                d.delete(oi, l, nj)?;
                oi = oi + l;
            },
            EditRec::Add(l) => {
                d.insert(oi, nj, l)?;
                nj = nj + l;
            },
        }
        idx += 1;
    }
    d.finish()
}

} // verus!
