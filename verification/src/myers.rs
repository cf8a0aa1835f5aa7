//! The greedy shortest-edit-script search on two sequences of lines.

use vstd::prelude::*;
use crate::diff::{DiffEdit, DiffLine, EditType};
use crate::edit_graph::{
    before, consumed, cost, extend, furthest, goes_down, kept, lemma_extend_bounds,
    lemma_extend_matches, lemma_furthest_bounds, lemma_furthest_unfold, lemma_terminal_at_zero,
    lemma_terminal_by_total, lemma_terminal_exact, lemma_walk_bound, on_round, produced,
    script_to, start_of, step_ok, terminal, transforms, walks,
};
use crate::error::GitError;

verus! {

/// The search keeps one frontier per round; with more lines than this on
/// both sides together their positions no longer fit the machine's integers.
pub const MAX_TOTAL_LINES: usize = 1_000_000_000;

/// The texts of a sequence of lines.
pub open spec fn texts(lines: Seq<DiffLine>) -> Seq<Seq<char>> {
    Seq::new(lines.len(), |i: int| lines[i].text@)
}

/// The kinds of a sequence of edits.
pub open spec fn kinds(edits: Seq<DiffEdit>) -> Seq<EditType> {
    Seq::new(edits.len(), |i: int| edits[i].typ)
}

/// The old lines that a script holds, in order: those of its deletions and
/// of its unchanged lines.
pub open spec fn old_side(edits: Seq<DiffEdit>) -> Seq<DiffLine>
    decreases edits.len(),
{
    if edits.len() == 0 {
        Seq::empty()
    } else if edits.last().typ == EditType::Ins {
        old_side(edits.drop_last())
    } else {
        old_side(edits.drop_last()).push(edits.last().a_line.unwrap())
    }
}

/// The new lines that a script holds, in order: those of its insertions and
/// of its unchanged lines.
pub open spec fn new_side(edits: Seq<DiffEdit>) -> Seq<DiffLine>
    decreases edits.len(),
{
    if edits.len() == 0 {
        Seq::empty()
    } else if edits.last().typ == EditType::Del {
        new_side(edits.drop_last())
    } else {
        new_side(edits.drop_last()).push(edits.last().b_line.unwrap())
    }
}

/// Round `d` reaches the far corner of the edit graph.
pub open spec fn reached(a: Seq<Seq<char>>, b: Seq<Seq<char>>, d: int) -> bool {
    terminal(a, b, d, a.len() - b.len())
}

/// The first round from `d` on that reaches the far corner.
pub open spec fn first_reached(a: Seq<Seq<char>>, b: Seq<Seq<char>>, d: int) -> int
    decreases a.len() + b.len() - d,
{
    if d >= a.len() + b.len() || reached(a, b, d) {
        d
    } else {
        first_reached(a, b, d + 1)
    }
}

/// The edit distance of two sequences of lines: the number of the round in
/// which the search reaches the far corner.
pub open spec fn edit_distance(a: Seq<Seq<char>>, b: Seq<Seq<char>>) -> int {
    first_reached(a, b, 0)
}

/// The script that the search finds for `a` and `b`: the one by which it
/// comes to the far corner in the first round that reaches it. Where two
/// diagonals lead on, the search takes the one that has got further in the
/// old lines, and the one below where both have got as far.
pub open spec fn shortest_script(a: Seq<Seq<char>>, b: Seq<Seq<char>>) -> Seq<EditType> {
    script_to(a, b, edit_distance(a, b), a.len() as int, b.len() as int)
}

/// The slot of diagonal `k` in a frontier made for `total` lines.
spec fn slot(total: int, k: int) -> int {
    k + total + 1
}

/// Diagonal `j` is one that round `d` may read.
spec fn readable(d: int, j: int) -> bool {
    if d == 0 {
        j == 1
    } else {
        on_round(d - 1, j)
    }
}

/// The frontier `v` as round `d` finds it.
spec fn snapshot_ok(
    v: Seq<isize>,
    a: Seq<Seq<char>>,
    b: Seq<Seq<char>>,
    total: int,
    d: int,
) -> bool {
    &&& v.len() == 2 * total + 3
    &&& forall|j: int| readable(d, j) ==> v[slot(total, j)] == #[trigger] before(a, b, d, j)
}

/// The frontier `v` when round `d` has done the diagonals below `k`.
spec fn frontier_at(
    v: Seq<isize>,
    a: Seq<Seq<char>>,
    b: Seq<Seq<char>>,
    total: int,
    d: int,
    k: int,
) -> bool {
    &&& snapshot_ok(v, a, b, total, d)
    &&& forall|j: int|
        on_round(d, j) && j < k ==> v[slot(total, j)] == #[trigger] furthest(a, b, d, j)
}

/// One step of a path through the edit graph, from `(seg.0, seg.1)` to
/// `(seg.2, seg.3)`: along a diagonal over two equal lines, down, or right.
spec fn seg_ok(a: Seq<Seq<char>>, b: Seq<Seq<char>>, seg: (isize, isize, isize, isize)) -> bool {
    &&& 0 <= seg.0 <= seg.2 <= a.len()
    &&& 0 <= seg.1 <= seg.3 <= b.len()
    &&& {
        ||| seg.2 == seg.0 + 1 && seg.3 == seg.1 + 1 && a[seg.0 as int] == b[seg.1 as int]
        ||| seg.2 == seg.0 && seg.3 == seg.1 + 1
        ||| seg.2 == seg.0 + 1 && seg.3 == seg.1
    }
}

/// `segs` leads backwards from the far corner to `(x, y)`, step by step.
spec fn path_ok(
    a: Seq<Seq<char>>,
    b: Seq<Seq<char>>,
    segs: Seq<(isize, isize, isize, isize)>,
    x: int,
    y: int,
) -> bool {
    &&& forall|i: int| 0 <= i < segs.len() ==> seg_ok(a, b, #[trigger] segs[i])
    &&& forall|i: int, j: int|
        0 <= i && j == i + 1 && j < segs.len() ==> (#[trigger] segs[i]).0 == (#[trigger] segs[j]).2
            && segs[i].1 == segs[j].3
    &&& segs.len() == 0 ==> x == a.len() && y == b.len()
    &&& segs.len() > 0 ==> segs[0].2 == a.len() && segs[0].3 == b.len() && segs.last().0 == x
        && segs.last().1 == y
}

/// The kind of edit that a step of a path is.
spec fn seg_kind(seg: (isize, isize, isize, isize)) -> EditType {
    if seg.2 == seg.0 + 1 && seg.3 == seg.1 + 1 {
        EditType::Eql
    } else if seg.2 == seg.0 {
        EditType::Ins
    } else {
        EditType::Del
    }
}

/// The kinds of the steps of `segs`, the last step first.
spec fn rev_kinds(segs: Seq<(isize, isize, isize, isize)>) -> Seq<EditType>
    decreases segs.len(),
{
    if segs.len() == 0 {
        Seq::empty()
    } else {
        seq![seg_kind(segs.last())] + rev_kinds(segs.drop_last())
    }
}

/// How many steps of `segs` leave their diagonal.
spec fn edits_in(segs: Seq<(isize, isize, isize, isize)>) -> int
    decreases segs.len(),
{
    if segs.len() == 0 {
        0
    } else {
        edits_in(segs.drop_last()) + if segs.last().2 == segs.last().0 + 1 && segs.last().3
            == segs.last().1 + 1 {
            0int
        } else {
            1int
        }
    }
}

/// What the frontier `v` holds on diagonal `k`.
fn get(v: &Vec<isize>, total: isize, k: isize) -> (x: isize)
    requires
        0 <= total <= MAX_TOTAL_LINES,
        v.len() == 2 * total + 3,
        -(total + 1) <= k <= total + 1,
    ensures
        x == v@[slot(total as int, k as int)],
{
    v[(k + total + 1) as usize]
}

/// Puts `x` on diagonal `k` of the frontier `v`.
fn set(v: &mut Vec<isize>, total: isize, k: isize, x: isize)
    requires
        0 <= total <= MAX_TOTAL_LINES,
        old(v).len() == 2 * total + 3,
        -(total + 1) <= k <= total + 1,
    ensures
        final(v)@ == old(v)@.update(slot(total as int, k as int), x),
{
    v.set((k + total + 1) as usize, x);
}

/// Two sequences of lines to be compared.
pub struct Myers {
    a: Vec<DiffLine>,
    b: Vec<DiffLine>,
}

impl Myers {
    /// The old lines.
    pub closed spec fn old_lines(&self) -> Seq<DiffLine> {
        self.a@
    }

    /// The new lines.
    pub closed spec fn new_lines(&self) -> Seq<DiffLine> {
        self.b@
    }

    /// The comparison of the old lines `a` with the new lines `b`.
    pub fn new(a: Vec<DiffLine>, b: Vec<DiffLine>) -> (r: Myers)
        ensures
            r.old_lines() == a@,
            r.new_lines() == b@,
    {
        Myers { a, b }
    }

    /// The frontier at the start of every round up to the one that reaches
    /// the far corner.
    fn shortest_edit(&self) -> (trace: Vec<Vec<isize>>)
        requires
            self.a.len() + self.b.len() <= MAX_TOTAL_LINES,
        ensures
            trace.len() >= 1,
            trace.len() - 1 == edit_distance(texts(self.a@), texts(self.b@)),
            trace.len() - 1 <= self.a.len() + self.b.len(),
            reached(texts(self.a@), texts(self.b@), trace.len() - 1),
            furthest(
                texts(self.a@),
                texts(self.b@),
                trace.len() - 1,
                self.a.len() - self.b.len(),
            ) == self.a.len(),
            forall|i: int|
                0 <= i < trace.len() ==> snapshot_ok(
                    (#[trigger] trace[i])@,
                    texts(self.a@),
                    texts(self.b@),
                    (self.a.len() + self.b.len()) as int,
                    i,
                ),
    {
        let ghost ta = texts(self.a@);
        let ghost tb = texts(self.b@);
        let n: isize = self.a.len() as isize;
        let m: isize = self.b.len() as isize;
        let total: isize = n + m;
        let size: usize = 2 * (total as usize) + 3;
        let mut v: Vec<isize> = vec![0; size];
        let mut trace: Vec<Vec<isize>> = Vec::new();
        let mut d: isize = 0;
        while d <= total
            invariant
                ta == texts(self.a@),
                tb == texts(self.b@),
                n == self.a.len(),
                m == self.b.len(),
                total == n + m,
                total <= MAX_TOTAL_LINES,
                0 <= d <= total + 1,
                trace.len() == d,
                frontier_at(v@, ta, tb, total as int, d as int, -d as int),
                forall|d0: int, k0: int| 0 <= d0 < d ==> !terminal(ta, tb, d0, k0),
                edit_distance(ta, tb) == first_reached(ta, tb, d as int),
                forall|i: int|
                    0 <= i < trace.len() ==> snapshot_ok(
                        (#[trigger] trace[i])@,
                        ta,
                        tb,
                        total as int,
                        i,
                    ),
            decreases total + 1 - d,
        {
            let snapshot = v.clone();
            assert(snapshot@ =~= v@);
            trace.push(snapshot);
            let mut k: isize = -d;
            while k <= d
                invariant
                    ta == texts(self.a@),
                    tb == texts(self.b@),
                    n == self.a.len(),
                    m == self.b.len(),
                    total == n + m,
                    total <= MAX_TOTAL_LINES,
                    0 <= d <= total,
                    -d <= k <= d + 2,
                    (d + k) % 2 == 0,
                    trace.len() == d + 1,
                    frontier_at(v@, ta, tb, total as int, d as int, k as int),
                    forall|d0: int, k0: int| 0 <= d0 < d ==> !terminal(ta, tb, d0, k0),
                    forall|k0: int| k0 < k ==> !terminal(ta, tb, d as int, k0),
                    edit_distance(ta, tb) == first_reached(ta, tb, d as int),
                    forall|i: int|
                        0 <= i < trace.len() ==> snapshot_ok(
                            (#[trigger] trace[i])@,
                            ta,
                            tb,
                            total as int,
                            i,
                        ),
                decreases d + 2 - k,
            {
                proof {
                    lemma_furthest_unfold(ta, tb, d as int, k as int);
                    lemma_furthest_bounds(ta, tb, d as int, k as int);
                    assert(k != -d ==> readable(d as int, k - 1));
                    assert(k != d ==> readable(d as int, k + 1));
                    assert(k != -d ==> v@[slot(total as int, k - 1)] == before(
                        ta,
                        tb,
                        d as int,
                        k - 1,
                    ));
                    assert(k != d ==> v@[slot(total as int, k + 1)] == before(
                        ta,
                        tb,
                        d as int,
                        k + 1,
                    ));
                }
                let down = k == -d || (k != d && get(&v, total, k - 1) < get(&v, total, k + 1));
                assert(down == goes_down(ta, tb, d as int, k as int));
                let mut x: isize = if down {
                    get(&v, total, k + 1)
                } else {
                    get(&v, total, k - 1) + 1
                };
                let ghost start = x as int;
                assert(start == start_of(ta, tb, d as int, k as int));
                let mut y: isize = x - k;
                proof {
                    lemma_extend_bounds(ta, tb, start, start - k);
                }
                while x < n && y < m && self.a[x as usize].text == self.b[y as usize].text
                    invariant
                        ta == texts(self.a@),
                        tb == texts(self.b@),
                        n == self.a.len(),
                        m == self.b.len(),
                        0 <= x,
                        0 <= y,
                        y == x - k,
                        x <= furthest(ta, tb, d as int, k as int) <= n + d,
                        0 <= d <= total <= MAX_TOTAL_LINES,
                        total == n + m,
                        extend(ta, tb, x as int, y as int) == furthest(ta, tb, d as int, k as int),
                    decreases n - x,
                {
                    proof {
                        lemma_extend_bounds(ta, tb, x + 1, y + 1);
                    }
                    x += 1;
                    y += 1;
                }
                assert(x == furthest(ta, tb, d as int, k as int));
                let ghost before_set = v@;
                set(&mut v, total, k, x);
                proof {
                    assert forall|j: int| readable(d as int, j) implies v@[slot(total as int, j)]
                        == #[trigger] before(ta, tb, d as int, j) by {
                        assert(before_set[slot(total as int, j)] == before(ta, tb, d as int, j));
                    }
                    assert forall|j: int| on_round(d as int, j) && j < k + 2 implies v@[slot(
                        total as int,
                        j,
                    )] == #[trigger] furthest(ta, tb, d as int, j) by {
                        if j < k {
                            assert(before_set[slot(total as int, j)] == furthest(
                                ta,
                                tb,
                                d as int,
                                j,
                            ));
                        }
                    }
                }
                if x >= n && y >= m {
                    proof {
                        assert(terminal(ta, tb, d as int, k as int));
                        lemma_terminal_exact(ta, tb, d as int, k as int);
                        assert(reached(ta, tb, d as int));
                    }
                    return trace;
                }
                assert(!terminal(ta, tb, d as int, k as int));
                assert forall|k0: int| k0 < k + 2 implies !terminal(ta, tb, d as int, k0) by {
                    if k0 == k + 1 {
                        assert(!on_round(d as int, k0));
                    }
                }
                k += 2;
            }
            proof {
                assert forall|k0: int| !terminal(ta, tb, d as int, k0) by {
                    if k0 >= k {
                        assert(!on_round(d as int, k0));
                    }
                }
                lemma_terminal_by_total(ta, tb);
                assert(!reached(ta, tb, d as int));
                assert(d < total);
                assert(frontier_at(v@, ta, tb, total as int, d + 1, -(d + 1))) by {
                    assert forall|j: int| readable(d + 1, j) implies v@[slot(total as int, j)]
                        == #[trigger] before(ta, tb, d + 1, j) by {
                        assert(v@[slot(total as int, j)] == furthest(ta, tb, d as int, j));
                    }
                }
            }
            d += 1;
        }
        proof {
            lemma_terminal_by_total(ta, tb);
            assert(false);
        }
        trace
    }

    /// The path that the search took, walked back from the far corner to
    /// the origin: each step with its start and its end.
    fn backtrack(&self) -> (res: Vec<(isize, isize, isize, isize)>)
        requires
            self.a.len() + self.b.len() <= MAX_TOTAL_LINES,
        ensures
            path_ok(texts(self.a@), texts(self.b@), res@, 0, 0),
            edits_in(res@) == edit_distance(texts(self.a@), texts(self.b@)),
            rev_kinds(res@) == shortest_script(texts(self.a@), texts(self.b@)),
    {
        let ghost ta = texts(self.a@);
        let ghost tb = texts(self.b@);
        let n: isize = self.a.len() as isize;
        let m: isize = self.b.len() as isize;
        let total: isize = n + m;
        let trace = self.shortest_edit();
        let mut x: isize = n;
        let mut y: isize = m;
        let mut res: Vec<(isize, isize, isize, isize)> = Vec::new();
        let mut d: isize = (trace.len() - 1) as isize;
        let ghost dist = d as int;
        let ghost shortest = shortest_script(ta, tb);
        proof {
            assert(script_to(ta, tb, dist, n as int, m as int) + rev_kinds(res@) =~= shortest);
        }
        while d > 0
            invariant
                shortest == script_to(ta, tb, d as int, x as int, y as int) + rev_kinds(res@),
                ta == texts(self.a@),
                tb == texts(self.b@),
                n == self.a.len(),
                m == self.b.len(),
                total == n + m,
                total <= MAX_TOTAL_LINES,
                0 <= d <= dist <= total,
                trace.len() == dist + 1,
                forall|i: int|
                    0 <= i < trace.len() ==> snapshot_ok(
                        (#[trigger] trace[i])@,
                        ta,
                        tb,
                        total as int,
                        i,
                    ),
                0 <= x <= n,
                0 <= y <= m,
                on_round(d as int, x - y),
                x == furthest(ta, tb, d as int, x - y),
                path_ok(ta, tb, res@, x as int, y as int),
                edits_in(res@) == dist - d,
            decreases d,
        {
            let k: isize = x - y;
            let v = &trace[d as usize];
            proof {
                lemma_furthest_unfold(ta, tb, d as int, k as int);
                lemma_furthest_bounds(ta, tb, d as int, k as int);
                assert(snapshot_ok(trace[d as int]@, ta, tb, total as int, d as int));
                assert(k != -d ==> readable(d as int, k - 1));
                assert(k != d ==> readable(d as int, k + 1));
                assert(k != -d ==> v@[slot(total as int, k - 1)] == before(ta, tb, d as int, k - 1));
                assert(k != d ==> v@[slot(total as int, k + 1)] == before(ta, tb, d as int, k + 1));
            }
            let down = k == -d || (k != d && get(v, total, k - 1) < get(v, total, k + 1));
            assert(down == goes_down(ta, tb, d as int, k as int));
            let prev_k: isize = if down {
                k + 1
            } else {
                k - 1
            };
            let prev_x: isize = get(v, total, prev_k);
            let prev_y: isize = prev_x - prev_k;
            let ghost start = start_of(ta, tb, d as int, k as int);
            let ghost entered = script_to(ta, tb, d - 1, prev_x as int, prev_y as int).push(
                if down {
                    EditType::Ins
                } else {
                    EditType::Del
                },
            );
            proof {
                assert(prev_x == before(ta, tb, d as int, prev_k as int));
                lemma_furthest_bounds(ta, tb, d - 1, prev_k as int);
                assert(start == if down {
                    prev_x as int
                } else {
                    prev_x + 1
                });
            }
            proof {
                lemma_script_unfold(ta, tb, d as int, x as int, y as int);
            }
            while x > prev_x && y > prev_y
                invariant
                    ta == texts(self.a@),
                    tb == texts(self.b@),
                    n == self.a.len(),
                    m == self.b.len(),
                    k == x - y,
                    start <= x <= n,
                    0 <= y <= m,
                    0 <= start,
                    0 <= start - k,
                    start == if down {
                        prev_x as int
                    } else {
                        prev_x + 1
                    },
                    prev_y == prev_x - prev_k,
                    prev_k == if down {
                        k + 1
                    } else {
                        k - 1
                    },
                    x <= extend(ta, tb, start, start - k),
                    path_ok(ta, tb, res@, x as int, y as int),
                    edits_in(res@) == dist - d,
                    shortest == entered + kept(x - start) + rev_kinds(res@),
                decreases x,
            {
                proof {
                    lemma_extend_matches(ta, tb, start, start - k, x - 1);
                    lemma_path_push(ta, tb, res@, ((x - 1) as isize, (y - 1) as isize, x, y));
                    lemma_kept_moves(entered, x - start, rev_kinds(res@));
                }
                res.push(((x - 1) as isize, (y - 1) as isize, x, y));
                x -= 1;
                y -= 1;
            }
            assert(x == start);
            proof {
                lemma_path_push(ta, tb, res@, (prev_x, prev_y, x, y));
                lemma_edit_moves(
                    script_to(ta, tb, d - 1, prev_x as int, prev_y as int),
                    seg_kind((prev_x, prev_y, x, y)),
                    rev_kinds(res@),
                );
            }
            res.push((prev_x, prev_y, x, y));
            x = prev_x;
            y = prev_y;
            d -= 1;
        }
        proof {
            lemma_furthest_unfold(ta, tb, 0, 0);
        }
        while x > 0 && y > 0
            invariant
                ta == texts(self.a@),
                tb == texts(self.b@),
                n == self.a.len(),
                m == self.b.len(),
                x == y,
                0 <= x <= n,
                0 <= y <= m,
                x <= extend(ta, tb, 0, 0),
                path_ok(ta, tb, res@, x as int, y as int),
                edits_in(res@) == dist,
                shortest == kept(x as int) + rev_kinds(res@),
            decreases x,
        {
            proof {
                lemma_extend_matches(ta, tb, 0, 0, x - 1);
                lemma_path_push(ta, tb, res@, ((x - 1) as isize, (y - 1) as isize, x, y));
                lemma_kept_moves(Seq::empty(), x as int, rev_kinds(res@));
                assert(Seq::<EditType>::empty() + kept(x as int) =~= kept(x as int));
                assert(Seq::<EditType>::empty() + kept(x - 1) =~= kept(x - 1));
            }
            res.push(((x - 1) as isize, (y - 1) as isize, x, y));
            x -= 1;
            y -= 1;
        }
        proof {
            assert(kept(0) =~= Seq::<EditType>::empty());
            assert(kept(0) + rev_kinds(res@) =~= rev_kinds(res@));
        }
        res
    }

    /// The shortest edit script that turns the old lines into the new ones,
    /// in document order; no script at all where the two sequences hold the
    /// same texts.
    ///
    /// Fails with `TooLarge`, and only then, where both sides together hold
    /// more than `MAX_TOTAL_LINES` lines.
    pub fn diff(&self) -> (r: Result<Vec<DiffEdit>, GitError>)
        ensures
            match r {
                Ok(edits) => self.old_lines().len() + self.new_lines().len() <= MAX_TOTAL_LINES
                    && is_shortest_script(edits@, self.old_lines(), self.new_lines()),
                Err(e) => e == GitError::TooLarge && self.old_lines().len() + self.new_lines().len()
                    > MAX_TOTAL_LINES,
            },
    {
        if self.a.len() > MAX_TOTAL_LINES || self.b.len() > MAX_TOTAL_LINES - self.a.len() {
            return Err(GitError::TooLarge);
        }
        let ghost ta = texts(self.a@);
        let ghost tb = texts(self.b@);
        let path = self.backtrack();
        let mut edits: Vec<DiffEdit> = Vec::new();
        let mut changed = false;
        let mut i: usize = path.len();
        let ghost mut cx: int = 0;
        let ghost mut cy: int = 0;
        proof {
            assert(path@.subrange(0, i as int) =~= path@);
            assert(kinds(edits@) + rev_kinds(path@) =~= rev_kinds(path@));
            assert(self.a@.subrange(0, 0) =~= Seq::empty());
            assert(self.b@.subrange(0, 0) =~= Seq::empty());
        }
        while i > 0
            invariant
                ta == texts(self.a@),
                tb == texts(self.b@),
                0 <= i <= path.len(),
                path_ok(ta, tb, path@, 0, 0),
                i < path.len() ==> cx == path[i as int].2 && cy == path[i as int].3,
                i == path.len() ==> cx == 0 && cy == 0,
                0 <= cx <= self.a.len(),
                0 <= cy <= self.b.len(),
                walks(ta, tb, kinds(edits@)),
                consumed(kinds(edits@)) == cx,
                produced(kinds(edits@)) == cy,
                cost(kinds(edits@)) + edits_in(path@.subrange(0, i as int)) == edits_in(path@),
                kinds(edits@) + rev_kinds(path@.subrange(0, i as int)) == rev_kinds(path@),
                old_side(edits@) == self.a@.subrange(0, cx),
                new_side(edits@) == self.b@.subrange(0, cy),
                forall|j: int| 0 <= j < edits.len() ==> (#[trigger] edits[j]).wf(),
                cost(kinds(edits@)) >= 0,
                changed == (cost(kinds(edits@)) > 0),
            decreases i,
        {
            i -= 1;
            let (prev_x, prev_y, x, y) = path[i];
            proof {
                assert(seg_ok(ta, tb, path[i as int]));
                assert(prev_x == cx && prev_y == cy);
                assert(path@.subrange(0, i + 1).drop_last() =~= path@.subrange(0, i as int));
                assert(path@.subrange(0, i + 1).last() == path[i as int]);
            }
            let edit = if x == prev_x {
                changed = true;
                DiffEdit::new(EditType::Ins, None, Some(self.b[prev_y as usize].clone()))
            } else if y == prev_y {
                changed = true;
                DiffEdit::new(EditType::Del, Some(self.a[prev_x as usize].clone()), None)
            } else {
                DiffEdit::new(
                    EditType::Eql,
                    Some(self.a[prev_x as usize].clone()),
                    Some(self.b[prev_y as usize].clone()),
                )
            };
            proof {
                lemma_edit_push(self.a@, self.b@, edits@, edit);
                assert(edit.typ == seg_kind(path[i as int]));
                assert(kinds(edits@).push(edit.typ) + rev_kinds(path@.subrange(0, i as int))
                    =~= kinds(edits@) + (seq![edit.typ] + rev_kinds(path@.subrange(0, i as int))));
                cx = x as int;
                cy = y as int;
            }
            edits.push(edit);
        }
        proof {
            assert(path@.subrange(0, 0) =~= Seq::empty());
            assert(kinds(edits@) + Seq::<EditType>::empty() =~= kinds(edits@));
            assert(self.a@.subrange(0, self.a.len() as int) =~= self.a@);
            assert(self.b@.subrange(0, self.b.len() as int) =~= self.b@);
            lemma_distance_zero(ta, tb);
            assert forall|ops: Seq<EditType>| #[trigger] transforms(ta, tb, ops) implies cost(ops)
                >= edit_distance(ta, tb) by {
                lemma_no_shorter_script(ta, tb, ops);
            }
        }
        if !changed {
            return Ok(Vec::new());
        }
        Ok(edits)
    }
}

/// Whether `edits` is what the search owes for the old lines `a` and the
/// new lines `b`: nothing where their texts are equal; else a script that
/// holds the old lines and the new lines in order, turns the one sequence
/// of texts into the other, and is the one that the search finds; it costs
/// exactly their edit distance, which is as little as any script that does
/// so costs.
pub open spec fn is_shortest_script(edits: Seq<DiffEdit>, a: Seq<DiffLine>, b: Seq<DiffLine>) -> bool {
    if texts(a) == texts(b) {
        edits.len() == 0
    } else {
        &&& forall|j: int| 0 <= j < edits.len() ==> (#[trigger] edits[j]).wf()
        &&& old_side(edits) == a
        &&& new_side(edits) == b
        &&& transforms(texts(a), texts(b), kinds(edits))
        &&& kinds(edits) == shortest_script(texts(a), texts(b))
        &&& cost(kinds(edits)) == edit_distance(texts(a), texts(b))
        &&& forall|ops: Seq<EditType>| #[trigger]
            transforms(texts(a), texts(b), ops) ==> cost(ops) >= cost(kinds(edits))
    }
}

/// The edit distance is zero exactly for equal sequences.
pub proof fn lemma_distance_zero(a: Seq<Seq<char>>, b: Seq<Seq<char>>)
    ensures
        edit_distance(a, b) == 0 <==> a == b,
        edit_distance(a, b) >= 0,
{
    lemma_terminal_at_zero(a, b);
    lemma_first_reached_bounds(a, b, 0);
    lemma_first_reached_bounds(a, b, 1);
    if a.len() + b.len() == 0 {
        assert(a =~= b);
    }
    if a == b {
        assert(a.len() - b.len() == 0);
        assert(reached(a, b, 0));
    }
}

/// Appending an edit that fits the point a script has reached gives a
/// script that reaches the next point, and holds one line more on each
/// side that the edit touches.
proof fn lemma_edit_push(a: Seq<DiffLine>, b: Seq<DiffLine>, edits: Seq<DiffEdit>, edit: DiffEdit)
    requires
        walks(texts(a), texts(b), kinds(edits)),
        0 <= consumed(kinds(edits)) <= a.len(),
        0 <= produced(kinds(edits)) <= b.len(),
        old_side(edits) == a.subrange(0, consumed(kinds(edits))),
        new_side(edits) == b.subrange(0, produced(kinds(edits))),
        edit.wf(),
        step_ok(texts(a), texts(b), edit.typ, consumed(kinds(edits)), produced(kinds(edits))),
        edit.typ != EditType::Ins ==> edit.a_line == Some(a[consumed(kinds(edits))]),
        edit.typ != EditType::Del ==> edit.b_line == Some(b[produced(kinds(edits))]),
    ensures
        walks(texts(a), texts(b), kinds(edits.push(edit))),
        consumed(kinds(edits.push(edit))) == consumed(kinds(edits)) + if edit.typ
            == EditType::Ins {
            0int
        } else {
            1int
        },
        produced(kinds(edits.push(edit))) == produced(kinds(edits)) + if edit.typ
            == EditType::Del {
            0int
        } else {
            1int
        },
        cost(kinds(edits.push(edit))) == cost(kinds(edits)) + if edit.typ == EditType::Eql {
            0int
        } else {
            1int
        },
        old_side(edits.push(edit)) == a.subrange(0, consumed(kinds(edits.push(edit)))),
        new_side(edits.push(edit)) == b.subrange(0, produced(kinds(edits.push(edit)))),
        kinds(edits.push(edit)) == kinds(edits).push(edit.typ),
{
    let next = edits.push(edit);
    let cx = consumed(kinds(edits));
    let cy = produced(kinds(edits));
    assert(next.drop_last() =~= edits);
    assert(kinds(next).drop_last() =~= kinds(edits));
    assert(kinds(next).last() == edit.typ);
    assert(kinds(next) =~= kinds(edits).push(edit.typ));
    if edit.typ != EditType::Ins {
        assert(a.subrange(0, cx + 1) =~= a.subrange(0, cx).push(a[cx]));
    }
    if edit.typ != EditType::Del {
        assert(b.subrange(0, cy + 1) =~= b.subrange(0, cy).push(b[cy]));
    }
}

/// No script that turns `a` into `b` holds fewer insertions and deletions
/// than their edit distance.
pub proof fn lemma_no_shorter_script(a: Seq<Seq<char>>, b: Seq<Seq<char>>, ops: Seq<EditType>)
    requires
        transforms(a, b, ops),
    ensures
        cost(ops) >= edit_distance(a, b),
{
    lemma_walk_bound(a, b, ops);
    assert(reached(a, b, cost(ops)));
    lemma_first_reached_least(a, b, 0, cost(ops));
}

/// The first round that reaches the far corner is no later than any round
/// that reaches it.
proof fn lemma_first_reached_least(a: Seq<Seq<char>>, b: Seq<Seq<char>>, d: int, c: int)
    requires
        d <= c,
        reached(a, b, c),
    ensures
        first_reached(a, b, d) <= c,
    decreases c - d,
{
    if d >= a.len() + b.len() || reached(a, b, d) {
    } else {
        lemma_first_reached_least(a, b, d + 1, c);
    }
}

/// The search for the first round goes forward.
proof fn lemma_first_reached_bounds(a: Seq<Seq<char>>, b: Seq<Seq<char>>, d: int)
    ensures
        first_reached(a, b, d) >= d,
    decreases a.len() + b.len() - d,
{
    if d >= a.len() + b.len() || reached(a, b, d) {
    } else {
        lemma_first_reached_bounds(a, b, d + 1);
    }
}

/// The script to a point of a round after the first is the script to where
/// the round enters the point's diagonal, then the edit that enters it, then
/// the unchanged lines up to the point.
proof fn lemma_script_unfold(a: Seq<Seq<char>>, b: Seq<Seq<char>>, d: int, x: int, y: int)
    requires
        d > 0,
    ensures
        script_to(a, b, d, x, y) == if goes_down(a, b, d, x - y) {
            script_to(
                a,
                b,
                d - 1,
                start_of(a, b, d, x - y),
                start_of(a, b, d, x - y) - (x - y) - 1,
            ).push(EditType::Ins)
        } else {
            script_to(
                a,
                b,
                d - 1,
                start_of(a, b, d, x - y) - 1,
                start_of(a, b, d, x - y) - (x - y),
            ).push(EditType::Del)
        } + kept(x - start_of(a, b, d, x - y)),
{
}

/// The last of some unchanged lines may be counted with what follows them.
proof fn lemma_kept_moves(head: Seq<EditType>, n: int, tail: Seq<EditType>)
    requires
        n >= 1,
    ensures
        head + kept(n) + tail == head + kept(n - 1) + (seq![EditType::Eql] + tail),
{
    assert(kept(n) =~= kept(n - 1).push(EditType::Eql));
    assert(head + kept(n) + tail =~= head + kept(n - 1) + (seq![EditType::Eql] + tail));
}

/// An edit may be counted with what precedes it or with what follows it.
proof fn lemma_edit_moves(head: Seq<EditType>, edit: EditType, tail: Seq<EditType>)
    ensures
        head.push(edit) + kept(0) + tail == head + (seq![edit] + tail),
{
    assert(kept(0) =~= Seq::<EditType>::empty());
    assert(head.push(edit) + kept(0) + tail =~= head + (seq![edit] + tail));
}

/// A path that leads back to the end of a step leads, with that step, back
/// to its start.
proof fn lemma_path_push(
    a: Seq<Seq<char>>,
    b: Seq<Seq<char>>,
    segs: Seq<(isize, isize, isize, isize)>,
    seg: (isize, isize, isize, isize),
)
    requires
        path_ok(a, b, segs, seg.2 as int, seg.3 as int),
        seg_ok(a, b, seg),
    ensures
        path_ok(a, b, segs.push(seg), seg.0 as int, seg.1 as int),
        edits_in(segs.push(seg)) == edits_in(segs) + if seg.2 == seg.0 + 1 && seg.3 == seg.1 + 1 {
            0int
        } else {
            1int
        },
        rev_kinds(segs.push(seg)) == seq![seg_kind(seg)] + rev_kinds(segs),
{
    let next = segs.push(seg);
    assert(next.drop_last() =~= segs);
    assert forall|i: int, j: int| 0 <= i && j == i + 1 && j < next.len() implies (#[trigger] next[i]).0
        == (#[trigger] next[j]).2 && next[i].1 == next[j].3 by {
        if j < segs.len() {
            assert(segs[i].0 == segs[j].2);
        }
    }
}

} // verus!
