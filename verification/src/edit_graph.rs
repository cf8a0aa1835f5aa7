//! The edit graph of two line sequences and the frontier that the greedy
//! shortest-edit search pushes through it, as mathematics.
//!
//! A point `(x, y)` of the graph stands for "`x` old lines consumed, `y` new
//! lines produced". Its diagonal is `k = x - y`. Round `d` of the search
//! holds, for each diagonal it can reach with `d` insertions and deletions,
//! the largest `x` it reaches there.

use vstd::prelude::*;
use crate::diff::EditType;

verus! {

/// Where the run of equal lines that starts at `(x, y)` ends: its `x`.
pub open spec fn extend(a: Seq<Seq<char>>, b: Seq<Seq<char>>, x: int, y: int) -> int
    decreases a.len() - x,
{
    if 0 <= x < a.len() && 0 <= y < b.len() && a[x] == b[y] {
        extend(a, b, x + 1, y + 1)
    } else {
        x
    }
}

/// Diagonal `k` is one that round `d` works on.
pub open spec fn on_round(d: int, k: int) -> bool {
    0 <= d && -d <= k <= d && (d - k) % 2 == 0
}

/// The `x` that round `d` reaches on diagonal `k`.
pub open spec fn furthest(a: Seq<Seq<char>>, b: Seq<Seq<char>>, d: int, k: int) -> int
    decreases d,
{
    if d <= 0 {
        extend(a, b, 0, 0 - k)
    } else {
        let left = furthest(a, b, d - 1, k - 1);
        let right = furthest(a, b, d - 1, k + 1);
        let start = if k == -d || (k != d && left < right) {
            right
        } else {
            left + 1
        };
        extend(a, b, start, start - k)
    }
}

/// What the frontier holds on diagonal `k` when round `d` begins.
pub open spec fn before(a: Seq<Seq<char>>, b: Seq<Seq<char>>, d: int, k: int) -> int {
    if d <= 0 {
        0
    } else {
        furthest(a, b, d - 1, k)
    }
}

/// Round `d` enters diagonal `k` from the diagonal above it, by an insertion.
pub open spec fn goes_down(a: Seq<Seq<char>>, b: Seq<Seq<char>>, d: int, k: int) -> bool {
    k == -d || (k != d && before(a, b, d, k - 1) < before(a, b, d, k + 1))
}

/// The `x` at which round `d` enters diagonal `k`.
pub open spec fn start_of(a: Seq<Seq<char>>, b: Seq<Seq<char>>, d: int, k: int) -> int {
    if goes_down(a, b, d, k) {
        before(a, b, d, k + 1)
    } else {
        before(a, b, d, k - 1) + 1
    }
}

/// Round `d` has reached or passed the end of both sequences on diagonal `k`.
pub open spec fn terminal(a: Seq<Seq<char>>, b: Seq<Seq<char>>, d: int, k: int) -> bool {
    on_round(d, k) && furthest(a, b, d, k) >= a.len() && furthest(a, b, d, k) - k >= b.len()
}

/// What a round reaches on a diagonal is the end of the run that starts
/// where the round enters the diagonal; and a round enters from a diagonal
/// that the round before has worked on.
pub proof fn lemma_furthest_unfold(a: Seq<Seq<char>>, b: Seq<Seq<char>>, d: int, k: int)
    requires
        on_round(d, k),
    ensures
        furthest(a, b, d, k) == extend(a, b, start_of(a, b, d, k), start_of(a, b, d, k) - k),
        d > 0 && goes_down(a, b, d, k) ==> on_round(d - 1, k + 1),
        d > 0 && !goes_down(a, b, d, k) ==> on_round(d - 1, k - 1),
{
}

/// A run never moves backwards, and never leaves the grid it started in.
pub proof fn lemma_extend_bounds(a: Seq<Seq<char>>, b: Seq<Seq<char>>, x: int, y: int)
    ensures
        extend(a, b, x, y) >= x,
        x <= a.len() ==> extend(a, b, x, y) <= a.len(),
        x > a.len() ==> extend(a, b, x, y) == x,
        y <= b.len() ==> extend(a, b, x, y) - x + y <= b.len(),
        y > b.len() ==> extend(a, b, x, y) == x,
    decreases a.len() - x,
{
    if 0 <= x < a.len() && 0 <= y < b.len() && a[x] == b[y] {
        lemma_extend_bounds(a, b, x + 1, y + 1);
    }
}

/// Every step of a run joins two equal lines.
pub proof fn lemma_extend_matches(a: Seq<Seq<char>>, b: Seq<Seq<char>>, x: int, y: int, i: int)
    requires
        x <= i < extend(a, b, x, y),
    ensures
        0 <= i < a.len(),
        0 <= i - x + y < b.len(),
        a[i] == b[i - x + y],
    decreases a.len() - x,
{
    if 0 <= x < a.len() && 0 <= y < b.len() && a[x] == b[y] {
        if i > x {
            lemma_extend_matches(a, b, x + 1, y + 1, i);
        }
    }
}

/// A run ends only where the next two lines differ or one side is used up.
pub proof fn lemma_extend_maximal(a: Seq<Seq<char>>, b: Seq<Seq<char>>, x: int, y: int)
    ensures
        ({
            let e = extend(a, b, x, y);
            !(0 <= e < a.len() && 0 <= e - x + y < b.len() && a[e] == b[e - x + y])
        }),
    decreases a.len() - x,
{
    if 0 <= x < a.len() && 0 <= y < b.len() && a[x] == b[y] {
        lemma_extend_maximal(a, b, x + 1, y + 1);
    }
}

/// Every point of the frontier lies at or after the origin on both axes,
/// and at most `d` steps beyond the grid.
pub proof fn lemma_furthest_bounds(a: Seq<Seq<char>>, b: Seq<Seq<char>>, d: int, k: int)
    requires
        on_round(d, k),
    ensures
        0 <= furthest(a, b, d, k) <= a.len() + d,
        0 <= furthest(a, b, d, k) - k <= b.len() + d,
        0 <= start_of(a, b, d, k) <= furthest(a, b, d, k),
        0 <= start_of(a, b, d, k) - k,
    decreases d,
{
    lemma_furthest_unfold(a, b, d, k);
    let s = start_of(a, b, d, k);
    if d > 0 {
        if goes_down(a, b, d, k) {
            lemma_furthest_bounds(a, b, d - 1, k + 1);
        } else {
            lemma_furthest_bounds(a, b, d - 1, k - 1);
        }
    }
    lemma_extend_bounds(a, b, s, s - k);
}

/// An insertion never loses ground: one round later, the diagonal below
/// reaches at least as far in `x`.
pub proof fn lemma_step_down(a: Seq<Seq<char>>, b: Seq<Seq<char>>, d: int, k: int)
    requires
        on_round(d, k),
    ensures
        on_round(d + 1, k - 1),
        furthest(a, b, d + 1, k - 1) >= furthest(a, b, d, k),
{
    lemma_furthest_unfold(a, b, d + 1, k - 1);
    let s = start_of(a, b, d + 1, k - 1);
    lemma_extend_bounds(a, b, s, s - (k - 1));
}

/// A deletion gains one: one round later, the diagonal above reaches at
/// least one further in `x`.
pub proof fn lemma_step_right(a: Seq<Seq<char>>, b: Seq<Seq<char>>, d: int, k: int)
    requires
        on_round(d, k),
    ensures
        on_round(d + 1, k + 1),
        furthest(a, b, d + 1, k + 1) >= furthest(a, b, d, k) + 1,
{
    lemma_furthest_unfold(a, b, d + 1, k + 1);
    let s = start_of(a, b, d + 1, k + 1);
    lemma_extend_bounds(a, b, s, s - (k + 1));
}

/// A frontier point to the right of the grid got there from the grid's
/// right edge: as many rounds earlier as it lies beyond, the frontier had
/// reached that edge on the diagonal as many steps below.
pub proof fn lemma_beyond_right(a: Seq<Seq<char>>, b: Seq<Seq<char>>, d: int, k: int)
    requires
        on_round(d, k),
        furthest(a, b, d, k) > a.len(),
    ensures
        ({
            let e = furthest(a, b, d, k) - a.len();
            on_round(d - e, k - e) && furthest(a, b, d - e, k - e) >= a.len()
        }),
    decreases d,
{
    lemma_furthest_unfold(a, b, d, k);
    let s = start_of(a, b, d, k);
    lemma_extend_bounds(a, b, s, s - k);
    let e = furthest(a, b, d, k) - a.len();
    if d == 0 {
    } else if goes_down(a, b, d, k) {
        lemma_beyond_right(a, b, d - 1, k + 1);
        lemma_step_down(a, b, d - 1 - e, k + 1 - e);
    } else {
        if furthest(a, b, d - 1, k - 1) > a.len() {
            lemma_beyond_right(a, b, d - 1, k - 1);
        }
    }
}

/// The same below the grid: a frontier point under the bottom edge got
/// there from that edge.
pub proof fn lemma_beyond_bottom(a: Seq<Seq<char>>, b: Seq<Seq<char>>, d: int, k: int)
    requires
        on_round(d, k),
        furthest(a, b, d, k) - k > b.len(),
    ensures
        ({
            let e = furthest(a, b, d, k) - k - b.len();
            on_round(d - e, k + e) && furthest(a, b, d - e, k + e) - (k + e) >= b.len()
        }),
    decreases d,
{
    lemma_furthest_unfold(a, b, d, k);
    let s = start_of(a, b, d, k);
    lemma_extend_bounds(a, b, s, s - k);
    let e = furthest(a, b, d, k) - k - b.len();
    if d == 0 {
    } else if goes_down(a, b, d, k) {
        if furthest(a, b, d - 1, k + 1) - (k + 1) > b.len() {
            lemma_beyond_bottom(a, b, d - 1, k + 1);
        }
    } else {
        lemma_beyond_bottom(a, b, d - 1, k - 1);
        lemma_step_right(a, b, d - 1 - e, k - 1 + e);
    }
}

/// The first round that reaches the end of both sequences reaches exactly
/// the grid's far corner.
pub proof fn lemma_terminal_exact(a: Seq<Seq<char>>, b: Seq<Seq<char>>, d: int, k: int)
    requires
        terminal(a, b, d, k),
        forall|d0: int, k0: int| 0 <= d0 < d ==> !terminal(a, b, d0, k0),
    ensures
        furthest(a, b, d, k) == a.len(),
        k == a.len() - b.len(),
{
    if furthest(a, b, d, k) > a.len() {
        lemma_beyond_right(a, b, d, k);
        let e = furthest(a, b, d, k) - a.len();
        assert(terminal(a, b, d - e, k - e));
    }
    if furthest(a, b, d, k) - k > b.len() {
        lemma_beyond_bottom(a, b, d, k);
        let e = furthest(a, b, d, k) - k - b.len();
        assert(terminal(a, b, d - e, k + e));
    }
}

/// Deleting every old line costs one round each.
proof fn lemma_all_deleted(a: Seq<Seq<char>>, b: Seq<Seq<char>>, j: int)
    requires
        0 <= j,
    ensures
        furthest(a, b, j, j) >= j,
    decreases j,
{
    if j == 0 {
        lemma_furthest_bounds(a, b, 0, 0);
    } else {
        lemma_all_deleted(a, b, j - 1);
        lemma_step_right(a, b, j - 1, j - 1);
    }
}

/// Inserting new lines after that costs one round each.
proof fn lemma_then_inserted(a: Seq<Seq<char>>, b: Seq<Seq<char>>, j: int)
    requires
        0 <= j,
    ensures
        furthest(a, b, a.len() + j, a.len() - j) >= a.len(),
    decreases j,
{
    if j == 0 {
        lemma_all_deleted(a, b, a.len() as int);
    } else {
        lemma_then_inserted(a, b, j - 1);
        lemma_step_down(a, b, a.len() + j - 1, a.len() - j + 1);
    }
}

/// The search ends: the round that equals the two lengths together reaches
/// the far corner at the latest.
pub proof fn lemma_terminal_by_total(a: Seq<Seq<char>>, b: Seq<Seq<char>>)
    ensures
        terminal(a, b, (a.len() + b.len()) as int, a.len() - b.len()),
{
    lemma_then_inserted(a, b, b.len() as int);
}

/// Round 0 reaches the far corner exactly when the two sequences are equal.
pub proof fn lemma_terminal_at_zero(a: Seq<Seq<char>>, b: Seq<Seq<char>>)
    ensures
        terminal(a, b, 0, 0) <==> a == b,
{
    lemma_extend_bounds(a, b, 0, 0);
    lemma_extend_maximal(a, b, 0, 0);
    if terminal(a, b, 0, 0) {
        assert forall|i: int| 0 <= i < a.len() implies a[i] == b[i] by {
            lemma_extend_matches(a, b, 0, 0, i);
        }
        assert(a =~= b);
    }
}

// ---------------------------------------------------------------------
// Edit scripts
// ---------------------------------------------------------------------

/// As many unchanged lines as `n` says.
pub open spec fn kept(n: int) -> Seq<EditType> {
    Seq::new(
        if n > 0 {
            n as nat
        } else {
            0
        },
        |i: int| EditType::Eql,
    )
}

/// The script by which the search comes to the point `(x, y)` in round `d`,
/// the point lying on the run that the round makes on its diagonal: the
/// script to where the round enters the diagonal, which the round before
/// has reached on the diagonal above or below, then the insertion or the
/// deletion that enters it, then the unchanged lines of the run up to the
/// point.
pub open spec fn script_to(a: Seq<Seq<char>>, b: Seq<Seq<char>>, d: int, x: int, y: int) -> Seq<
    EditType,
>
    decreases d,
{
    if d <= 0 {
        kept(x)
    } else if goes_down(a, b, d, x - y) {
        script_to(
            a,
            b,
            d - 1,
            start_of(a, b, d, x - y),
            start_of(a, b, d, x - y) - (x - y) - 1,
        ).push(EditType::Ins) + kept(x - start_of(a, b, d, x - y))
    } else {
        script_to(
            a,
            b,
            d - 1,
            start_of(a, b, d, x - y) - 1,
            start_of(a, b, d, x - y) - (x - y),
        ).push(EditType::Del) + kept(x - start_of(a, b, d, x - y))
    }
}

/// How many old lines a script consumes.
pub open spec fn consumed(ops: Seq<EditType>) -> int
    decreases ops.len(),
{
    if ops.len() == 0 {
        0
    } else {
        consumed(ops.drop_last()) + if ops.last() == EditType::Ins { 0int } else { 1int }
    }
}

/// How many new lines a script produces.
pub open spec fn produced(ops: Seq<EditType>) -> int
    decreases ops.len(),
{
    if ops.len() == 0 {
        0
    } else {
        produced(ops.drop_last()) + if ops.last() == EditType::Del { 0int } else { 1int }
    }
}

/// How many insertions and deletions a script holds.
pub open spec fn cost(ops: Seq<EditType>) -> int
    decreases ops.len(),
{
    if ops.len() == 0 {
        0
    } else {
        cost(ops.drop_last()) + if ops.last() == EditType::Eql { 0int } else { 1int }
    }
}

/// An edit of kind `op` can be made at point `(x, y)`.
pub open spec fn step_ok(a: Seq<Seq<char>>, b: Seq<Seq<char>>, op: EditType, x: int, y: int) -> bool {
    match op {
        EditType::Ins => 0 <= y < b.len(),
        EditType::Del => 0 <= x < a.len(),
        EditType::Eql => 0 <= x < a.len() && 0 <= y < b.len() && a[x] == b[y],
    }
}

/// Each edit of the script can be made where the edits before it lead.
pub open spec fn walks(a: Seq<Seq<char>>, b: Seq<Seq<char>>, ops: Seq<EditType>) -> bool
    decreases ops.len(),
{
    ops.len() == 0 || (walks(a, b, ops.drop_last()) && step_ok(
        a,
        b,
        ops.last(),
        consumed(ops.drop_last()),
        produced(ops.drop_last()),
    ))
}

/// The script turns `a` into `b`: it walks from the origin to the far corner.
pub open spec fn transforms(a: Seq<Seq<char>>, b: Seq<Seq<char>>, ops: Seq<EditType>) -> bool {
    walks(a, b, ops) && consumed(ops) == a.len() && produced(ops) == b.len()
}

/// No script gets further on its diagonal than the frontier of the round
/// that equals its cost.
pub proof fn lemma_walk_bound(a: Seq<Seq<char>>, b: Seq<Seq<char>>, ops: Seq<EditType>)
    requires
        walks(a, b, ops),
    ensures
        0 <= consumed(ops) <= a.len(),
        0 <= produced(ops) <= b.len(),
        on_round(cost(ops), consumed(ops) - produced(ops)),
        consumed(ops) <= furthest(a, b, cost(ops), consumed(ops) - produced(ops)),
    decreases ops.len(),
{
    if ops.len() == 0 {
        lemma_furthest_bounds(a, b, 0, 0);
    } else {
        let init = ops.drop_last();
        lemma_walk_bound(a, b, init);
        let x = consumed(init);
        let y = produced(init);
        let c = cost(init);
        match ops.last() {
            EditType::Ins => {
                lemma_step_down(a, b, c, x - y);
            },
            EditType::Del => {
                lemma_step_right(a, b, c, x - y);
            },
            EditType::Eql => {
                lemma_furthest_unfold(a, b, c, x - y);
                let s = start_of(a, b, c, x - y);
                lemma_extend_maximal(a, b, s, s - (x - y));
            },
        }
    }
}

} // verus!
