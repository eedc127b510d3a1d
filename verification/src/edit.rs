//! Edit distance of a pattern to the closest part of a text.
use vstd::prelude::*;

verus! {

/// A place in a text that a word matches with some edits.
#[derive(Clone, Copy, Debug, PartialEq, Eq, Structural)]
pub struct TypoWordMatch {
    pub cost: usize,
    pub start: usize,
    pub span_len: usize,
}

/// The longest pattern, in bytes, that is matched with typos.
pub const MAX_WORD_LEN: usize = 64;

/// What a text or a pattern is made of.
pub trait Symbol: Copy {
    fn same(self, other: Self) -> (r: bool)
        ensures
            r == (self == other),
    ;
}

impl Symbol for char {
    fn same(self, other: char) -> (r: bool) {
        self == other
    }
}

impl Symbol for u8 {
    fn same(self, other: u8) -> (r: bool) {
        self == other
    }
}

pub open spec fn min2(a: nat, b: nat) -> nat {
    if a <= b {
        a
    } else {
        b
    }
}

/// The optimal string alignment distance: the least number of insertions,
/// deletions, substitutions and swaps of neighbours that turn `p` into `t`,
/// where no part is edited twice.
pub open spec fn osa<T>(p: Seq<T>, t: Seq<T>) -> nat
    decreases p.len() + t.len(),
{
    if p.len() == 0 {
        t.len()
    } else if t.len() == 0 {
        p.len()
    } else {
        let deletion = osa(p.drop_last(), t) + 1;
        let insertion = osa(p, t.drop_last()) + 1;
        let differ: nat = if p.last() == t.last() {
            0
        } else {
            1
        };
        let substitution = osa(p.drop_last(), t.drop_last()) + differ;
        let best = min2(min2(deletion, insertion), substitution);
        if swapped_ends(p, t) {
            min2(best, osa(p.drop_last().drop_last(), t.drop_last().drop_last()) + 1)
        } else {
            best
        }
    }
}

/// Whether the last two items of `p` are the last two of `t` the other way
/// round.
pub open spec fn swapped_ends<T>(p: Seq<T>, t: Seq<T>) -> bool {
    &&& p.len() > 1
    &&& t.len() > 1
    &&& p[p.len() - 1] == t[t.len() - 2]
    &&& p[p.len() - 2] == t[t.len() - 1]
}

/// The distance of `p` to the part of `t` from `s` up to `e`.
pub open spec fn part_distance<T>(p: Seq<T>, t: Seq<T>, s: int, e: int) -> nat {
    osa(p, t.subrange(s, e))
}

/// Whether `s..e` is a part of `t` that can be matched: any but the empty one
/// in front of the first item.
pub open spec fn is_part<T>(t: Seq<T>, s: int, e: int) -> bool {
    0 <= s <= e <= t.len() && 1 <= e
}

/// Whether the part `s..e` at distance `cost` is to be preferred to the part
/// `s2..e2` at distance `cost2`, or is as good: less distance, then an earlier
/// start, then a longer part.
pub open spec fn as_good(cost: nat, s: int, e: int, cost2: nat, s2: int, e2: int) -> bool {
    ||| cost < cost2
    ||| cost == cost2 && s < s2
    ||| cost == cost2 && s == s2 && e >= e2
}

/// Whether `m` is the part of `t` that matches `p` best, within `max_dist`.
pub open spec fn is_best_part<T>(p: Seq<T>, t: Seq<T>, max_dist: nat, m: TypoWordMatch) -> bool {
    let s = m.start as int;
    let e = m.start + m.span_len;
    &&& is_part(t, s, e)
    &&& m.cost == part_distance(p, t, s, e)
    &&& m.cost <= max_dist
    &&& forall|s2: int, e2: int|
        #![trigger part_distance(p, t, s2, e2)]
        is_part(t, s2, e2) ==> as_good(m.cost as nat, s, e, part_distance(p, t, s2, e2), s2, e2)
}

/// Whether no part of `t` is within `max_dist` of `p`.
pub open spec fn all_parts_beyond<T>(p: Seq<T>, t: Seq<T>, max_dist: nat) -> bool {
    forall|s: int, e: int|
        #![trigger part_distance(p, t, s, e)]
        is_part(t, s, e) ==> part_distance(p, t, s, e) > max_dist
}

/// The best match of a pattern in a text within `max_dist` edits. An empty
/// pattern matches at the start.
pub open spec fn closest_part<T>(p: Seq<T>, t: Seq<T>, max_dist: nat) -> Option<TypoWordMatch> {
    if p.len() == 0 {
        Some(TypoWordMatch { cost: 0, start: 0, span_len: 0 })
    } else if all_parts_beyond(p, t, max_dist) {
        None
    } else {
        Some(choose|m: TypoWordMatch| is_best_part(p, t, max_dist, m))
    }
}

/// There is at most one best match.
pub proof fn lemma_best_part_unique<T>(
    p: Seq<T>,
    t: Seq<T>,
    max_dist: nat,
    a: TypoWordMatch,
    b: TypoWordMatch,
)
    requires
        is_best_part(p, t, max_dist, a),
        is_best_part(p, t, max_dist, b),
    ensures
        a == b,
{
    assert(part_distance(p, t, a.start as int, a.start + a.span_len) == a.cost);
    assert(part_distance(p, t, b.start as int, b.start + b.span_len) == b.cost);
}

/// The distance is at least the difference of the lengths.
pub proof fn lemma_osa_length<T>(p: Seq<T>, t: Seq<T>)
    ensures
        osa(p, t) + t.len() >= p.len(),
        osa(p, t) + p.len() >= t.len(),
    decreases p.len() + t.len(),
{
    if p.len() > 0 && t.len() > 0 {
        lemma_osa_length(p.drop_last(), t);
        lemma_osa_length(p, t.drop_last());
        lemma_osa_length(p.drop_last(), t.drop_last());
        if swapped_ends(p, t) {
            lemma_osa_length(p.drop_last().drop_last(), t.drop_last().drop_last());
        }
    }
}

/// The distance is zero exactly between equal sequences.
pub proof fn lemma_osa_zero<T>(p: Seq<T>, t: Seq<T>)
    ensures
        osa(p, t) == 0 <==> p == t,
    decreases p.len() + t.len(),
{
    if p.len() == 0 || t.len() == 0 {
        if p.len() == t.len() {
            assert(p =~= t);
        }
    } else {
        lemma_osa_zero(p.drop_last(), t.drop_last());
        assert(p =~= p.drop_last().push(p.last()));
        assert(t =~= t.drop_last().push(t.last()));
    }
}

// ---------------------------------------------------------------------------
// The table
// ---------------------------------------------------------------------------

/// A cell of the table: the least distance found, and where the part begins.
#[derive(Clone, Copy)]
struct Cell {
    cost: usize,
    start: usize,
}

/// The better of two candidates: less cost, then the earlier start.
spec fn pick(a: (int, int), b: (int, int)) -> (int, int) {
    if b.0 < a.0 || (b.0 == a.0 && b.1 < a.1) {
        b
    } else {
        a
    }
}

spec fn capped(cost: int, sat: int) -> int {
    if cost <= sat {
        cost
    } else {
        sat
    }
}

/// The cell for the first `i` items of `p` and a part of `t` that ends at `j`,
/// with costs capped at `sat`.
spec fn cell<T>(p: Seq<T>, t: Seq<T>, i: int, j: int, sat: int) -> (int, int)
    decreases j, i,
{
    if j <= 0 {
        (capped(i, sat), 0)
    } else if i <= 0 {
        (0, j)
    } else {
        let up = cell(p, t, i - 1, j, sat);
        let left = cell(p, t, i, j - 1, sat);
        let diagonal = cell(p, t, i - 1, j - 1, sat);
        let differ: int = if p[i - 1] == t[j - 1] {
            0
        } else {
            1
        };
        let best = pick(
            pick((capped(up.0 + 1, sat), up.1), (capped(left.0 + 1, sat), left.1)),
            (capped(diagonal.0 + differ, sat), diagonal.1),
        );
        if i > 1 && j > 1 && p[i - 1] == t[j - 2] && p[i - 2] == t[j - 1] {
            let before = cell(p, t, i - 2, j - 2, sat);
            pick(best, (capped(before.0 + 1, sat), before.1))
        } else {
            best
        }
    }
}

/// What a cell says: unless the cost is capped, it is the distance to the part
/// from its start, no part that ends here is closer, and none as close starts
/// earlier.
spec fn cell_correct<T>(p: Seq<T>, t: Seq<T>, i: int, j: int, sat: int) -> bool {
    let c = cell(p, t, i, j, sat);
    &&& 0 <= c.0 <= sat
    &&& c.0 <= i
    &&& 0 <= c.1 <= j
    &&& c.0 < sat ==> c.0 == part_distance(p.take(i), t, c.1, j)
    &&& forall|s: int|
        #![trigger part_distance(p.take(i), t, s, j)]
        0 <= s <= j ==> {
            &&& capped(part_distance(p.take(i), t, s, j) as int, sat) >= c.0
            &&& c.0 < sat && part_distance(p.take(i), t, s, j) == c.0 ==> s >= c.1
        }
}

/// How the distance to a part is made of the distances to shorter ones.
proof fn lemma_part_step<T>(p: Seq<T>, t: Seq<T>, i: int, s: int, j: int)
    requires
        0 < i <= p.len(),
        0 <= s < j <= t.len(),
    ensures
        part_distance(p.take(i), t, s, j) == {
            let differ: nat = if p[i - 1] == t[j - 1] {
                0
            } else {
                1
            };
            let best = min2(
                min2(
                    part_distance(p.take(i - 1), t, s, j) + 1,
                    part_distance(p.take(i), t, s, j - 1) + 1,
                ),
                part_distance(p.take(i - 1), t, s, j - 1) + differ,
            );
            if i > 1 && j - s > 1 && p[i - 1] == t[j - 2] && p[i - 2] == t[j - 1] {
                min2(best, part_distance(p.take(i - 2), t, s, j - 2) + 1)
            } else {
                best
            }
        },
{
    let a = p.take(i);
    let b = t.subrange(s, j);
    assert(a.drop_last() =~= p.take(i - 1));
    assert(b.drop_last() =~= t.subrange(s, j - 1));
    if i > 1 && j - s > 1 {
        assert(a.drop_last().drop_last() =~= p.take(i - 2));
        assert(b.drop_last().drop_last() =~= t.subrange(s, j - 2));
    }
}

proof fn lemma_part_empty<T>(p: Seq<T>, t: Seq<T>, i: int, j: int)
    requires
        0 <= i <= p.len(),
        0 <= j <= t.len(),
    ensures
        part_distance(p.take(i), t, j, j) == i,
{
    assert(t.subrange(j, j).len() == 0);
}

proof fn lemma_part_nothing<T>(p: Seq<T>, t: Seq<T>, s: int, j: int)
    requires
        0 <= s <= j <= t.len(),
    ensures
        part_distance(p.take(0), t, s, j) == j - s,
{
    assert(p.take(0).len() == 0);
}

#[verifier::rlimit(40)]
proof fn lemma_cell<T>(p: Seq<T>, t: Seq<T>, i: int, j: int, sat: int)
    requires
        0 <= i <= p.len(),
        0 <= j <= t.len(),
        sat >= 1,
    ensures
        cell_correct(p, t, i, j, sat),
    decreases j, i,
{
    let c = cell(p, t, i, j, sat);
    if j == 0 {
        lemma_part_empty(p, t, i, 0);
    } else if i == 0 {
        lemma_part_nothing(p, t, j, j);
        assert forall|s: int|
            #![trigger part_distance(p.take(i), t, s, j)]
            0 <= s <= j implies {
            &&& capped(part_distance(p.take(i), t, s, j) as int, sat) >= c.0
            &&& c.0 < sat && part_distance(p.take(i), t, s, j) == c.0 ==> s >= c.1
        } by {
            lemma_part_nothing(p, t, s, j);
        }
    } else {
        lemma_cell(p, t, i - 1, j, sat);
        lemma_cell(p, t, i, j - 1, sat);
        lemma_cell(p, t, i - 1, j - 1, sat);
        let up = cell(p, t, i - 1, j, sat);
        let left = cell(p, t, i, j - 1, sat);
        let diagonal = cell(p, t, i - 1, j - 1, sat);
        let swap = i > 1 && j > 1 && p[i - 1] == t[j - 2] && p[i - 2] == t[j - 1];
        if swap {
            lemma_cell(p, t, i - 2, j - 2, sat);
        }
        assert forall|s: int|
            #![trigger part_distance(p.take(i), t, s, j)]
            0 <= s <= j implies {
            &&& capped(part_distance(p.take(i), t, s, j) as int, sat) >= c.0
            &&& c.0 < sat && part_distance(p.take(i), t, s, j) == c.0 ==> s >= c.1
        } by {
            let d1 = part_distance(p.take(i - 1), t, s, j);
            if s == j {
                lemma_part_empty(p, t, i, j);
                lemma_part_empty(p, t, i - 1, j);
            } else {
                lemma_part_step(p, t, i, s, j);
                let d2 = part_distance(p.take(i), t, s, j - 1);
                let d3 = part_distance(p.take(i - 1), t, s, j - 1);
                if swap && j - s > 1 {
                    let d4 = part_distance(p.take(i - 2), t, s, j - 2);
                }
            }
        }
        if c.0 < sat {
            let s = c.1;
            if s == j {
                lemma_part_empty(p, t, i, j);
                lemma_part_empty(p, t, i - 1, j);
            } else {
                lemma_part_step(p, t, i, s, j);
            }
            assert(c.0 == part_distance(p.take(i), t, c.1, j));
        }
    }
}

/// The best of the parts that end at or before `j`, in the order in which the
/// scan meets them.
spec fn best_to<T>(p: Seq<T>, t: Seq<T>, sat: int, j: int, best: (int, int, int)) -> bool {
    let n = p.len() as int;
    &&& 0 <= best.0 <= sat
    &&& 0 <= best.1
    &&& 0 <= best.2
    &&& best.0 < sat ==> {
        &&& is_part(t, best.1, best.1 + best.2)
        &&& best.1 + best.2 <= j
        &&& best.0 == part_distance(p, t, best.1, best.1 + best.2)
    }
    &&& forall|s: int, e: int|
        #![trigger part_distance(p, t, s, e)]
        is_part(t, s, e) && e <= j ==> {
            &&& capped(part_distance(p, t, s, e) as int, sat) >= best.0
            &&& best.0 < sat ==> as_good(
                best.0 as nat,
                best.1,
                best.1 + best.2,
                part_distance(p, t, s, e),
                s,
                e,
            )
        }
}

/// One more end is taken into account.
proof fn lemma_best_step<T>(
    p: Seq<T>,
    t: Seq<T>,
    sat: int,
    j: int,
    best: (int, int, int),
    next: (int, int, int),
)
    requires
        1 <= j <= t.len(),
        sat >= 1,
        best_to(p, t, sat, j - 1, best),
        next == {
            let c = cell(p, t, p.len() as int, j, sat);
            let span = j - c.1;
            if c.0 < best.0 || (c.0 == best.0 && (c.1 < best.1 || (c.1 == best.1 && span
                > best.2))) {
                (c.0, c.1, span)
            } else {
                best
            }
        },
    ensures
        best_to(p, t, sat, j, next),
{
    let n = p.len() as int;
    lemma_cell(p, t, n, j, sat);
    assert(p.take(n) =~= p);
    let c = cell(p, t, n, j, sat);
    assert forall|s: int, e: int|
        #![trigger part_distance(p, t, s, e)]
        is_part(t, s, e) && e <= j implies {
        &&& capped(part_distance(p, t, s, e) as int, sat) >= next.0
        &&& next.0 < sat ==> as_good(
            next.0 as nat,
            next.1,
            next.1 + next.2,
            part_distance(p, t, s, e),
            s,
            e,
        )
    } by {
        let d = part_distance(p, t, s, e);
        if e == j {
            assert(part_distance(p.take(n), t, s, j) == d);
        }
    }
}

/// A whole scan, or one that stopped at distance zero, has found the best part.
proof fn lemma_scan_done<T>(p: Seq<T>, t: Seq<T>, max_dist: nat, j: int, best: (int, int, int))
    requires
        p.len() > 0,
        0 <= j <= t.len(),
        best_to(p, t, max_dist as int + 1, j, best),
        j == t.len() || best.0 == 0,
        best.1 <= usize::MAX,
        best.2 <= usize::MAX,
        max_dist < usize::MAX,
    ensures
        best.0 <= max_dist ==> is_best_part(
            p,
            t,
            max_dist,
            (TypoWordMatch {
                cost: best.0 as usize,
                start: best.1 as usize,
                span_len: best.2 as usize,
            }),
        ),
        best.0 > max_dist ==> all_parts_beyond(p, t, max_dist),
{
    if best.0 <= max_dist {
        let m = TypoWordMatch {
            cost: best.0 as usize,
            start: best.1 as usize,
            span_len: best.2 as usize,
        };
        if best.0 == 0 {
            lemma_osa_zero(p, t.subrange(best.1, best.1 + best.2));
            assert(best.2 == p.len());
            assert(best.1 + best.2 <= j);
        }
        assert forall|s: int, e: int|
            #![trigger part_distance(p, t, s, e)]
            is_part(t, s, e) implies as_good(
            m.cost as nat,
            m.start as int,
            m.start + m.span_len,
            part_distance(p, t, s, e),
            s,
            e,
        ) by {
            if e > j && part_distance(p, t, s, e) == 0 {
                lemma_osa_zero(p, t.subrange(s, e));
                assert(e - s == p.len());
            }
        }
    }
}

proof fn lemma_closest_part<T>(p: Seq<T>, t: Seq<T>, max_dist: nat, m: TypoWordMatch)
    requires
        p.len() > 0,
        is_best_part(p, t, max_dist, m),
    ensures
        closest_part(p, t, max_dist) == Some(m),
{
    assert(part_distance(p, t, m.start as int, m.start + m.span_len) <= max_dist);
    let other = choose|x: TypoWordMatch| is_best_part(p, t, max_dist, x);
    lemma_best_part_unique(p, t, max_dist, m, other);
}

/// What the best match is, in words of its distance: no part of the text is
/// closer, and of those as close it is the first and then the longest.
pub proof fn lemma_closest_part_is_best<T>(p: Seq<T>, t: Seq<T>, max_dist: nat)
    requires
        p.len() > 0,
        t.len() <= usize::MAX,
        max_dist < usize::MAX,
    ensures
        match closest_part(p, t, max_dist) {
            Some(m) => is_best_part(p, t, max_dist, m),
            None => all_parts_beyond(p, t, max_dist),
        },
{
    let best = lemma_scan(p, t, max_dist, t.len() as int);
    lemma_scan_done(p, t, max_dist, t.len() as int, best);
    if best.0 <= max_dist {
        let m = TypoWordMatch {
            cost: best.0 as usize,
            start: best.1 as usize,
            span_len: best.2 as usize,
        };
        lemma_closest_part(p, t, max_dist, m);
    }
}

proof fn lemma_scan<T>(p: Seq<T>, t: Seq<T>, max_dist: nat, j: int) -> (best: (int, int, int))
    requires
        p.len() > 0,
        0 <= j <= t.len(),
    ensures
        best_to(p, t, max_dist as int + 1, j, best),
        0 <= best.1 <= j,
        0 <= best.2 <= j,
    decreases j,
{
    let sat = max_dist as int + 1;
    if j == 0 {
        (sat, 0, 0)
    } else {
        let best = lemma_scan(p, t, max_dist, j - 1);
        let c = cell(p, t, p.len() as int, j, sat);
        lemma_cell(p, t, p.len() as int, j, sat);
        let span = j - c.1;
        let next = if c.0 < best.0 || (c.0 == best.0 && (c.1 < best.1 || (c.1 == best.1 && span
            > best.2))) {
            (c.0, c.1, span)
        } else {
            best
        };
        lemma_best_step(p, t, sat, j, best, next);
        next
    }
}

spec fn row_holds<T>(row: Seq<Cell>, p: Seq<T>, t: Seq<T>, j: int, sat: int, upto: int) -> bool {
    &&& row.len() == p.len() + 1
    &&& forall|k: int|
        #![trigger row[k]]
        0 <= k < upto ==> (row[k].cost as int, row[k].start as int) == cell(p, t, k, j, sat)
}

fn better(a: Cell, b: Cell) -> (r: Cell)
    ensures
        (r.cost as int, r.start as int) == pick(
            (a.cost as int, a.start as int),
            (b.cost as int, b.start as int),
        ),
{
    if b.cost < a.cost || (b.cost == a.cost && b.start < a.start) {
        b
    } else {
        a
    }
}

fn after_edit(c: Cell, sat: usize) -> (r: Cell)
    requires
        c.cost <= sat,
    ensures
        (r.cost as int, r.start as int) == (capped(c.cost + 1, sat as int), c.start as int),
{
    if c.cost < sat {
        Cell { cost: c.cost + 1, start: c.start }
    } else {
        c
    }
}

/// Fills the row for a text item from the two rows before it.
fn fill_row<T: Symbol>(
    pattern: &[T],
    text: &[T],
    j: usize,
    sat: usize,
    prev2: &Vec<Cell>,
    prev: &Vec<Cell>,
    curr: &mut Vec<Cell>,
)
    requires
        1 <= j <= text@.len(),
        sat >= 1,
        pattern@.len() < usize::MAX,
        old(curr)@.len() == pattern@.len() + 1,
        row_holds(prev@, pattern@, text@, j - 1, sat as int, pattern@.len() as int + 1),
        j > 1 ==> row_holds(prev2@, pattern@, text@, j - 2, sat as int, pattern@.len() as int + 1),
    ensures
        row_holds(final(curr)@, pattern@, text@, j as int, sat as int, pattern@.len() as int + 1),
{
    let plen: usize = pattern.len();
    let text_item = text[j - 1];
    curr.set(0, Cell { cost: 0, start: j });
    let mut i: usize = 1;
    while i <= plen
        invariant
                1 <= j <= text@.len(),
            1 <= i <= plen + 1,
            plen == pattern@.len(),
            plen < usize::MAX,
            sat >= 1,
            text_item == text@[j - 1],
            row_holds(prev@, pattern@, text@, j - 1, sat as int, plen + 1),
            j > 1 ==> row_holds(prev2@, pattern@, text@, j - 2, sat as int, plen + 1),
            row_holds(curr@, pattern@, text@, j as int, sat as int, i as int),
        decreases plen + 1 - i,
    {
        proof {
            lemma_cell(pattern@, text@, i - 1, j as int, sat as int);
            lemma_cell(pattern@, text@, i as int, j - 1, sat as int);
            lemma_cell(pattern@, text@, i - 1, j - 1, sat as int);
            if i > 1 && j > 1 {
                lemma_cell(pattern@, text@, i - 2, j - 2, sat as int);
            }
        }
        let up = curr[i - 1];
        let left = prev[i];
        let diagonal = prev[i - 1];
        let deletion = after_edit(up, sat);
        let insertion = after_edit(left, sat);
        let substitution = if pattern[i - 1].same(text_item) {
            diagonal
        } else {
            after_edit(diagonal, sat)
        };
        let mut best = better(better(deletion, insertion), substitution);
        if i > 1 && j > 1 {
            let last = pattern[i - 1];
            let earlier = pattern[i - 2];
            if last.same(text[j - 2]) && earlier.same(text_item) {
                let before = prev2[i - 2];
                let transposition = after_edit(before, sat);
                best = better(best, transposition);
            }
        }
        curr.set(i, best);
        i += 1;
    }
}

/// Finds the part of `text` that is closest to `pattern`, within `max_dist`
/// edits. Among parts as close the first is taken, and then the longest.
pub fn typo_match_word_osa_substring<T: Symbol>(
    pattern: &[T],
    text: &[T],
    max_dist: usize,
) -> (r: Option<TypoWordMatch>)
    requires
        max_dist < usize::MAX,
        pattern@.len() < usize::MAX,
    ensures
        r == closest_part(pattern@, text@, max_dist as nat),
        pattern@.len() > 0 ==> match r {
            Some(m) => is_best_part(pattern@, text@, max_dist as nat, m),
            None => all_parts_beyond(pattern@, text@, max_dist as nat),
        },
{
    let plen: usize = pattern.len();
    if plen == 0 {
        return Some(TypoWordMatch { cost: 0, start: 0, span_len: 0 });
    }
    if plen > text.len().saturating_add(max_dist) {
        proof {
            assert forall|s: int, e: int|
                #![trigger part_distance(pattern@, text@, s, e)]
                is_part(text@, s, e) implies part_distance(pattern@, text@, s, e) > max_dist by {
                lemma_osa_length(pattern@, text@.subrange(s, e));
            }
        }
        return None;
    }
    let sat: usize = max_dist + 1;
    let size: usize = text.len();
    let mut prev: Vec<Cell> = Vec::new();
    let mut curr: Vec<Cell> = Vec::new();
    let mut prev2: Vec<Cell> = Vec::new();
    let mut i: usize = 0;
    while i <= plen
        invariant
            0 <= i <= plen + 1,
            plen == pattern@.len(),
            plen < usize::MAX,
            prev@.len() == i,
            curr@.len() == i,
            prev2@.len() == i,
            forall|k: int|
                #![trigger prev@[k]]
                0 <= k < i ==> (prev@[k].cost as int, prev@[k].start as int) == cell(
                    pattern@,
                    text@,
                    k,
                    0,
                    sat as int,
                ),
        decreases plen + 1 - i,
    {
        let cost: usize = if i < sat {
            i
        } else {
            sat
        };
        prev.push(Cell { cost, start: 0 });
        curr.push(Cell { cost: 0, start: 0 });
        prev2.push(Cell { cost, start: 0 });
        i += 1;
    }
    let mut best_cost: usize = sat;
    let mut best_start: usize = 0;
    let mut best_span_len: usize = 0;
    let mut j: usize = 0;
    while j < size && best_cost != 0
        invariant
                plen == pattern@.len(),
            0 < plen < usize::MAX,
            size == text@.len(),
            0 <= j <= size,
            max_dist < usize::MAX,
            sat == max_dist + 1,
            curr@.len() == plen + 1,
            prev2@.len() == plen + 1,
            row_holds(prev@, pattern@, text@, j as int, sat as int, plen + 1),
            j > 0 ==> row_holds(prev2@, pattern@, text@, j - 1, sat as int, plen + 1),
            best_to(
                pattern@,
                text@,
                sat as int,
                j as int,
                (best_cost as int, best_start as int, best_span_len as int),
            ),
        decreases size - j,
    {
        let next: usize = j + 1;
        fill_row(pattern, text, next, sat, &prev2, &prev, &mut curr);
        let end = curr[plen];
        proof {
            lemma_cell(pattern@, text@, plen as int, next as int, sat as int);
        }
        let span_len: usize = next - end.start;
        let ghost before = (best_cost as int, best_start as int, best_span_len as int);
        if end.cost < best_cost || (end.cost == best_cost && (end.start < best_start || (end.start
            == best_start && span_len > best_span_len))) {
            best_cost = end.cost;
            best_start = end.start;
            best_span_len = span_len;
        }
        proof {
            lemma_best_step(
                pattern@,
                text@,
                sat as int,
                next as int,
                before,
                (best_cost as int, best_start as int, best_span_len as int),
            );
        }
        std::mem::swap(&mut prev2, &mut prev);
        std::mem::swap(&mut prev, &mut curr);
        j = next;
    }
    let ghost best = (best_cost as int, best_start as int, best_span_len as int);
    proof {
        lemma_scan_done(pattern@, text@, max_dist as nat, j as int, best);
    }
    if best_cost <= max_dist {
        let m = TypoWordMatch { cost: best_cost, start: best_start, span_len: best_span_len };
        proof {
            lemma_closest_part(pattern@, text@, max_dist as nat, m);
        }
        Some(m)
    } else {
        None
    }
}

/// The ASCII lowercase form of a byte.
pub open spec fn lower_byte(b: u8) -> u8 {
    if 65 <= b <= 90 {
        (b + 32) as u8
    } else {
        b
    }
}

/// The ASCII lowercase form of a run of bytes.
pub open spec fn lower_bytes(s: Seq<u8>) -> Seq<u8> {
    s.map_values(|b: u8| lower_byte(b))
}

fn lowered(s: &[u8]) -> (r: Vec<u8>)
    ensures
        r@ == lower_bytes(s@),
{
    let mut r: Vec<u8> = Vec::new();
    let mut i: usize = 0;
    while i < s.len()
        invariant
            0 <= i <= s@.len(),
            r@.len() == i,
            forall|k: int| 0 <= k < i ==> #[trigger] r@[k] == lower_byte(s@[k]),
        decreases s.len() - i,
    {
        let b = s[i];
        if 65 <= b && b <= 90 {
            r.push(b + 32);
        } else {
            r.push(b);
        }
        i += 1;
    }
    proof {
        assert(r@ =~= lower_bytes(s@));
    }
    r
}

/// As `typo_match_word_osa_substring`, on bytes and without regard to ASCII
/// case. A pattern that is too long is not matched.
pub fn typo_match_word_osa_substring_ascii(
    pattern: &[u8],
    text: &[u8],
    max_dist: usize,
) -> (r: Option<TypoWordMatch>)
    requires
        max_dist < usize::MAX,
    ensures
        r == if pattern@.len() > MAX_WORD_LEN {
            None
        } else {
            closest_part(lower_bytes(pattern@), lower_bytes(text@), max_dist as nat)
        },
{
    if pattern.len() > MAX_WORD_LEN {
        return None;
    }
    let p = lowered(pattern);
    let t = lowered(text);
    typo_match_word_osa_substring(p.as_slice(), t.as_slice(), max_dist)
}

// ---------------------------------------------------------------------------
// What an edit is
// ---------------------------------------------------------------------------

proof fn lemma_osa_common_end<T>(p: Seq<T>, t: Seq<T>, end: Seq<T>)
    ensures
        osa(p + end, t + end) <= osa(p, t),
    decreases end.len(),
{
    if end.len() == 0 {
        assert(p + end =~= p);
        assert(t + end =~= t);
    } else {
        lemma_osa_common_end(p, t, end.drop_last());
        assert((p + end).drop_last() =~= p + end.drop_last());
        assert((t + end).drop_last() =~= t + end.drop_last());
    }
}

/// To leave one item out, to put one in, to change one, or to swap two neighbours is one edit
/// at most, wherever it is done.
pub proof fn lemma_one_edit<T>(start: Seq<T>, end: Seq<T>, x: T, y: T)
    ensures
        osa(start + seq![x] + end, start + end) <= 1,
        osa(start + end, start + seq![x] + end) <= 1,
        osa(start + seq![x] + end, start + seq![y] + end) <= 1,
        osa(start + seq![x, y] + end, start + seq![y, x] + end) <= 1,
{
    let (sx, sy) = (start + seq![x], start + seq![y]);
    let (sxy, syx) = (start + seq![x, y], start + seq![y, x]);
    assert(sx.drop_last() =~= start);
    assert(sy.drop_last() =~= start);
    assert(sxy.drop_last().drop_last() =~= start);
    assert(syx.drop_last().drop_last() =~= start);
    lemma_osa_zero(start, start);
    assert(swapped_ends(sxy, syx));
    lemma_osa_common_end(sx, start, end);
    lemma_osa_common_end(start, sx, end);
    lemma_osa_common_end(sx, sy, end);
    lemma_osa_common_end(sxy, syx, end);
}

/// As many edits lead back as lead there.
pub proof fn lemma_osa_symmetric<T>(p: Seq<T>, t: Seq<T>)
    ensures
        osa(p, t) == osa(t, p),
    decreases p.len() + t.len(),
{
    if p.len() > 0 && t.len() > 0 {
        lemma_osa_symmetric(p.drop_last(), t);
        lemma_osa_symmetric(p, t.drop_last());
        lemma_osa_symmetric(p.drop_last(), t.drop_last());
        if swapped_ends(p, t) {
            lemma_osa_symmetric(p.drop_last().drop_last(), t.drop_last().drop_last());
        }
    }
}

/// There are never more edits than items in the longer sequence, and sequences without a
/// common item take that many.
pub proof fn lemma_osa_at_most<T>(p: Seq<T>, t: Seq<T>)
    ensures
        osa(p, t) <= p.len() || osa(p, t) <= t.len(),
        (forall|i: int, j: int|
            0 <= i < p.len() && 0 <= j < t.len() ==> #[trigger] p[i] != #[trigger] t[j]) ==> osa(
            p,
            t,
        ) >= p.len() && osa(p, t) >= t.len(),
    decreases p.len() + t.len(),
{
    if p.len() > 0 && t.len() > 0 {
        let (p1, t1) = (p.drop_last(), t.drop_last());
        lemma_osa_at_most(p1, t);
        lemma_osa_at_most(p, t1);
        lemma_osa_at_most(p1, t1);
        if forall|i: int, j: int|
            0 <= i < p.len() && 0 <= j < t.len() ==> #[trigger] p[i] != #[trigger] t[j] {
            assert(p[p.len() - 1] != t[t.len() - 1]);
            assert(!swapped_ends(p, t)) by {
                if t.len() > 1 {
                    assert(p[p.len() - 1] != t[t.len() - 2]);
                }
            }
        }
    }
}

} // verus!
