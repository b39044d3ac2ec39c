//! Ground pathfinding (breadth-first search with a fixed tie-break) and the
//! straight flight line of flyers.
use vstd::prelude::*;
use crate::types::{Pos, in_board, BOARD_W, BOARD_H};

verus! {

/// Number of cells of the board.
pub const CELLS: usize = 100;

/// Index of the cell of `p` in a row-major board array.
pub open spec fn cell_of(p: Pos) -> int {
    p.y * BOARD_W + p.x
}

/// The board position of cell index `c`.
pub open spec fn cell_pos(c: int) -> Pos {
    Pos { x: (c % 10) as i32, y: (c / 10) as i32 }
}

/// Whether the cell index of `p` can be computed and lands in the board array.
pub open spec fn indexable(p: Pos) -> bool {
    &&& i32::MIN <= p.y * BOARD_W <= i32::MAX
    &&& 0 <= cell_of(p) < CELLS
}

/// Whether some blocked position maps to cell index `c`.
pub open spec fn blocked_cell(blocked: Seq<Pos>, c: int) -> bool {
    exists|i: int| 0 <= i < blocked.len() && cell_of(#[trigger] blocked[i]) == c
}

/// A board cell that enemies may walk on.
pub open spec fn free(blocked: Seq<Pos>, p: Pos) -> bool {
    in_board(p) && !blocked_cell(blocked, cell_of(p))
}

/// The index of the move from `p` to `q` in the fixed exploration order
/// Right, Down, Up, Left; `-1` when `q` is not a neighbour of `p`.
pub open spec fn step_dir(p: Pos, q: Pos) -> int {
    if q.x == p.x + 1 && q.y == p.y {
        0
    } else if q.x == p.x && q.y == p.y + 1 {
        1
    } else if q.x == p.x && q.y == p.y - 1 {
        2
    } else if q.x == p.x - 1 && q.y == p.y {
        3
    } else {
        -1
    }
}

/// A walk on free cells, one orthogonal step at a time.
pub open spec fn is_walk(blocked: Seq<Pos>, w: Seq<Pos>) -> bool {
    &&& w.len() >= 1
    &&& forall|i: int| 0 <= i < w.len() ==> free(blocked, #[trigger] w[i])
    &&& forall|i: int| 0 <= i < w.len() - 1 ==> step_dir(#[trigger] w[i], w[i + 1]) >= 0
}

/// A walk from `from` to `to`.
pub open spec fn is_route(blocked: Seq<Pos>, from: Pos, to: Pos, w: Seq<Pos>) -> bool {
    &&& is_walk(blocked, w)
    &&& w[0] == from
    &&& w[w.len() - 1] == to
}

/// The sequence of moves (direction indices) of a walk.
pub open spec fn moves(w: Seq<Pos>) -> Seq<int> {
    Seq::new((w.len() - 1) as nat, |i: int| step_dir(w[i], w[i + 1]))
}

/// Strict lexicographic order on move sequences.
pub open spec fn lex_lt(a: Seq<int>, b: Seq<int>) -> bool {
    exists|i: int|
        0 <= i < a.len() && i < b.len() && #[trigger] a[i] < #[trigger] b[i] && forall|j: int|
            0 <= j < i ==> a[j] == b[j]
}

pub open spec fn lex_le(a: Seq<int>, b: Seq<int>) -> bool {
    a == b || lex_lt(a, b)
}

/// `w` is a shortest route, and among shortest routes its moves come first in
/// lexicographic order (Right < Down < Up < Left): the documented tie-break.
pub open spec fn is_best_route(blocked: Seq<Pos>, from: Pos, to: Pos, w: Seq<Pos>) -> bool {
    &&& is_route(blocked, from, to, w)
    &&& forall|w2: Seq<Pos>|
        #[trigger] is_route(blocked, from, to, w2) ==> w.len() < w2.len() || (w.len() == w2.len()
            && lex_le(moves(w), moves(w2)))
}

/// The path enemies take: the best route when one exists.
pub open spec fn best_route(from: Pos, to: Pos, blocked: Seq<Pos>) -> Option<Seq<Pos>> {
    if exists|w: Seq<Pos>| is_route(blocked, from, to, w) {
        Some(choose|w: Seq<Pos>| is_best_route(blocked, from, to, w))
    } else {
        None
    }
}

/// The view of an optional path.
pub open spec fn path_view(r: Option<Vec<Pos>>) -> Option<Seq<Pos>> {
    match r {
        Some(v) => Some(v@),
        None => None,
    }
}


/// Row-major index of a cell.
fn cell_index(p: Pos) -> (c: usize)
    requires
        indexable(p),
    ensures
        c == cell_of(p),
{
    (p.y * BOARD_W + p.x) as usize
}

/// The position of a cell index.
fn pos_of_cell(c: usize) -> (p: Pos)
    requires
        c < CELLS,
    ensures
        p == cell_pos(c as int),
{
    Pos::new((c as i32) % BOARD_W, (c as i32) / BOARD_W)
}

/// The step of direction `d` in the fixed exploration order Right, Down, Up, Left.
pub fn direction(d: usize) -> (r: (i32, i32))
    requires
        d < 4,
    ensures
        r.0 == dir_dx(d as int),
        r.1 == dir_dy(d as int),
{
    if d == 0 {
        (1, 0)
    } else if d == 1 {
        (0, 1)
    } else if d == 2 {
        (0, -1)
    } else {
        (-1, 0)
    }
}

pub open spec fn dir_dx(d: int) -> int {
    if d == 0 {
        1
    } else if d == 3 {
        -1
    } else {
        0
    }
}

pub open spec fn dir_dy(d: int) -> int {
    if d == 1 {
        1
    } else if d == 2 {
        -1
    } else {
        0
    }
}

/// A sequence read backwards.
pub open spec fn reversed<T>(s: Seq<T>) -> Seq<T> {
    Seq::new(s.len(), |i: int| s[s.len() - 1 - i])
}


proof fn lemma_take_chain(ct: Seq<Pos>, cc: Seq<Pos>, cq: Seq<Pos>, k: int, x: Pos)
    requires
        0 <= k,
        ct.len() >= k + 2,
        ct.take(k + 2) == cc,
        cc == cq.push(x),
        cq.len() == k + 1,
    ensures
        ct.take(k + 1) == cq,
        ct[k] == cq[k],
{
    assert(ct.take(k + 1) =~= cq);
    assert(ct[k] == cc[k]);
}

proof fn lemma_rev_step(s: Seq<Pos>, a: int)
    requires
        0 <= a < s.len() - 1,
    ensures
        reversed(s.subrange(a, s.len() as int)) == reversed(s.subrange(a + 1, s.len() as int)).push(s[a]),
{
    assert(reversed(s.subrange(a, s.len() as int)) =~= reversed(s.subrange(a + 1, s.len() as int)).push(s[a]));
}

/// Follows the parent links back from `target` and returns the route in order.
fn rebuild_path(
    prev: &Vec<usize>,
    cf: usize,
    target: usize,
    Ghost(bl): Ghost<Seq<Pos>>,
    Ghost(from): Ghost<Pos>,
    Ghost(order): Ghost<Seq<usize>>,
    Ghost(dist): Ghost<Seq<int>>,
    Ghost(canon): Ghost<Seq<Seq<Pos>>>,
    Ghost(pio): Ghost<Seq<int>>,
    Ghost(head): Ghost<int>,
) -> (path: Vec<Pos>)
    requires
        shape(from, order, prev@, dist, canon, pio),
        parents(order, prev@, dist, canon, pio, head, order.len() as int),
        routes(bl, from, prev@, dist, canon),
        optimal(bl, from, prev@, canon),
        cf == cell_of(from),
        in_board(from),
        target < CELLS,
        seen(prev@, target as int),
    ensures
        path@ == canon[target as int],
{
    let ghost t = target as int;
    proof {
        lemma_cell_roundtrip(from);
        lemma_seen_cell(bl, from, order, prev@, dist, canon, pio, t);
        lemma_order_entry(from, order, prev@, dist, canon, pio, 0);
    }
    let mut rev: Vec<Pos> = Vec::new();
    rev.push(pos_of_cell(target));
    let mut cur = target;
    proof {
        assert(rev@ =~= reversed(canon[t].subrange(dist[t], dist[t] + 1)));
        assert(canon[t].take(dist[t] + 1) =~= canon[t]);
    }
    while cur != cf
        invariant
            shape(from, order, prev@, dist, canon, pio),
            parents(order, prev@, dist, canon, pio, head, order.len() as int),
            routes(bl, from, prev@, dist, canon),
            optimal(bl, from, prev@, canon),
            cf == cell_of(from),
            in_board(from),
            prev@.len() == CELLS,
            cur < CELLS,
            seen(prev@, cur as int),
            0 <= t < CELLS,
            canon[t].len() == dist[t] + 1,
            canon[t].take(dist[cur as int] + 1) == canon[cur as int],
            canon[cur as int].len() == dist[cur as int] + 1,
            rev@ == reversed(canon[t].subrange(dist[cur as int], dist[t] + 1)),
            0 <= dist[cur as int] <= dist[t],
        decreases dist[cur as int],
    {
        let ghost old_cur = cur as int;
        proof {
            lemma_seen_cell(bl, from, order, prev@, dist, canon, pio, old_cur);
            lemma_parent(from, order, prev@, dist, canon, pio, head, order.len() as int, old_cur);
        }
        cur = prev[cur];
        let q = pos_of_cell(cur);
        rev.push(q);
        proof {
            let cq = cur as int;
            lemma_seen_cell(bl, from, order, prev@, dist, canon, pio, cq);
            lemma_take_chain(canon[t], canon[old_cur], canon[cq], dist[cq], cell_pos(old_cur));
            lemma_rev_step(canon[t], dist[cq]);
        }
    }
    proof {
        lemma_order_entry(from, order, prev@, dist, canon, pio, 0);
        assert(canon[t].subrange(0, dist[t] + 1) =~= canon[t]);
    }
    let n = rev.len();
    let mut path: Vec<Pos> = Vec::new();
    let mut j: usize = 0;
    while j < n
        invariant
            n == rev@.len(),
            j <= n,
            path@.len() == j,
            forall|k: int| 0 <= k < j ==> path@[k] == rev@[n - 1 - k],
        decreases n - j,
    {
        path.push(rev[n - 1 - j]);
        j += 1;
    }
    proof {
        assert(rev@ == reversed(canon[t]));
        assert(path@ =~= canon[t]);
    }
    path
}

/// Breadth-first search on the board. Cells are explored in the fixed order
/// Right, Down, Up, Left and the first parent to reach a cell wins, so the
/// path is the shortest one whose moves come first in that order.
#[verifier::rlimit(80)]
pub fn shortest_path(from: Pos, to: Pos, blocked: &[Pos]) -> (r: Option<Vec<Pos>>)
    requires
        in_board(from),
        indexable(to),
        forall|i: int| 0 <= i < blocked@.len() ==> indexable(#[trigger] blocked@[i]),
    ensures
        path_view(r) == best_route(from, to, blocked@),
        r matches Some(w) ==> is_best_route(blocked@, from, to, w@),
{
    let ghost bl = blocked@;
    let mut prev: Vec<usize> = vec![usize::MAX; CELLS];
    let mut wall: Vec<bool> = vec![false; CELLS];
    let mut i: usize = 0;
    while i < blocked.len()
        invariant
            bl == blocked@,
            i <= blocked@.len(),
            wall@.len() == CELLS,
            prev@.len() == CELLS,
            forall|c: int| 0 <= c < CELLS ==> prev@[c] == usize::MAX,
            forall|j: int| 0 <= j < blocked@.len() ==> indexable(#[trigger] blocked@[j]),
            forall|c: int|
                0 <= c < CELLS ==> (#[trigger] wall@[c] <==> exists|j: int|
                    0 <= j < i && cell_of(#[trigger] blocked@[j]) == c),
        decreases blocked@.len() - i,
    {
        let c = cell_index(blocked[i]);
        wall.set(c, true);
        i += 1;
    }
    assert forall|c: int| 0 <= c < CELLS implies #[trigger] wall@[c] == blocked_cell(bl, c) by {
        if wall@[c] {
            let j = choose|j: int| 0 <= j < i && cell_of(#[trigger] blocked@[j]) == c;
            assert(0 <= j < bl.len() && cell_of(bl[j]) == c);
        }
    }
    proof {
        lemma_cell_roundtrip(from);
    }
    let cf = cell_index(from);
    let ct = cell_index(to);
    if wall[cf] || wall[ct] {
        proof {
            assert forall|w: Seq<Pos>| !is_route(bl, from, to, w) by {
                if is_route(bl, from, to, w) {
                    assert(free(bl, w[0]));
                    assert(free(bl, w[w.len() - 1]));
                }
            }
        }
        return None;
    }
    prev.set(cf, cf);
    let mut order: Vec<usize> = Vec::new();
    order.push(cf);
    let mut head: usize = 0;
    let ghost mut dist: Seq<int> = Seq::new(CELLS as nat, |c: int| 0int);
    let ghost mut canon: Seq<Seq<Pos>> = Seq::new(CELLS as nat, |c: int| seq![from]);
    let ghost mut pio: Seq<int> = Seq::new(CELLS as nat, |c: int| 0int);
    proof {
        assert(order@ =~= seq![cf]);
        lemma_init(bl, from, order@, prev@, dist, canon, pio);
        lemma_unseen_count_nonneg(prev@, CELLS as int);
    }
    while head < order.len()
        invariant
            bl == blocked@,
            in_board(from),
            cf == cell_of(from),
            ct == cell_of(to),
            wall@.len() == CELLS,
            forall|c: int| 0 <= c < CELLS ==> #[trigger] wall@[c] == blocked_cell(bl, c),
            head <= order@.len(),
            prev@.len() == CELLS,
            shape(from, order@, prev@, dist, canon, pio),
            parents(order@, prev@, dist, canon, pio, head as int, order@.len() as int),
            routes(bl, from, prev@, dist, canon),
            optimal(bl, from, prev@, canon),
            sorted(order@, dist, canon),
            closed_upto(bl, order@, prev@, head as int),
            forall|k: int| 0 <= k < head ==> cell_pos(#[trigger] order@[k] as int) != to,
            head < order@.len() ==> dist[order@[order@.len() - 1] as int] <= dist[order@[head as int] as int] + 1,
            unseen_count(prev@, CELLS as int) >= 0,
        decreases unseen_count(prev@, CELLS as int) + order@.len() - head,
    {
        proof {
            lemma_order_entry(from, order@, prev@, dist, canon, pio, head as int);
        }
        let c = order[head];
        head += 1;
        let p = pos_of_cell(c);
        proof {
            lemma_cell_pos(c as int);
            lemma_parents_weaken(order@, prev@, dist, canon, pio, head - 1, order@.len() as int, head as int, order@.len() as int);
        }
        if p == to {
            proof {
                lemma_seen_cell(bl, from, order@, prev@, dist, canon, pio, c as int);
            }
            let path = rebuild_path(&prev, cf, c, Ghost(bl), Ghost(from), Ghost(order@), Ghost(dist), Ghost(canon), Ghost(pio), Ghost(head as int));
            proof {
                assert(cell_pos(c as int) == to);
                lemma_best_route_is_spec(bl, from, to, path@);
            }
            return Some(path);
        }
        let len0 = order.len();
        let ghost total = unseen_count(prev@, CELLS as int) + order@.len();
        let mut d: usize = 0;
        while d < 4
            invariant
                bl == blocked@,
                1 <= head <= len0 <= order@.len(),
                c == order@[head - 1],
                c < CELLS,
                p == cell_pos(c as int),
                in_board(p),
                p != to,
                d <= 4,
                cf == cell_of(from),
                ct == cell_of(to),
                wall@.len() == CELLS,
                forall|x: int| 0 <= x < CELLS ==> #[trigger] wall@[x] == blocked_cell(bl, x),
                prev@.len() == CELLS,
                in_board(from),
                shape(from, order@, prev@, dist, canon, pio),
                parents(order@, prev@, dist, canon, pio, head as int, order@.len() as int),
                parents(order@, prev@, dist, canon, pio, head - 1, len0 as int),
                routes(bl, from, prev@, dist, canon),
                optimal(bl, from, prev@, canon),
                sorted(order@, dist, canon),
                closed_upto(bl, order@, prev@, head - 1),
                expanded_below(bl, order@, prev@, head - 1, d as int),
                dist[order@[order@.len() - 1] as int] <= dist[order@[head - 1] as int] + 1,
                forall|k: int|
                    len0 <= k < order@.len() ==> prev@[#[trigger] order@[k] as int] == order@[head - 1]
                        && step_dir(cell_pos(order@[head - 1] as int), cell_pos(order@[k] as int)) < d,
                forall|k: int| 0 <= k < head ==> cell_pos(#[trigger] order@[k] as int) != to,
                unseen_count(prev@, CELLS as int) + order@.len() == total,
                unseen_count(prev@, CELLS as int) >= 0,
            decreases 4 - d,
        {
            let (dx, dy) = direction(d);
            let n = Pos::new(p.x + dx, p.y + dy);
            assert(step_dir(p, n) == d as int);
            if n.x >= 0 && n.y >= 0 && n.x < BOARD_W && n.y < BOARD_H {
                proof {
                    lemma_cell_roundtrip(n);
                }
                let nc = cell_index(n);
                if !wall[nc] && prev[nc] == usize::MAX {
                    proof {
                        lemma_enqueue(bl, from, order@, head as int, len0 as int, prev@, dist, canon, pio, d as int, n);
                        lemma_unseen_count_mark(prev@, nc as int, c, CELLS as int);
                        lemma_unseen_count_nonneg(prev@.update(nc as int, c), CELLS as int);
                        dist = dist.update(nc as int, dist[c as int] + 1);
                        canon = canon.update(nc as int, canon[c as int].push(n));
                        pio = pio.update(nc as int, order@.len() as int);
                    }
                    prev.set(nc, c);
                    order.push(nc);
                    assert(order@[head - 1] == c);
                } else {
                    assert forall|q: Pos|
                        free(bl, q) && 0 <= #[trigger] step_dir(cell_pos(order@[head - 1] as int), q) < d + 1
                            implies seen(prev@, cell_of(q)) by {
                        if step_dir(p, q) == d as int {
                            lemma_step_injective(p, q, n);
                        }
                    }
                }
            } else {
                assert forall|q: Pos|
                    free(bl, q) && 0 <= #[trigger] step_dir(cell_pos(order@[head - 1] as int), q) < d + 1
                        implies seen(prev@, cell_of(q)) by {
                    if step_dir(p, q) == d as int {
                        lemma_step_injective(p, q, n);
                    }
                }
            }
            d += 1;
        }
        proof {
            lemma_close_expanded(bl, order@, prev@, head as int);
            if head < order@.len() {
                lemma_sorted_at(order@, dist, canon, head - 1, head as int);
            }
        }
    }
    proof {
        lemma_exhausted(bl, from, to, order@, prev@, dist, canon, pio);
    }
    None
}

// ------------------------------------------------------------ lemmas on cells

pub proof fn lemma_cell_roundtrip(p: Pos)
    requires
        in_board(p),
    ensures
        0 <= cell_of(p) < CELLS,
        cell_pos(cell_of(p)) == p,
        indexable(p),
{
}

pub proof fn lemma_cell_pos(c: int)
    requires
        0 <= c < CELLS,
    ensures
        in_board(cell_pos(c)),
        cell_of(cell_pos(c)) == c,
{
}

proof fn lemma_step_injective(p: Pos, q1: Pos, q2: Pos)
    requires
        step_dir(p, q1) >= 0,
        step_dir(p, q1) == step_dir(p, q2),
    ensures
        q1 == q2,
{
}

// ------------------------------------------------------------ lemmas on orders

proof fn lemma_lex_lt_asym(a: Seq<int>, b: Seq<int>)
    requires
        lex_lt(a, b),
    ensures
        !lex_lt(b, a),
{
    let i = choose|i: int|
        0 <= i < a.len() && i < b.len() && #[trigger] a[i] < #[trigger] b[i] && forall|j: int|
            0 <= j < i ==> a[j] == b[j];
    if lex_lt(b, a) {
        let k = choose|k: int|
            0 <= k < b.len() && k < a.len() && #[trigger] b[k] < #[trigger] a[k] && forall|j: int|
                0 <= j < k ==> b[j] == a[j];
        if k < i {
            assert(a[k] == b[k]);
        } else if i < k {
            assert(b[i] == a[i]);
        }
    }
}

proof fn lemma_lex_lt_trans(a: Seq<int>, b: Seq<int>, c: Seq<int>)
    requires
        lex_lt(a, b),
        lex_lt(b, c),
        a.len() == b.len(),
        b.len() == c.len(),
    ensures
        lex_lt(a, c),
{
    let i = choose|i: int|
        0 <= i < a.len() && i < b.len() && #[trigger] a[i] < #[trigger] b[i] && forall|j: int|
            0 <= j < i ==> a[j] == b[j];
    let k = choose|k: int|
        0 <= k < b.len() && k < c.len() && #[trigger] b[k] < #[trigger] c[k] && forall|j: int|
            0 <= j < k ==> b[j] == c[j];
    let m = if i < k {
        i
    } else {
        k
    };
    assert(a[m] < c[m]);
    assert(forall|j: int| 0 <= j < m ==> a[j] == c[j]);
}

proof fn lemma_lex_lt_push(a: Seq<int>, b: Seq<int>, x: int, y: int)
    requires
        lex_lt(a, b),
        a.len() == b.len(),
    ensures
        lex_lt(a.push(x), b.push(y)),
{
    let i = choose|i: int|
        0 <= i < a.len() && i < b.len() && #[trigger] a[i] < #[trigger] b[i] && forall|j: int|
            0 <= j < i ==> a[j] == b[j];
    assert(a.push(x)[i] < b.push(y)[i]);
    assert(forall|j: int| 0 <= j < i ==> a.push(x)[j] == b.push(y)[j]);
}

proof fn lemma_lex_eq_push(a: Seq<int>, x: int, y: int)
    requires
        x < y,
    ensures
        lex_lt(a.push(x), a.push(y)),
{
    let i = a.len() as int;
    assert(a.push(x)[i] < a.push(y)[i]);
    assert(forall|j: int| 0 <= j < i ==> a.push(x)[j] == a.push(y)[j]);
}

proof fn lemma_lex_le_push(a: Seq<int>, b: Seq<int>, x: int)
    requires
        lex_le(a, b),
        a.len() == b.len(),
    ensures
        lex_le(a.push(x), b.push(x)),
{
    if a != b {
        lemma_lex_lt_push(a, b, x, x);
    }
}

// ------------------------------------------------------------ lemmas on walks

proof fn lemma_moves_push(w: Seq<Pos>, q: Pos)
    requires
        w.len() >= 1,
    ensures
        moves(w.push(q)) == moves(w).push(step_dir(w[w.len() - 1], q)),
{
    assert(moves(w.push(q)) =~= moves(w).push(step_dir(w[w.len() - 1], q)));
}

proof fn lemma_walk_prefix(blocked: Seq<Pos>, w: Seq<Pos>, k: int)
    requires
        is_walk(blocked, w),
        1 <= k <= w.len(),
    ensures
        is_walk(blocked, w.take(k)),
        w.take(k).len() == k,
        w.take(k)[k - 1] == w[k - 1],
        w.take(k)[0] == w[0],
{
    assert forall|i: int| 0 <= i < k - 1 implies step_dir(#[trigger] w.take(k)[i], w.take(k)[i + 1])
        >= 0 by {
        assert(w.take(k)[i] == w[i]);
        assert(w.take(k)[i + 1] == w[i + 1]);
    }
}

proof fn lemma_walk_push(blocked: Seq<Pos>, w: Seq<Pos>, q: Pos)
    requires
        is_walk(blocked, w),
        free(blocked, q),
        step_dir(w[w.len() - 1], q) >= 0,
    ensures
        is_walk(blocked, w.push(q)),
{
    let w2 = w.push(q);
    assert forall|i: int| 0 <= i < w2.len() - 1 implies step_dir(#[trigger] w2[i], w2[i + 1])
        >= 0 by {
        if i < w.len() - 1 {
            assert(w2[i] == w[i] && w2[i + 1] == w[i + 1]);
        }
    }
    assert forall|i: int| 0 <= i < w2.len() implies free(blocked, #[trigger] w2[i]) by {
        if i < w.len() {
            assert(w2[i] == w[i]);
        }
    }
}

/// Visited marks: cell `c` has been reached.
pub open spec fn seen(prev: Seq<usize>, c: int) -> bool {
    prev[c] != usize::MAX
}

/// A walk that starts on a visited cell and ends on an unvisited one crosses
/// from visited to unvisited somewhere.
proof fn lemma_crossing(w: Seq<Pos>, prev: Seq<usize>)
    requires
        w.len() >= 1,
        seen(prev, cell_of(w[0])),
        !seen(prev, cell_of(w[w.len() - 1])),
    ensures
        exists|j: int|
            0 <= j < w.len() - 1 && seen(prev, cell_of(#[trigger] w[j])) && !seen(
                prev,
                cell_of(w[j + 1]),
            ),
    decreases w.len(),
{
    let n = w.len() as int;
    if seen(prev, cell_of(w[n - 2])) {
        assert(seen(prev, cell_of(w[n - 2])) && !seen(prev, cell_of(w[n - 2 + 1])));
    } else {
        let w2 = w.drop_last();
        lemma_crossing(w2, prev);
        let j = choose|j: int|
            0 <= j < w2.len() - 1 && seen(prev, cell_of(#[trigger] w2[j])) && !seen(
                prev,
                cell_of(w2[j + 1]),
            );
        assert(w[j] == w2[j] && w[j + 1] == w2[j + 1]);
    }
}

/// Two best routes are the same route.
proof fn lemma_best_route_unique(blocked: Seq<Pos>, from: Pos, to: Pos, w1: Seq<Pos>, w2: Seq<Pos>)
    requires
        is_best_route(blocked, from, to, w1),
        is_best_route(blocked, from, to, w2),
    ensures
        w1 == w2,
{
    assert(is_route(blocked, from, to, w2));
    assert(is_route(blocked, from, to, w1));
    assert(w1.len() == w2.len());
    if moves(w1) != moves(w2) {
        lemma_lex_lt_asym(moves(w1), moves(w2));
    }
    assert(moves(w1) == moves(w2));
    assert forall|i: int| 0 <= i < w1.len() implies w1[i] == w2[i] by {
        lemma_same_moves(w1, w2, i);
    }
    assert(w1 =~= w2);
}

proof fn lemma_same_moves(w1: Seq<Pos>, w2: Seq<Pos>, i: int)
    requires
        w1.len() == w2.len(),
        w1.len() >= 1,
        w1[0] == w2[0],
        moves(w1) == moves(w2),
        forall|k: int| 0 <= k < w1.len() - 1 ==> step_dir(#[trigger] w1[k], w1[k + 1]) >= 0,
        0 <= i < w1.len(),
    ensures
        w1[i] == w2[i],
    decreases i,
{
    if i > 0 {
        lemma_same_moves(w1, w2, i - 1);
        assert(moves(w1)[i - 1] == moves(w2)[i - 1]);
        assert(moves(w1)[i - 1] == step_dir(w1[i - 1], w1[i]));
        assert(moves(w2)[i - 1] == step_dir(w2[i - 1], w2[i]));
        lemma_step_injective(w1[i - 1], w1[i], w2[i]);
    }
}

/// A best route pins down the path function.
proof fn lemma_best_route_is_spec(blocked: Seq<Pos>, from: Pos, to: Pos, w: Seq<Pos>)
    requires
        is_best_route(blocked, from, to, w),
    ensures
        best_route(from, to, blocked) == Some(w),
{
    assert(is_route(blocked, from, to, w));
    let c = choose|w2: Seq<Pos>| is_best_route(blocked, from, to, w2);
    lemma_best_route_unique(blocked, from, to, c, w);
}

// ------------------------------------------------------------ search invariant

/// The key by which the search orders cells: distance, then moves of the
/// canonical route.
spec fn key_lt(dist: Seq<int>, canon: Seq<Seq<Pos>>, c1: int, c2: int) -> bool {
    dist[c1] < dist[c2] || (dist[c1] == dist[c2] && lex_lt(moves(canon[c1]), moves(canon[c2])))
}

/// Bookkeeping of the visit order.
#[verifier::opaque]
spec fn shape(
    from: Pos,
    order: Seq<usize>,
    prev: Seq<usize>,
    dist: Seq<int>,
    canon: Seq<Seq<Pos>>,
    pio: Seq<int>,
) -> bool {
    &&& prev.len() == CELLS
    &&& dist.len() == CELLS
    &&& canon.len() == CELLS
    &&& pio.len() == CELLS
    &&& 1 <= order.len()
    &&& order[0] == cell_of(from)
    &&& prev[cell_of(from)] == cell_of(from)
    &&& dist[cell_of(from)] == 0
    &&& forall|k: int|
        0 <= k < order.len() ==> #[trigger] order[k] < CELLS && seen(prev, order[k] as int)
            && pio[order[k] as int] == k
    &&& forall|c: int|
        0 <= c < CELLS && #[trigger] seen(prev, c) ==> 0 <= pio[c] < order.len() && order[pio[c]]
            == c
}

/// Every visited cell other than the start was reached from a cell whose
/// position in the order is below `bound` (for entries below `upto`).
#[verifier::opaque]
spec fn parents(
    order: Seq<usize>,
    prev: Seq<usize>,
    dist: Seq<int>,
    canon: Seq<Seq<Pos>>,
    pio: Seq<int>,
    bound: int,
    upto: int,
) -> bool {
    forall|k: int|
        1 <= k < upto ==> {
            let c = #[trigger] order[k] as int;
            let q = prev[c] as int;
            &&& q < CELLS
            &&& seen(prev, q)
            &&& pio[q] < bound
            &&& pio[q] < k
            &&& dist[c] == dist[q] + 1
            &&& canon[c] == canon[q].push(cell_pos(c))
        }
}

/// Each visited cell carries a canonical route of length `dist + 1`.
#[verifier::opaque]
spec fn routes(
    blocked: Seq<Pos>,
    from: Pos,
    prev: Seq<usize>,
    dist: Seq<int>,
    canon: Seq<Seq<Pos>>,
) -> bool {
    forall|c: int|
        0 <= c < CELLS && #[trigger] seen(prev, c) ==> is_route(blocked, from, cell_pos(c), canon[c])
            && canon[c].len() == dist[c] + 1
}

/// Canonical routes of visited cells are best routes.
#[verifier::opaque]
spec fn optimal(blocked: Seq<Pos>, from: Pos, prev: Seq<usize>, canon: Seq<Seq<Pos>>) -> bool {
    forall|c: int|
        0 <= c < CELLS && #[trigger] seen(prev, c) ==> is_best_route(
            blocked,
            from,
            cell_pos(c),
            canon[c],
        )
}

/// The visit order is strictly increasing in key.
#[verifier::opaque]
spec fn sorted(order: Seq<usize>, dist: Seq<int>, canon: Seq<Seq<Pos>>) -> bool {
    forall|k1: int, k2: int|
        0 <= k1 < k2 < order.len() ==> key_lt(dist, canon, #[trigger] order[k1] as int, #[trigger] order[k2] as int)
}

/// Every free neighbour of an expanded cell has been visited.
#[verifier::opaque]
spec fn closed_upto(blocked: Seq<Pos>, order: Seq<usize>, prev: Seq<usize>, upto: int) -> bool {
    forall|k: int, q: Pos|
        0 <= k < upto && free(blocked, q) && #[trigger] step_dir(cell_pos(#[trigger] order[k] as int), q) >= 0
            ==> seen(prev, cell_of(q))
}

/// Every free neighbour of the cell at `order[k]` in a direction below `d` has been visited.
spec fn expanded_below(blocked: Seq<Pos>, order: Seq<usize>, prev: Seq<usize>, k: int, d: int) -> bool {
    forall|q: Pos|
        free(blocked, q) && 0 <= #[trigger] step_dir(cell_pos(order[k] as int), q) < d ==> seen(
            prev,
            cell_of(q),
        )
}

/// Counts cells below `n` that are not yet visited.
pub open spec fn unseen_count(prev: Seq<usize>, n: int) -> int
    decreases n,
{
    if n <= 0 {
        0
    } else {
        unseen_count(prev, n - 1) + if seen(prev, n - 1) {
            0int
        } else {
            1int
        }
    }
}

proof fn lemma_unseen_count_mark(prev: Seq<usize>, c: int, v: usize, n: int)
    requires
        0 <= c < prev.len(),
        !seen(prev, c),
        v != usize::MAX,
        0 <= n <= prev.len(),
    ensures
        unseen_count(prev.update(c, v), n) == unseen_count(prev, n) - if c < n {
            1int
        } else {
            0int
        },
    decreases n,
{
    if n > 0 {
        lemma_unseen_count_mark(prev, c, v, n - 1);
    }
}

proof fn lemma_unseen_count_nonneg(prev: Seq<usize>, n: int)
    ensures
        unseen_count(prev, n) >= 0,
    decreases n,
{
    if n > 0 {
        lemma_unseen_count_nonneg(prev, n - 1);
    }
}

/// Facts about one visited cell.
proof fn lemma_seen_cell(
    blocked: Seq<Pos>,
    from: Pos,
    order: Seq<usize>,
    prev: Seq<usize>,
    dist: Seq<int>,
    canon: Seq<Seq<Pos>>,
    pio: Seq<int>,
    c: int,
)
    requires
        shape(from, order, prev, dist, canon, pio),
        routes(blocked, from, prev, dist, canon),
        optimal(blocked, from, prev, canon),
        0 <= c < CELLS,
        seen(prev, c),
    ensures
        0 <= pio[c] < order.len(),
        order[pio[c]] == c,
        is_best_route(blocked, from, cell_pos(c), canon[c]),
        is_route(blocked, from, cell_pos(c), canon[c]),
        canon[c].len() == dist[c] + 1,
        dist[c] >= 0,
        canon[c][dist[c]] == cell_pos(c),
        c == cell_of(from) <==> pio[c] == 0,
{
    reveal(shape);
    reveal(routes);
    reveal(optimal);
}

/// Facts about an entry of the order.
proof fn lemma_order_entry(
    from: Pos,
    order: Seq<usize>,
    prev: Seq<usize>,
    dist: Seq<int>,
    canon: Seq<Seq<Pos>>,
    pio: Seq<int>,
    k: int,
)
    requires
        shape(from, order, prev, dist, canon, pio),
        0 <= k < order.len(),
    ensures
        order[k] < CELLS,
        seen(prev, order[k] as int),
        pio[order[k] as int] == k,
        order[0] == cell_of(from),
        seen(prev, cell_of(from)),
        dist[cell_of(from)] == 0,
        prev.len() == CELLS,
        dist.len() == CELLS,
        canon.len() == CELLS,
        pio.len() == CELLS,
{
    reveal(shape);
}

proof fn lemma_parents_weaken(
    order: Seq<usize>,
    prev: Seq<usize>,
    dist: Seq<int>,
    canon: Seq<Seq<Pos>>,
    pio: Seq<int>,
    bound: int,
    upto: int,
    bound2: int,
    upto2: int,
)
    requires
        parents(order, prev, dist, canon, pio, bound, upto),
        bound <= bound2,
        upto2 <= upto,
    ensures
        parents(order, prev, dist, canon, pio, bound2, upto2),
{
    reveal(parents);
}

/// Facts about the parent of a visited cell other than the start.
proof fn lemma_parent(
    from: Pos,
    order: Seq<usize>,
    prev: Seq<usize>,
    dist: Seq<int>,
    canon: Seq<Seq<Pos>>,
    pio: Seq<int>,
    bound: int,
    upto: int,
    c: int,
)
    requires
        shape(from, order, prev, dist, canon, pio),
        parents(order, prev, dist, canon, pio, bound, upto),
        0 <= c < CELLS,
        seen(prev, c),
        1 <= pio[c] < upto,
    ensures
        ({
            let q = prev[c] as int;
            &&& 0 <= q < CELLS
            &&& seen(prev, q)
            &&& pio[q] < bound
            &&& pio[q] < pio[c]
            &&& dist[c] == dist[q] + 1
            &&& canon[c] == canon[q].push(cell_pos(c))
        }),
{
    reveal(shape);
    reveal(parents);
    assert(order[pio[c]] == c);
}

proof fn lemma_sorted_at(
    order: Seq<usize>,
    dist: Seq<int>,
    canon: Seq<Seq<Pos>>,
    k1: int,
    k2: int,
)
    requires
        sorted(order, dist, canon),
        0 <= k1 < k2 < order.len(),
    ensures
        key_lt(dist, canon, order[k1] as int, order[k2] as int),
        dist[order[k1] as int] <= dist[order[k2] as int],
{
    reveal(sorted);
}

proof fn lemma_closed_at(blocked: Seq<Pos>, order: Seq<usize>, prev: Seq<usize>, upto: int, k: int, q: Pos)
    requires
        closed_upto(blocked, order, prev, upto),
        0 <= k < upto,
        free(blocked, q),
        step_dir(cell_pos(order[k] as int), q) >= 0,
    ensures
        seen(prev, cell_of(q)),
{
    reveal(closed_upto);
}

/// The state right after the start cell is queued.
proof fn lemma_init(
    blocked: Seq<Pos>,
    from: Pos,
    order: Seq<usize>,
    prev: Seq<usize>,
    dist: Seq<int>,
    canon: Seq<Seq<Pos>>,
    pio: Seq<int>,
)
    requires
        free(blocked, from),
        order == seq![cell_of(from) as usize],
        prev.len() == CELLS,
        forall|c: int| 0 <= c < CELLS ==> (seen(prev, c) <==> c == cell_of(from)),
        prev[cell_of(from)] == cell_of(from),
        dist == Seq::new(CELLS as nat, |c: int| 0int),
        canon == Seq::new(CELLS as nat, |c: int| seq![from]),
        pio == Seq::new(CELLS as nat, |c: int| 0int),
    ensures
        shape(from, order, prev, dist, canon, pio),
        parents(order, prev, dist, canon, pio, 0, order.len() as int),
        routes(blocked, from, prev, dist, canon),
        optimal(blocked, from, prev, canon),
        sorted(order, dist, canon),
        closed_upto(blocked, order, prev, 0),
{
    reveal(shape);
    reveal(parents);
    reveal(routes);
    reveal(optimal);
    reveal(sorted);
    reveal(closed_upto);
    lemma_cell_roundtrip(from);
    let cf = cell_of(from);
    assert(is_route(blocked, from, from, seq![from]));
    assert forall|w2: Seq<Pos>| #[trigger] is_route(blocked, from, from, w2) implies seq![from].len()
        < w2.len() || (seq![from].len() == w2.len() && lex_le(moves(seq![from]), moves(w2))) by {
        if w2.len() == 1 {
            assert(moves(seq![from]) =~= moves(w2));
        }
    }
    assert forall|c: int| 0 <= c < CELLS && #[trigger] seen(prev, c) implies is_route(
        blocked,
        from,
        cell_pos(c),
        canon[c],
    ) && canon[c].len() == dist[c] + 1 by {
        assert(c == cf);
    }
    assert forall|c: int| 0 <= c < CELLS && #[trigger] seen(prev, c) implies is_best_route(
        blocked,
        from,
        cell_pos(c),
        canon[c],
    ) by {
        assert(c == cf);
    }
}

/// Once every direction of the cell at `order[h - 1]` is tried, it is fully expanded.
proof fn lemma_close_expanded(blocked: Seq<Pos>, order: Seq<usize>, prev: Seq<usize>, h: int)
    requires
        1 <= h,
        closed_upto(blocked, order, prev, h - 1),
        expanded_below(blocked, order, prev, h - 1, 4),
    ensures
        closed_upto(blocked, order, prev, h),
{
    reveal(closed_upto);
    assert forall|k: int, q: Pos|
        0 <= k < h && free(blocked, q) && #[trigger] step_dir(cell_pos(#[trigger] order[k] as int), q) >= 0
            implies seen(prev, cell_of(q)) by {
        if k == h - 1 {
            assert(0 <= step_dir(cell_pos(order[h - 1] as int), q) < 4);
        }
    }
}

/// Routes to an unvisited cell are long: at least two steps beyond the
/// distance of the cell being expanded.
proof fn lemma_unseen_far(
    blocked: Seq<Pos>,
    from: Pos,
    order: Seq<usize>,
    h: int,
    prev: Seq<usize>,
    dist: Seq<int>,
    canon: Seq<Seq<Pos>>,
    pio: Seq<int>,
    d: int,
    w: Seq<Pos>,
)
    requires
        in_board(from),
        1 <= h <= order.len(),
        shape(from, order, prev, dist, canon, pio),
        routes(blocked, from, prev, dist, canon),
        optimal(blocked, from, prev, canon),
        sorted(order, dist, canon),
        closed_upto(blocked, order, prev, h - 1),
        expanded_below(blocked, order, prev, h - 1, d),
        is_route(blocked, from, w[w.len() - 1], w),
        !seen(prev, cell_of(w[w.len() - 1])),
    ensures
        w.len() >= dist[order[h - 1] as int] + 2,
{
    let p = order[h - 1] as int;
    lemma_cell_roundtrip(from);
    lemma_order_entry(from, order, prev, dist, canon, pio, h - 1);
    assert(seen(prev, cell_of(w[0])));
    lemma_crossing(w, prev);
    let j = choose|j: int|
        0 <= j < w.len() - 1 && seen(prev, cell_of(#[trigger] w[j])) && !seen(prev, cell_of(w[j + 1]));
    let u = cell_of(w[j]);
    lemma_cell_roundtrip(w[j]);
    lemma_cell_roundtrip(w[j + 1]);
    lemma_seen_cell(blocked, from, order, prev, dist, canon, pio, u);
    let k = pio[u];
    if k < h - 1 {
        lemma_closed_at(blocked, order, prev, h - 1, k, w[j + 1]);
        assert(false);
    }
    lemma_walk_prefix(blocked, w, j + 1);
    assert(is_route(blocked, from, cell_pos(u), w.take(j + 1)));
    assert(canon[u].len() <= j + 1);
    if k > h - 1 {
        lemma_sorted_at(order, dist, canon, h - 1, k);
    }
    assert(dist[p] <= dist[u]);
}

/// Enqueueing neighbour `n` of the cell being expanded keeps the invariant.
proof fn lemma_enqueue(
    blocked: Seq<Pos>,
    from: Pos,
    order: Seq<usize>,
    h: int,
    len0: int,
    prev: Seq<usize>,
    dist: Seq<int>,
    canon: Seq<Seq<Pos>>,
    pio: Seq<int>,
    d: int,
    n: Pos,
)
    requires
        in_board(from),
        1 <= h <= len0 <= order.len(),
        shape(from, order, prev, dist, canon, pio),
        parents(order, prev, dist, canon, pio, h, order.len() as int),
        parents(order, prev, dist, canon, pio, h - 1, len0),
        routes(blocked, from, prev, dist, canon),
        optimal(blocked, from, prev, canon),
        sorted(order, dist, canon),
        closed_upto(blocked, order, prev, h - 1),
        expanded_below(blocked, order, prev, h - 1, d),
        dist[order[order.len() - 1] as int] <= dist[order[h - 1] as int] + 1,
        forall|k: int|
            len0 <= k < order.len() ==> prev[#[trigger] order[k] as int] == order[h - 1] && step_dir(
                cell_pos(order[h - 1] as int),
                cell_pos(order[k] as int),
            ) < d,
        free(blocked, n),
        step_dir(cell_pos(order[h - 1] as int), n) == d,
        0 <= d < 4,
        !seen(prev, cell_of(n)),
    ensures
        ({
            let c = cell_of(n);
            let p = order[h - 1];
            let order2 = order.push(c as usize);
            let prev2 = prev.update(c, p);
            let dist2 = dist.update(c, dist[p as int] + 1);
            let canon2 = canon.update(c, canon[p as int].push(n));
            let pio2 = pio.update(c, order.len() as int);
            &&& shape(from, order2, prev2, dist2, canon2, pio2)
            &&& parents(order2, prev2, dist2, canon2, pio2, h, order2.len() as int)
            &&& parents(order2, prev2, dist2, canon2, pio2, h - 1, len0)
            &&& routes(blocked, from, prev2, dist2, canon2)
            &&& optimal(blocked, from, prev2, canon2)
            &&& sorted(order2, dist2, canon2)
            &&& closed_upto(blocked, order2, prev2, h - 1)
            &&& expanded_below(blocked, order2, prev2, h - 1, d + 1)
            &&& dist2[order2[order2.len() - 1] as int] <= dist2[order2[h - 1] as int] + 1
            &&& forall|k: int|
                len0 <= k < order2.len() ==> prev2[#[trigger] order2[k] as int] == order2[h - 1]
                    && step_dir(cell_pos(order2[h - 1] as int), cell_pos(order2[k] as int)) < d + 1
            &&& c != p
        }),
{
    let c = cell_of(n);
    let p = order[h - 1] as int;
    let pp = cell_pos(p);
    let order2 = order.push(c as usize);
    let prev2 = prev.update(c, p as usize);
    let dist2 = dist.update(c, dist[p] + 1);
    let canon2 = canon.update(c, canon[p].push(n));
    let pio2 = pio.update(c, order.len() as int);
    lemma_cell_roundtrip(n);
    lemma_cell_roundtrip(from);
    lemma_order_entry(from, order, prev, dist, canon, pio, h - 1);
    lemma_cell_pos(p);
    assert(c != p);
    lemma_seen_cell(blocked, from, order, prev, dist, canon, pio, p);
    lemma_walk_push(blocked, canon[p], n);
    let cn = canon[p].push(n);
    assert(is_route(blocked, from, n, cn));
    lemma_moves_push(canon[p], n);
    // shape
    assert(shape(from, order2, prev2, dist2, canon2, pio2)) by {
        reveal(shape);
        assert forall|k: int| 0 <= k < order2.len() implies #[trigger] order2[k] < CELLS && seen(
            prev2,
            order2[k] as int,
        ) && pio2[order2[k] as int] == k by {
            if k < order.len() {
                assert(order2[k] == order[k]);
                assert(order[k] != c);
            }
        }
        assert forall|x: int| 0 <= x < CELLS && #[trigger] seen(prev2, x) implies 0 <= pio2[x]
            < order2.len() && order2[pio2[x]] == x by {
            if x != c {
                assert(seen(prev, x));
            }
        }
    }
    // parents
    assert(parents(order2, prev2, dist2, canon2, pio2, h, order2.len() as int)
        && parents(order2, prev2, dist2, canon2, pio2, h - 1, len0)) by {
        reveal(parents);
        reveal(shape);
        assert forall|k: int| 1 <= k < order2.len() implies {
            let x = #[trigger] order2[k] as int;
            let q = prev2[x] as int;
            &&& q < CELLS
            &&& seen(prev2, q)
            &&& pio2[q] < h
            &&& pio2[q] < k
            &&& dist2[x] == dist2[q] + 1
            &&& canon2[x] == canon2[q].push(cell_pos(x))
        } by {
            if k < order.len() {
                let x = order[k] as int;
                assert(order2[k] == order[k]);
                assert(x != c);
                let q = prev[x] as int;
                assert(q != c);
            } else {
                assert(order2[k] == c);
            }
        }
        assert forall|k: int| 1 <= k < len0 implies {
            let x = #[trigger] order2[k] as int;
            let q = prev2[x] as int;
            &&& q < CELLS
            &&& seen(prev2, q)
            &&& pio2[q] < h - 1
            &&& pio2[q] < k
            &&& dist2[x] == dist2[q] + 1
            &&& canon2[x] == canon2[q].push(cell_pos(x))
        } by {
            let x = order[k] as int;
            assert(order2[k] == order[k]);
            assert(x != c);
            let q = prev[x] as int;
            assert(q != c);
        }
    }
    // routes
    assert(routes(blocked, from, prev2, dist2, canon2)) by {
        reveal(routes);
        assert forall|x: int| 0 <= x < CELLS && #[trigger] seen(prev2, x) implies is_route(
            blocked,
            from,
            cell_pos(x),
            canon2[x],
        ) && canon2[x].len() == dist2[x] + 1 by {
            if x != c {
                assert(seen(prev, x));
            }
        }
    }
    // sorted
    lemma_enqueue_sorted(blocked, from, order, h, len0, prev, dist, canon, pio, d, n);
    // optimal
    assert(optimal(blocked, from, prev2, canon2)) by {
        reveal(optimal);
        assert forall|w2: Seq<Pos>| #[trigger] is_route(blocked, from, n, w2) implies cn.len()
            < w2.len() || (cn.len() == w2.len() && lex_le(moves(cn), moves(w2))) by {
            lemma_enqueue_best(blocked, from, order, h, prev, dist, canon, pio, d, n, w2);
        }
        assert forall|x: int| 0 <= x < CELLS && #[trigger] seen(prev2, x) implies is_best_route(
            blocked,
            from,
            cell_pos(x),
            canon2[x],
        ) by {
            if x != c {
                assert(seen(prev, x));
            }
        }
    }
    // closure
    assert(closed_upto(blocked, order2, prev2, h - 1)) by {
        reveal(closed_upto);
        assert forall|k: int, q: Pos|
            0 <= k < h - 1 && free(blocked, q) && #[trigger] step_dir(
                cell_pos(#[trigger] order2[k] as int),
                q,
            ) >= 0 implies seen(prev2, cell_of(q)) by {
            assert(order2[k] == order[k]);
            assert(step_dir(cell_pos(order[k] as int), q) >= 0);
        }
    }
    assert forall|q: Pos|
        free(blocked, q) && 0 <= #[trigger] step_dir(cell_pos(order2[h - 1] as int), q) < d
            + 1 implies seen(prev2, cell_of(q)) by {
        assert(order2[h - 1] == order[h - 1]);
        lemma_cell_roundtrip(q);
        if step_dir(pp, q) == d {
            lemma_step_injective(pp, q, n);
            assert(prev2[c] == p);
        } else {
            assert(0 <= step_dir(cell_pos(order[h - 1] as int), q) < d);
            assert(seen(prev, cell_of(q)));
            if cell_of(q) != c {
                assert(prev2[cell_of(q)] == prev[cell_of(q)]);
            }
        }
    }
    assert forall|k: int| len0 <= k < order2.len() implies prev2[#[trigger] order2[k] as int]
        == order2[h - 1] && step_dir(cell_pos(order2[h - 1] as int), cell_pos(order2[k] as int))
        < d + 1 by {
        assert(order2[h - 1] == order[h - 1]);
        if k < order.len() {
            assert(order2[k] == order[k]);
            lemma_order_entry(from, order, prev, dist, canon, pio, k);
            assert(order[k] != c);
        } else {
            assert(order2[k] == c);
        }
    }
}

/// The new cell comes after every queued cell.
#[verifier::rlimit(30)]
proof fn lemma_enqueue_sorted(
    blocked: Seq<Pos>,
    from: Pos,
    order: Seq<usize>,
    h: int,
    len0: int,
    prev: Seq<usize>,
    dist: Seq<int>,
    canon: Seq<Seq<Pos>>,
    pio: Seq<int>,
    d: int,
    n: Pos,
)
    requires
        in_board(from),
        1 <= h <= len0 <= order.len(),
        shape(from, order, prev, dist, canon, pio),
        parents(order, prev, dist, canon, pio, h, order.len() as int),
        parents(order, prev, dist, canon, pio, h - 1, len0),
        routes(blocked, from, prev, dist, canon),
        optimal(blocked, from, prev, canon),
        sorted(order, dist, canon),
        dist[order[order.len() - 1] as int] <= dist[order[h - 1] as int] + 1,
        forall|k: int|
            len0 <= k < order.len() ==> prev[#[trigger] order[k] as int] == order[h - 1] && step_dir(
                cell_pos(order[h - 1] as int),
                cell_pos(order[k] as int),
            ) < d,
        free(blocked, n),
        step_dir(cell_pos(order[h - 1] as int), n) == d,
        !seen(prev, cell_of(n)),
    ensures
        ({
            let c = cell_of(n);
            let p = order[h - 1];
            sorted(
                order.push(c as usize),
                dist.update(c, dist[p as int] + 1),
                canon.update(c, canon[p as int].push(n)),
            )
        }),
{
    let c = cell_of(n);
    let p = order[h - 1] as int;
    let pp = cell_pos(p);
    let order2 = order.push(c as usize);
    let dist2 = dist.update(c, dist[p] + 1);
    let canon2 = canon.update(c, canon[p].push(n));
    lemma_cell_roundtrip(n);
    lemma_order_entry(from, order, prev, dist, canon, pio, h - 1);
    lemma_seen_cell(blocked, from, order, prev, dist, canon, pio, p);
    lemma_moves_push(canon[p], n);
    assert forall|k: int| 0 <= k < order.len() implies key_lt(dist2, canon2, order[k] as int, c) by {
        let x = order[k] as int;
        lemma_order_entry(from, order, prev, dist, canon, pio, k);
        assert(x != c);
        if k < order.len() - 1 {
            lemma_sorted_at(order, dist, canon, k, order.len() - 1);
        }
        assert(dist[x] <= dist[p] + 1);
        assert(dist2[x] == dist[x]);
        assert(canon2[x] == canon[x]);
        assert(dist2[c] == dist[p] + 1);
        assert(canon2[c] == canon[p].push(n));
        if dist[x] == dist[p] + 1 {
            if k == 0 {
                reveal(shape);
                assert(false);
            }
            lemma_parent(from, order, prev, dist, canon, pio, h, order.len() as int, x);
            let q = prev[x] as int;
            assert(dist[q] == dist[p]);
            lemma_seen_cell(blocked, from, order, prev, dist, canon, pio, q);
            lemma_moves_push(canon[q], cell_pos(x));
            if k >= len0 {
                assert(q == p);
                lemma_lex_eq_push(moves(canon[p]), step_dir(pp, cell_pos(x)), d);
                assert(moves(canon[x]) == moves(canon[p]).push(step_dir(pp, cell_pos(x))));
                assert(lex_lt(moves(canon2[x]), moves(canon2[c])));
            } else {
                lemma_parent(from, order, prev, dist, canon, pio, h - 1, len0, x);
                let kq = pio[q];
                assert(order[kq] == q);
                lemma_sorted_at(order, dist, canon, kq, h - 1);
                assert(lex_lt(moves(canon[q]), moves(canon[p])));
                lemma_lex_lt_push(moves(canon[q]), moves(canon[p]), step_dir(canon[q][canon[q].len() - 1], cell_pos(x)), d);
                assert(lex_lt(moves(canon2[x]), moves(canon2[c])));
            }
        }
    }
    assert(sorted(order2, dist2, canon2)) by {
        reveal(sorted);
        assert forall|k1: int, k2: int| 0 <= k1 < k2 < order2.len() implies key_lt(
            dist2,
            canon2,
            #[trigger] order2[k1] as int,
            #[trigger] order2[k2] as int,
        ) by {
            assert(order2[k1] == order[k1]);
            lemma_order_entry(from, order, prev, dist, canon, pio, k1);
            if k2 < order.len() {
                assert(order2[k2] == order[k2]);
                lemma_order_entry(from, order, prev, dist, canon, pio, k2);
                assert(key_lt(dist, canon, order[k1] as int, order[k2] as int));
                assert(order[k1] != c && order[k2] != c);
            }
        }
    }
}

/// Any route to the new cell is no better than the canonical one.
#[verifier::rlimit(30)]
proof fn lemma_enqueue_best(
    blocked: Seq<Pos>,
    from: Pos,
    order: Seq<usize>,
    h: int,
    prev: Seq<usize>,
    dist: Seq<int>,
    canon: Seq<Seq<Pos>>,
    pio: Seq<int>,
    d: int,
    n: Pos,
    w: Seq<Pos>,
)
    requires
        in_board(from),
        1 <= h <= order.len(),
        shape(from, order, prev, dist, canon, pio),
        routes(blocked, from, prev, dist, canon),
        optimal(blocked, from, prev, canon),
        sorted(order, dist, canon),
        closed_upto(blocked, order, prev, h - 1),
        expanded_below(blocked, order, prev, h - 1, d),
        free(blocked, n),
        step_dir(cell_pos(order[h - 1] as int), n) == d,
        !seen(prev, cell_of(n)),
        is_route(blocked, from, n, w),
    ensures
        ({
            let cn = canon[order[h - 1] as int].push(n);
            cn.len() < w.len() || (cn.len() == w.len() && lex_le(moves(cn), moves(w)))
        }),
{
    let p = order[h - 1] as int;
    let pp = cell_pos(p);
    let cn = canon[p].push(n);
    lemma_order_entry(from, order, prev, dist, canon, pio, h - 1);
    lemma_seen_cell(blocked, from, order, prev, dist, canon, pio, p);
    lemma_cell_pos(p);
    lemma_cell_roundtrip(n);
    lemma_unseen_far(blocked, from, order, h, prev, dist, canon, pio, d, w);
    if w.len() == cn.len() {
        let m = w.len() - 2;
        lemma_walk_prefix(blocked, w, m + 1);
        let wp = w.take(m + 1);
        let u = w[m];
        lemma_cell_roundtrip(u);
        assert(is_route(blocked, from, u, wp));
        assert(w =~= wp.push(n));
        lemma_moves_push(wp, n);
        lemma_moves_push(canon[p], n);
        if seen(prev, cell_of(u)) {
            let cu = cell_of(u);
            lemma_seen_cell(blocked, from, order, prev, dist, canon, pio, cu);
            assert(is_route(blocked, from, cell_pos(cu), wp));
            let k = pio[cu];
            if k < h - 1 {
                lemma_closed_at(blocked, order, prev, h - 1, k, n);
                assert(false);
            }
            if k == h - 1 {
                assert(cu == p);
                assert(lex_le(moves(canon[p]), moves(wp)));
                assert(step_dir(u, n) == d);
                lemma_lex_le_push(moves(canon[p]), moves(wp), d);
            } else {
                lemma_sorted_at(order, dist, canon, h - 1, k);
                assert(canon[cu].len() <= wp.len());
                assert(dist[cu] == dist[p]);
                assert(lex_lt(moves(canon[p]), moves(canon[cu])));
                assert(lex_le(moves(canon[cu]), moves(wp)));
                lemma_lex_lt_le_trans(moves(canon[p]), moves(canon[cu]), moves(wp));
                lemma_lex_lt_push(moves(canon[p]), moves(wp), d, step_dir(u, n));
            }
        } else {
            assert(expanded_below(blocked, order, prev, h - 1, 0));
            lemma_unseen_far(blocked, from, order, h, prev, dist, canon, pio, 0, wp);
            assert(false);
        }
    }
}

proof fn lemma_lex_lt_le_trans(a: Seq<int>, b: Seq<int>, c: Seq<int>)
    requires
        lex_lt(a, b),
        lex_le(b, c),
        a.len() == b.len(),
        b.len() == c.len(),
    ensures
        lex_lt(a, c),
{
    if b != c {
        lemma_lex_lt_trans(a, b, c);
    }
}

/// When the queue is exhausted without meeting `to`, no route reaches it.
proof fn lemma_exhausted(
    blocked: Seq<Pos>,
    from: Pos,
    to: Pos,
    order: Seq<usize>,
    prev: Seq<usize>,
    dist: Seq<int>,
    canon: Seq<Seq<Pos>>,
    pio: Seq<int>,
)
    requires
        shape(from, order, prev, dist, canon, pio),
        closed_upto(blocked, order, prev, order.len() as int),
        forall|k: int| 0 <= k < order.len() ==> cell_pos(#[trigger] order[k] as int) != to,
    ensures
        forall|w: Seq<Pos>| !is_route(blocked, from, to, w),
{
    assert forall|w: Seq<Pos>| !is_route(blocked, from, to, w) by {
        if is_route(blocked, from, to, w) {
            lemma_cell_roundtrip(to);
            lemma_cell_roundtrip(from);
            reveal(shape);
            if seen(prev, cell_of(to)) {
                let k = pio[cell_of(to)];
                assert(order[k] as int == cell_of(to));
                assert(cell_pos(order[k] as int) == to);
                assert(false);
            }
            lemma_crossing(w, prev);
            let j = choose|j: int|
                0 <= j < w.len() - 1 && seen(prev, cell_of(#[trigger] w[j])) && !seen(
                    prev,
                    cell_of(w[j + 1]),
                );
            lemma_cell_roundtrip(w[j]);
            let k = pio[cell_of(w[j])];
            assert(order[k] as int == cell_of(w[j]));
            lemma_closed_at(blocked, order, prev, order.len() as int, k, w[j + 1]);
            assert(false);
        }
    }
}

} // verus!
