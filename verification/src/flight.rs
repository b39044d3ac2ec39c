//! The flight line of flyers: a Bresenham line from entry to exit that moves
//! one axis at a time.
use vstd::prelude::*;
use crate::types::{Pos, in_board};

verus! {

pub open spec fn abs(v: int) -> int {
    if v < 0 {
        -v
    } else {
        v
    }
}

/// Horizontal extent of the line.
pub open spec fn line_dx(from: Pos, to: Pos) -> int {
    abs(to.x - from.x)
}

/// Vertical extent of the line, negated (Bresenham's convention).
pub open spec fn line_dy(from: Pos, to: Pos) -> int {
    -abs(to.y - from.y)
}

pub open spec fn line_sx(from: Pos, to: Pos) -> int {
    if from.x < to.x {
        1
    } else {
        -1
    }
}

pub open spec fn line_sy(from: Pos, to: Pos) -> int {
    if from.y < to.y {
        1
    } else {
        -1
    }
}

/// Number of steps of the line.
pub open spec fn line_len(from: Pos, to: Pos) -> nat {
    (line_dx(from, to) - line_dy(from, to)) as nat
}

/// After `k` steps: horizontal steps taken, vertical steps taken, error term.
pub open spec fn line_state(from: Pos, to: Pos, k: nat) -> (int, int, int)
    decreases k,
{
    if k == 0 {
        (0, 0, line_dx(from, to) + line_dy(from, to))
    } else {
        let s = line_state(from, to, (k - 1) as nat);
        if 2 * s.2 >= line_dy(from, to) {
            (s.0 + 1, s.1, s.2 + line_dy(from, to))
        } else {
            (s.0, s.1 + 1, s.2 + line_dx(from, to))
        }
    }
}

/// The `k`-th point of the line.
pub open spec fn line_point(from: Pos, to: Pos, k: nat) -> Pos {
    let s = line_state(from, to, k);
    Pos {
        x: (from.x + line_sx(from, to) * s.0) as i32,
        y: (from.y + line_sy(from, to) * s.1) as i32,
    }
}

/// The flight line: every point from `from` to `to`.
pub open spec fn flight_path(from: Pos, to: Pos) -> Seq<Pos> {
    Seq::new(line_len(from, to) + 1, |k: int| line_point(from, to, k as nat))
}

/// Whether every intermediate value of the line fits in `i32`.
pub open spec fn line_fits(from: Pos, to: Pos) -> bool {
    &&& i32::MIN < to.x - from.x <= i32::MAX
    &&& i32::MIN < to.y - from.y <= i32::MAX
    &&& i32::MIN <= line_dx(from, to) + line_dy(from, to) <= i32::MAX
    &&& forall|k: nat|
        k < line_len(from, to) ==> i32::MIN <= 2 * (#[trigger] line_state(from, to, k)).2
            <= i32::MAX && i32::MIN <= line_state(from, to, k + 1).2 <= i32::MAX
}

/// The line never overshoots: after `k` steps it has taken at most the
/// horizontal and vertical extents, and the error term has its closed form.
proof fn lemma_line_state(from: Pos, to: Pos, k: nat)
    requires
        k <= line_len(from, to),
    ensures
        ({
            let s = line_state(from, to, k);
            let dx = line_dx(from, to);
            let ey = -line_dy(from, to);
            &&& s.0 + s.1 == k
            &&& 0 <= s.0 <= dx
            &&& 0 <= s.1 <= ey
            &&& s.2 == dx * (1 + s.1) - ey * (1 + s.0)
        }),
    decreases k,
{
    if k > 0 {
        lemma_line_state(from, to, (k - 1) as nat);
        let s = line_state(from, to, (k - 1) as nat);
        let dx = line_dx(from, to);
        let ey = -line_dy(from, to);
        let x = s.0;
        let y = s.1;
        let e = s.2;
        if 2 * e >= -ey {
            if x == dx {
                assert(false) by (nonlinear_arith)
                    requires
                        y < ey,
                        0 <= y,
                        x == dx,
                        dx >= 0,
                        e == dx * (1 + y) - ey * (1 + x),
                        2 * e >= -ey,
                ;
            }
            assert(e - ey == dx * (1 + y) - ey * (1 + (x + 1))) by (nonlinear_arith)
                requires
                    e == dx * (1 + y) - ey * (1 + x),
            ;
        } else {
            if y == ey {
                assert(false) by (nonlinear_arith)
                    requires
                        x < dx,
                        0 <= x,
                        y == ey,
                        ey >= 0,
                        e == dx * (1 + y) - ey * (1 + x),
                        2 * e < -ey,
                ;
            }
            assert(e + dx == dx * (1 + (y + 1)) - ey * (1 + x)) by (nonlinear_arith)
                requires
                    e == dx * (1 + y) - ey * (1 + x),
            ;
        }
    }
}

/// The line reaches `to` exactly at its last step.
proof fn lemma_line_point(from: Pos, to: Pos, k: nat)
    requires
        k <= line_len(from, to),
        line_fits(from, to),
    ensures
        (line_point(from, to, k) == to) <==> k == line_len(from, to),
        ({
            let s = line_state(from, to, k);
            &&& i32::MIN <= from.x + line_sx(from, to) * s.0 <= i32::MAX
            &&& i32::MIN <= from.y + line_sy(from, to) * s.1 <= i32::MAX
        }),
{
    lemma_line_state(from, to, k);
}

/// Between two board cells the line is well defined and stays on the board.
pub proof fn lemma_board_line(from: Pos, to: Pos)
    requires
        in_board(from),
        in_board(to),
    ensures
        line_fits(from, to),
        forall|k: int| 0 <= k < flight_path(from, to).len() ==> in_board(#[trigger] flight_path(from, to)[k]),
        flight_path(from, to).len() >= 1,
        flight_path(from, to)[0] == from,
{
    assert forall|k: nat| k < line_len(from, to) implies i32::MIN <= 2 * (#[trigger] line_state(from, to, k)).2
        <= i32::MAX && i32::MIN <= line_state(from, to, k + 1).2 <= i32::MAX by {
        lemma_line_state(from, to, k);
        lemma_line_state(from, to, k + 1);
        let dx = line_dx(from, to);
        let ey = -line_dy(from, to);
        let s = line_state(from, to, k);
        let s1 = line_state(from, to, k + 1);
        assert(-200 <= s.2 <= 200) by (nonlinear_arith)
            requires
                0 <= dx <= 9,
                0 <= ey <= 9,
                0 <= s.0 <= dx,
                0 <= s.1 <= ey,
                s.2 == dx * (1 + s.1) - ey * (1 + s.0),
        ;
        assert(-200 <= s1.2 <= 200) by (nonlinear_arith)
            requires
                0 <= dx <= 9,
                0 <= ey <= 9,
                0 <= s1.0 <= dx,
                0 <= s1.1 <= ey,
                s1.2 == dx * (1 + s1.1) - ey * (1 + s1.0),
        ;
    }
    assert forall|k: int| 0 <= k < flight_path(from, to).len() implies in_board(#[trigger] flight_path(from, to)[k]) by {
        lemma_line_state(from, to, k as nat);
        let s = line_state(from, to, k as nat);
        if from.x < to.x {
            assert(line_sx(from, to) * s.0 == s.0);
        } else {
            assert(line_sx(from, to) * s.0 == -s.0);
        }
        if from.y < to.y {
            assert(line_sy(from, to) * s.1 == s.1);
        } else {
            assert(line_sy(from, to) * s.1 == -s.1);
        }
    }
    assert(line_state(from, to, 0).0 == 0 && line_state(from, to, 0).1 == 0);
    assert(line_sx(from, to) * 0 == 0 && line_sy(from, to) * 0 == 0);
}

fn int_abs(v: i32) -> (r: i32)
    requires
        v > i32::MIN,
    ensures
        r == abs(v as int),
{
    if v < 0 {
        -v
    } else {
        v
    }
}

/// The path of flyers: a straight (Bresenham) line from `from` to `to`.
pub fn straight_line(from: Pos, to: Pos) -> (path: Vec<Pos>)
    requires
        line_fits(from, to),
    ensures
        path@ == flight_path(from, to),
{
    let dx = int_abs(to.x - from.x);
    let dy = -int_abs(to.y - from.y);
    let sx: i32 = if from.x < to.x {
        1
    } else {
        -1
    };
    let sy: i32 = if from.y < to.y {
        1
    } else {
        -1
    };
    let mut err = dx + dy;
    let mut cur = from;
    let mut path: Vec<Pos> = Vec::new();
    path.push(cur);
    let ghost mut k: nat = 0;
    proof {
        lemma_line_point(from, to, 0);
        assert(line_state(from, to, 0).0 == 0 && line_state(from, to, 0).1 == 0);
        assert(line_sx(from, to) * 0 == 0 && line_sy(from, to) * 0 == 0);
        assert(line_point(from, to, 0) == from);
        assert(path@ =~= Seq::new(k + 1, |i: int| line_point(from, to, i as nat)));
    }
    while cur != to
        invariant
            line_fits(from, to),
            dx == line_dx(from, to),
            dy == line_dy(from, to),
            sx == line_sx(from, to),
            sy == line_sy(from, to),
            k <= line_len(from, to),
            cur == line_point(from, to, k),
            err == line_state(from, to, k).2,
            path@ == Seq::new(k + 1, |i: int| line_point(from, to, i as nat)),
        decreases line_len(from, to) - k,
    {
        proof {
            lemma_line_point(from, to, k);
            lemma_line_point(from, to, k + 1);
            lemma_line_state(from, to, k);
            lemma_line_state(from, to, k + 1);
            assert(k < line_len(from, to));
        }
        let e2 = 2 * err;
        if e2 >= dy {
            err = err + dy;
            cur.x = cur.x + sx;
        } else {
            err = err + dx;
            cur.y = cur.y + sy;
        }
        path.push(cur);
        proof {
            k = k + 1;
            assert(path@ =~= Seq::new(k + 1, |i: int| line_point(from, to, i as nat)));
        }
    }
    proof {
        lemma_line_point(from, to, k);
    }
    path
}


/// Between two board cells the flight line has at most 19 cells.
pub proof fn lemma_line_short(from: Pos, to: Pos)
    requires
        in_board(from),
        in_board(to),
    ensures
        flight_path(from, to).len() <= 19,
{
}

} // verus!
