//! Turn resolution: the order of play, painting with collisions, the
//! activation pass, discards and draws.
use vstd::prelude::*;
use std::collections::HashMap;
use crate::action::{action_card_id, Action, CardId};
use crate::game::{catalog_wf, Card, Environment, PlayerState, State};
use crate::rules::{
    get_cursor, has_neighbor, has_neighbor_exec, in_field, is_neighbor, lemma_ref_point_unique,
    ref_point, rotated, rotated_by, square_test, vec_contains, SquareTest,
};
use crate::shape::{
    has_filled, pos_count, row_pos_count, CardShape, CardSquareType, FieldSquareType, PlayerId,
};

verus! {

/// The positions listed, as a predicate.
pub open spec fn listed(list: Seq<(usize, usize)>) -> spec_fn(int, int) -> bool {
    |c: int, d: int| exists|k: int| 0 <= k < list.len() && list[k].0 == c && list[k].1 == d
}

/// `(c, d)` is a neighbour of `(a, b)` that was painted.
pub open spec fn painted_near(painted: spec_fn(int, int) -> bool, a: int, b: int, c: int, d: int) -> bool {
    is_neighbor(a, b, c, d) && painted(c, d)
}

/// An un-activated Special square.
pub open spec fn is_dormant_special(s: FieldSquareType) -> bool {
    match s {
        FieldSquareType::Special { activeted, .. } => !activeted,
        _ => false,
    }
}

pub open spec fn square_owner(s: FieldSquareType) -> int {
    match s {
        FieldSquareType::Colored { player_id } => player_id as int,
        FieldSquareType::Special { player_id, .. } => player_id as int,
        _ => -1,
    }
}

/// The square activates: it is an un-activated Special square next to a painted
/// square, and no square around it is Empty.
pub open spec fn should_activate(field: Seq<Seq<FieldSquareType>>, painted: spec_fn(int, int) -> bool, a: int, b: int) -> bool {
    &&& in_field(field, a, b)
    &&& is_dormant_special(field[a][b])
    &&& !has_neighbor(field, a, b, square_test(SquareTest::Empty))
    &&& exists|c: int, d: int| #[trigger] painted_near(painted, a, b, c, d)
}

pub open spec fn activated(s: FieldSquareType) -> FieldSquareType {
    match s {
        FieldSquareType::Special { player_id, .. } => FieldSquareType::Special { player_id, activeted: true },
        _ => s,
    }
}

/// The field after the activation pass.
pub open spec fn activated_field(field: Seq<Seq<FieldSquareType>>, painted: spec_fn(int, int) -> bool) -> Seq<Seq<FieldSquareType>> {
    Seq::new(field.len(), |a: int| Seq::new(field[a].len(), |b: int|
        if should_activate(field, painted, a, b) { activated(field[a][b]) } else { field[a][b] }))
}

/// The number of squares of the player that the activation pass activates.
pub open spec fn activation_gain(field: Seq<Seq<FieldSquareType>>, painted: spec_fn(int, int) -> bool, player_id: int) -> nat {
    pos_count(field.len() as int, if field.len() > 0 { field[0].len() as int } else { 0 },
        |a: int, b: int| should_activate(field, painted, a, b) && square_owner(field[a][b]) == player_id)
}

fn near_listed(list: &[(usize, usize)], a: usize, b: usize) -> (r: bool)
    requires
        a < usize::MAX,
        b < usize::MAX,
    ensures
        r == exists|c: int, d: int| #[trigger] painted_near(listed(list@), a as int, b as int, c, d),
{
    let mut k: usize = 0;
    while k < list.len()
        invariant
            a < usize::MAX,
            b < usize::MAX,
            k <= list@.len(),
            forall|q: int| 0 <= q < k ==> !is_neighbor(a as int, b as int, (#[trigger] list@[q]).0 as int, list@[q].1 as int),
        decreases list@.len() - k,
    {
        let (c, d) = list[k];
        if (c != a || d != b) && (a == 0 || c >= a - 1) && c <= a + 1 && (b == 0 || d >= b - 1) && d <= b + 1 {
            assert((listed(list@))(c as int, d as int));
            assert(painted_near(listed(list@), a as int, b as int, c as int, d as int));
            return true;
        }
        k = k + 1;
    }
    proof {
        assert forall|c: int, d: int| !#[trigger] painted_near(listed(list@), a as int, b as int, c, d) by {
            if painted_near(listed(list@), a as int, b as int, c, d) {
                let q = choose|q: int| 0 <= q < list@.len() && list@[q].0 == c && list@[q].1 == d;
                assert(!is_neighbor(a as int, b as int, list@[q].0 as int, list@[q].1 as int));
            }
        }
    }
    false
}

/// No player holds so many special points that activation or a pass could overflow.
pub open spec fn points_headroom(players: Seq<PlayerState>, field: Seq<Seq<FieldSquareType>>) -> bool {
    forall|p: int| 0 <= p < players.len() ==>
        (#[trigger] players[p]).special_point + 1 + field.len() * (if field.len() > 0 { field[0].len() } else { 0 }) <= usize::MAX
}

impl State {
    /// The activation pass after the squares in `putted_this_turn_squares` were
    /// painted: each un-activated Special square next to a painted square with
    /// no Empty square around it activates, and its owner gains one special
    /// point. Returns the number of activations of each player.
    pub fn activates(&mut self, putted_this_turn_squares: &[(usize, usize)]) -> (r: Vec<usize>)
        requires
            old(self).wf(),
            forall|p: int| 0 <= p < old(self).players@.len() ==>
                (#[trigger] old(self).players@[p]).special_point + old(self).field.height * old(self).field.width <= usize::MAX,
        ensures
            final(self).wf(),
            final(self).turn == old(self).turn,
            final(self).field.height == old(self).field.height,
            final(self).field.width == old(self).field.width,
            final(self).field@ == activated_field(old(self).field@, listed(putted_this_turn_squares@)),
            final(self).players@.len() == old(self).players@.len(),
            r@.len() == old(self).players@.len(),
            forall|p: int| 0 <= p < r@.len() ==> {
                &&& #[trigger] r@[p] == activation_gain(old(self).field@, listed(putted_this_turn_squares@), p)
                &&& final(self).players@[p].special_point == old(self).players@[p].special_point + r@[p]
                &&& final(self).players@[p].hands@ == old(self).players@[p].hands@
                &&& final(self).players@[p].deck@ == old(self).players@[p].deck@
            },
    {
        let ghost f0 = self.field@;
        let ghost painted = listed(putted_this_turn_squares@);
        let h = self.field.height;
        let w = self.field.width;
        let n = self.players.len();
        let mut counts: Vec<usize> = Vec::new();
        while counts.len() < n
            invariant
                counts@.len() <= n,
                forall|p: int| 0 <= p < counts@.len() ==> counts@[p] == 0,
            decreases n - counts@.len(),
        {
            counts.push(0);
        }
        // Decide every activation on the field as painted, then flip the flags.
        let mut flags: Vec<Vec<bool>> = Vec::new();
        let mut a: usize = 0;
        while a < h
            invariant
                self.wf(),
                self.field@ == f0,
                painted == listed(putted_this_turn_squares@),
                h == self.field.height,
                w == self.field.width,
                n == self.players@.len(),
                a <= h,
                counts@.len() == n,
                flags@.len() == a,
                forall|i: int| 0 <= i < a ==> (#[trigger] flags@[i])@.len() == w,
                forall|i: int, j: int| 0 <= i < a && 0 <= j < w ==>
                    (#[trigger] flags@[i]@[j]) == should_activate(f0, painted, i, j),
                forall|p: int| 0 <= p < n ==> #[trigger] counts@[p] == pos_count(a as int, w as int,
                    |i: int, j: int| should_activate(f0, painted, i, j) && square_owner(f0[i][j]) == p),
                forall|p: int| 0 <= p < n ==> #[trigger] counts@[p] <= a * w,
            decreases h - a,
        {
            let mut row: Vec<bool> = Vec::new();
            let mut b: usize = 0;
            let ghost counts_a = counts@;
            while b < w
                invariant
                    self.wf(),
                    self.field@ == f0,
                    painted == listed(putted_this_turn_squares@),
                    h == self.field.height,
                    w == self.field.width,
                    n == self.players@.len(),
                    a < h,
                    b <= w,
                    counts@.len() == n,
                    row@.len() == b,
                    forall|j: int| 0 <= j < b ==> (#[trigger] row@[j]) == should_activate(f0, painted, a as int, j),
                    forall|p: int| 0 <= p < n ==> #[trigger] counts@[p] == counts_a[p] + row_pos_count(a as int, b as int,
                        |i: int, j: int| should_activate(f0, painted, i, j) && square_owner(f0[i][j]) == p),
                    forall|p: int| 0 <= p < n ==> #[trigger] counts_a[p] <= a * w,
                    forall|p: int| 0 <= p < n ==> #[trigger] counts@[p] <= a * w + b,
                decreases w - b,
            {
                assert(f0[a as int][b as int] == self.field.squares@[a as int]@[b as int]);
                let sq = self.field.squares[a][b];
                let go = match sq {
                    FieldSquareType::Special { activeted: false, .. } => {
                        !has_neighbor_exec(&self.field, a, b, SquareTest::Empty)
                            && near_listed(putted_this_turn_squares, a, b)
                    },
                    _ => false,
                };
                assert(go == should_activate(f0, painted, a as int, b as int));
                if go {
                    if let FieldSquareType::Special { player_id, .. } = sq {
                        if player_id < n {
                            proof {
                                assert(a * w + b + 1 <= h * w) by (nonlinear_arith)
                                    requires a < h, b < w;
                            }
                            let c = counts[player_id] + 1;
                            counts.set(player_id, c);
                        }
                    }
                }
                row.push(go);
                b = b + 1;
            }
            flags.push(row);
            proof {
                assert(a * w + w == (a + 1) * w) by (nonlinear_arith);
            }
            a = a + 1;
        }
        let ghost players0 = self.players@;
        let ghost turn0 = self.turn;
        let mut a: usize = 0;
        while a < h
            invariant
                self.wf(),
                h == self.field.height,
                w == self.field.width,
                a <= h,
                flags@.len() == h,
                forall|i: int| 0 <= i < h ==> (#[trigger] flags@[i])@.len() == w,
                forall|i: int, j: int| 0 <= i < h && 0 <= j < w ==>
                    (#[trigger] flags@[i]@[j]) == should_activate(f0, painted, i, j),
                f0.len() == h,
                forall|i: int| 0 <= i < h ==> (#[trigger] f0[i]).len() == w,
                forall|i: int, j: int| 0 <= i < h && 0 <= j < w ==> #[trigger] self.field@[i][j] ==
                    if i < a && flags@[i]@[j] { activated(f0[i][j]) } else { f0[i][j] },
                self.players@ == players0,
                self.turn == turn0,
            decreases h - a,
        {
            let mut b: usize = 0;
            while b < w
                invariant
                    self.wf(),
                    h == self.field.height,
                    w == self.field.width,
                    a < h,
                    b <= w,
                    flags@.len() == h,
                    forall|i: int| 0 <= i < h ==> (#[trigger] flags@[i])@.len() == w,
                    f0.len() == h,
                    forall|i: int| 0 <= i < h ==> (#[trigger] f0[i]).len() == w,
                    forall|i: int, j: int| 0 <= i < h && 0 <= j < w ==> #[trigger] self.field@[i][j] ==
                        if i < a || (i == a && j < b) { if flags@[i]@[j] { activated(f0[i][j]) } else { f0[i][j] } } else { f0[i][j] },
                    self.players@ == players0,
                    self.turn == turn0,
                decreases w - b,
            {
                if flags[a][b] {
                    assert(self.field@[a as int][b as int] == self.field.squares@[a as int]@[b as int]);
                    let v = match self.field.squares[a][b] {
                        FieldSquareType::Special { player_id, .. } => FieldSquareType::Special { player_id, activeted: true },
                        other => other,
                    };
                    self.field.set_square(a, b, v);
                }
                b = b + 1;
            }
            a = a + 1;
        }
        assert(self.field@ =~~= activated_field(f0, painted)) by {
            assert(self.field@.len() == h);
            assert forall|i: int| 0 <= i < h implies #[trigger] self.field@[i] =~= activated_field(f0, painted)[i] by {
                assert(self.field@[i].len() == w);
            }
        }
        let mut p: usize = 0;
        while p < n
            invariant
                self.wf(),
                h == self.field.height,
                w == self.field.width,
                n == self.players@.len(),
                n == players0.len(),
                counts@.len() == n,
                p <= n,
                self.field@ == activated_field(f0, painted),
                self.turn == turn0,
                forall|q: int| 0 <= q < n ==> #[trigger] players0[q].special_point + h * w <= usize::MAX,
                forall|q: int| 0 <= q < n ==> #[trigger] counts@[q] <= h * w,
                forall|q: int| 0 <= q < n ==> {
                    &&& (#[trigger] self.players@[q]).special_point == players0[q].special_point + if q < p { counts@[q] as int } else { 0 }
                    &&& self.players@[q].hands@ == players0[q].hands@
                    &&& self.players@[q].deck@ == players0[q].deck@
                },
            decreases n - p,
        {
            let add = counts[p];
            self.players[p].special_point = self.players[p].special_point + add;
            p = p + 1;
        }
        proof {
            assert forall|q: int| 0 <= q < n implies #[trigger] counts@[q] == activation_gain(f0, painted, q) by {
                assert(f0[0].len() == w);
            }
        }
        counts
    }
}


/// Per-turn record of the power that last painted each field square; `None`
/// where nothing was painted this turn.
pub type Marks = Seq<Seq<Option<usize>>>;

/// The field and the marks of this turn.
pub type Board = (Seq<Seq<FieldSquareType>>, Marks);

/// One card square of an action of player `pid` with power `power` painted on
/// a field square `cur` whose mark this turn is `mark`: the new square and mark.
pub open spec fn paint(cur: FieldSquareType, mark: Option<usize>, cell: CardSquareType, pid: usize, power: usize) -> (FieldSquareType, Option<usize>) {
    match cell {
        CardSquareType::Colored => match cur {
            FieldSquareType::Empty => (FieldSquareType::Colored { player_id: pid }, Some(power)),
            FieldSquareType::Colored { .. } => match mark {
                Some(q) => if q == power {
                    (FieldSquareType::Block, mark)
                } else if power > q {
                    (FieldSquareType::Colored { player_id: pid }, Some(power))
                } else {
                    (cur, mark)
                },
                None => (FieldSquareType::Colored { player_id: pid }, Some(power)),
            },
            _ => (cur, mark),
        },
        CardSquareType::Special => match cur {
            FieldSquareType::Empty | FieldSquareType::Colored { .. } =>
                (FieldSquareType::Special { player_id: pid, activeted: false }, Some(power)),
            FieldSquareType::Special { .. } => match mark {
                Some(q) => if q == power {
                    (FieldSquareType::Block, mark)
                } else if power > q {
                    (FieldSquareType::Special { player_id: pid, activeted: false }, Some(power))
                } else {
                    (cur, mark)
                },
                None => (cur, mark),
            },
            FieldSquareType::Block => (cur, mark),
        },
        CardSquareType::Empty => (cur, mark),
    }
}

fn paint_exec(cur: FieldSquareType, mark: Option<usize>, cell: CardSquareType, pid: usize, power: usize) -> (r: (FieldSquareType, Option<usize>))
    ensures
        r == paint(cur, mark, cell, pid, power),
{
    match cell {
        CardSquareType::Colored => match cur {
            FieldSquareType::Empty => (FieldSquareType::Colored { player_id: pid }, Some(power)),
            FieldSquareType::Colored { .. } => match mark {
                Some(q) => if q == power {
                    (FieldSquareType::Block, mark)
                } else if power > q {
                    (FieldSquareType::Colored { player_id: pid }, Some(power))
                } else {
                    (cur, mark)
                },
                None => (FieldSquareType::Colored { player_id: pid }, Some(power)),
            },
            _ => (cur, mark),
        },
        CardSquareType::Special => match cur {
            FieldSquareType::Empty | FieldSquareType::Colored { .. } =>
                (FieldSquareType::Special { player_id: pid, activeted: false }, Some(power)),
            FieldSquareType::Special { .. } => match mark {
                Some(q) => if q == power {
                    (FieldSquareType::Block, mark)
                } else if power > q {
                    (FieldSquareType::Special { player_id: pid, activeted: false }, Some(power))
                } else {
                    (cur, mark)
                },
                None => (cur, mark),
            },
            FieldSquareType::Block => (cur, mark),
        },
        CardSquareType::Empty => (cur, mark),
    }
}

/// The marks cover the field square for square.
pub open spec fn marks_fit(bd: Board) -> bool {
    &&& bd.1.len() == bd.0.len()
    &&& forall|a: int| 0 <= a < bd.0.len() ==> (#[trigger] bd.1[a]).len() == bd.0[a].len()
}

/// Paints one card square on field square `(a, b)`; squares off the field are not painted.
pub open spec fn paint_at(bd: Board, cell: CardSquareType, a: int, b: int, pid: usize, power: usize) -> Board {
    if cell == CardSquareType::Empty || !in_field(bd.0, a, b) {
        bd
    } else {
        let (v, m) = paint(bd.0[a][b], bd.1[a][b], cell, pid, power);
        (bd.0.update(a, bd.0[a].update(b, v)), bd.1.update(a, bd.1[a].update(b, m)))
    }
}

/// Paints the first `jn` squares of row `i` of `g`, reference point `(ry, rx)` on `(y, x)`.
pub open spec fn paint_row(bd: Board, g: Seq<Seq<CardSquareType>>, i: int, jn: int, ry: int, rx: int, y: int, x: int, pid: usize, power: usize) -> Board
    decreases jn,
{
    if jn <= 0 {
        bd
    } else {
        paint_at(paint_row(bd, g, i, jn - 1, ry, rx, y, x, pid, power), g[i][jn - 1], y + i - ry, x + (jn - 1) - rx, pid, power)
    }
}

/// Paints the first `n` rows of `g`, in row-major order.
pub open spec fn paint_rows(bd: Board, g: Seq<Seq<CardSquareType>>, n: int, ry: int, rx: int, y: int, x: int, pid: usize, power: usize) -> Board
    decreases n,
{
    if n <= 0 {
        bd
    } else {
        paint_row(paint_rows(bd, g, n - 1, ry, rx, y, x, pid, power), g, n - 1, g[n - 1].len() as int, ry, rx, y, x, pid, power)
    }
}

/// Paints a whole shape.
pub open spec fn paint_shape(bd: Board, g: Seq<Seq<CardSquareType>>, y: int, x: int, pid: usize, power: usize) -> Board {
    let (ry, rx) = ref_point(g);
    paint_rows(bd, g, g.len() as int, ry, rx, y, x, pid, power)
}

proof fn lemma_paint_at_fits(bd: Board, cell: CardSquareType, a: int, b: int, pid: usize, power: usize)
    requires
        marks_fit(bd),
    ensures
        marks_fit(paint_at(bd, cell, a, b, pid, power)),
        paint_at(bd, cell, a, b, pid, power).0.len() == bd.0.len(),
        forall|i: int| 0 <= i < bd.0.len() ==> (#[trigger] paint_at(bd, cell, a, b, pid, power).0[i]).len() == bd.0[i].len(),
{
    let r = paint_at(bd, cell, a, b, pid, power);
    assert forall|i: int| 0 <= i < r.0.len() implies (#[trigger] r.1[i]).len() == r.0[i].len() by {
        assert(bd.1[i].len() == bd.0[i].len());
    }
}

/// The square and mark of the board at `(a, b)`.
pub open spec fn square_at(bd: Board, a: int, b: int) -> (FieldSquareType, Option<usize>) {
    (bd.0[a][b], bd.1[a][b])
}

/// The shapes of the two boards are the same.
pub open spec fn same_dims(x: Board, y: Board) -> bool {
    &&& x.0.len() == y.0.len()
    &&& forall|i: int| 0 <= i < x.0.len() ==> (#[trigger] x.0[i]).len() == y.0[i].len()
}

proof fn lemma_paint_at_square(bd: Board, cell: CardSquareType, c: int, d: int, pid: usize, power: usize, a: int, b: int)
    requires
        marks_fit(bd),
        in_field(bd.0, a, b),
    ensures
        marks_fit(paint_at(bd, cell, c, d, pid, power)),
        same_dims(paint_at(bd, cell, c, d, pid, power), bd),
        square_at(paint_at(bd, cell, c, d, pid, power), a, b) == if c == a && d == b && cell != CardSquareType::Empty {
            paint(bd.0[a][b], bd.1[a][b], cell, pid, power)
        } else {
            square_at(bd, a, b)
        },
{
    lemma_paint_at_fits(bd, cell, c, d, pid, power);
    assert(bd.1[a].len() == bd.0[a].len());
    if in_field(bd.0, c, d) {
        assert(bd.1[c].len() == bd.0[c].len());
    }
}

proof fn lemma_paint_row_square(bd: Board, g: Seq<Seq<CardSquareType>>, i: int, jn: int, ry: int, rx: int, y: int, x: int, pid: usize, power: usize, a: int, b: int)
    requires
        marks_fit(bd),
        in_field(bd.0, a, b),
        0 <= i < g.len(),
        0 <= jn <= g[i].len(),
    ensures
        marks_fit(paint_row(bd, g, i, jn, ry, rx, y, x, pid, power)),
        same_dims(paint_row(bd, g, i, jn, ry, rx, y, x, pid, power), bd),
        ({
            let j = b - x + rx;
            square_at(paint_row(bd, g, i, jn, ry, rx, y, x, pid, power), a, b) ==
                if a == y + i - ry && 0 <= j < jn && g[i][j] != CardSquareType::Empty {
                    paint(bd.0[a][b], bd.1[a][b], g[i][j], pid, power)
                } else {
                    square_at(bd, a, b)
                }
        }),
    decreases jn,
{
    if jn > 0 {
        lemma_paint_row_square(bd, g, i, jn - 1, ry, rx, y, x, pid, power, a, b);
        let prev = paint_row(bd, g, i, jn - 1, ry, rx, y, x, pid, power);
        assert(in_field(prev.0, a, b));
        lemma_paint_at_square(prev, g[i][jn - 1], y + i - ry, x + (jn - 1) - rx, pid, power, a, b);
    }
}

proof fn lemma_paint_rows_square(bd: Board, g: Seq<Seq<CardSquareType>>, n: int, ry: int, rx: int, y: int, x: int, pid: usize, power: usize, a: int, b: int)
    requires
        marks_fit(bd),
        in_field(bd.0, a, b),
        0 <= n <= g.len(),
    ensures
        marks_fit(paint_rows(bd, g, n, ry, rx, y, x, pid, power)),
        same_dims(paint_rows(bd, g, n, ry, rx, y, x, pid, power), bd),
        ({
            let i = a - y + ry;
            let j = b - x + rx;
            square_at(paint_rows(bd, g, n, ry, rx, y, x, pid, power), a, b) ==
                if 0 <= i < n && 0 <= j < g[i].len() && g[i][j] != CardSquareType::Empty {
                    paint(bd.0[a][b], bd.1[a][b], g[i][j], pid, power)
                } else {
                    square_at(bd, a, b)
                }
        }),
    decreases n,
{
    if n > 0 {
        lemma_paint_rows_square(bd, g, n - 1, ry, rx, y, x, pid, power, a, b);
        let prev = paint_rows(bd, g, n - 1, ry, rx, y, x, pid, power);
        assert(in_field(prev.0, a, b));
        lemma_paint_row_square(prev, g, n - 1, g[n - 1].len() as int, ry, rx, y, x, pid, power, a, b);
    }
}

/// Painting a whole shape changes the field square `(a, b)` only through the
/// one card square that lands on it, if that square is filled.
pub proof fn lemma_paint_shape_square(bd: Board, g: Seq<Seq<CardSquareType>>, y: int, x: int, pid: usize, power: usize, a: int, b: int)
    requires
        marks_fit(bd),
        in_field(bd.0, a, b),
    ensures
        marks_fit(paint_shape(bd, g, y, x, pid, power)),
        same_dims(paint_shape(bd, g, y, x, pid, power), bd),
        ({
            let (ry, rx) = ref_point(g);
            let i = a - y + ry;
            let j = b - x + rx;
            square_at(paint_shape(bd, g, y, x, pid, power), a, b) ==
                if 0 <= i < g.len() && 0 <= j < g[i].len() && g[i][j] != CardSquareType::Empty {
                    paint(bd.0[a][b], bd.1[a][b], g[i][j], pid, power)
                } else {
                    square_at(bd, a, b)
                }
        }),
{
    let (ry, rx) = ref_point(g);
    lemma_paint_rows_square(bd, g, g.len() as int, ry, rx, y, x, pid, power, a, b);
}

impl State {
    /// Paints the shape `g` for player `pid` with power `power`, its reference
    /// point on `(y, x)`.
    fn paint_card(&mut self, marks: &mut Vec<Vec<Option<usize>>>, g: &CardShape, y: usize, x: usize, pid: usize, power: usize)
        requires
            old(self).wf(),
            g.wf(),
            has_filled(g@),
            marks_fit((old(self).field@, old(marks)@.map_values(|r: Vec<Option<usize>>| r@))),
        ensures
            final(self).wf(),
            final(self).field.height == old(self).field.height,
            final(self).field.width == old(self).field.width,
            final(self).turn == old(self).turn,
            final(self).players == old(self).players,
            marks_fit((final(self).field@, final(marks)@.map_values(|r: Vec<Option<usize>>| r@))),
            (final(self).field@, final(marks)@.map_values(|r: Vec<Option<usize>>| r@)) == paint_shape(
                (old(self).field@, old(marks)@.map_values(|r: Vec<Option<usize>>| r@)), g@, y as int, x as int, pid, power),
    {
        let (ry, rx) = g.find_reference_point(0);
        proof { lemma_ref_point_unique(g@, ry as int, rx as int); }
        let ghost bd0: Board = (self.field@, marks@.map_values(|r: Vec<Option<usize>>| r@));
        let ghost gv = g@;
        let mut i: usize = 0;
        while i < g.height
            invariant
                self.wf(),
                g.wf(),
                gv == g@,
                self.field.height == old(self).field.height,
                self.field.width == old(self).field.width,
                self.turn == old(self).turn,
                self.players == old(self).players,
                i <= g.height,
                marks_fit((self.field@, marks@.map_values(|r: Vec<Option<usize>>| r@))),
                (self.field@, marks@.map_values(|r: Vec<Option<usize>>| r@))
                    == paint_rows(bd0, gv, i as int, ry as int, rx as int, y as int, x as int, pid, power),
            decreases g.height - i,
        {
            let mut j: usize = 0;
            let ghost bdi = (self.field@, marks@.map_values(|r: Vec<Option<usize>>| r@));
            while j < g.width
                invariant
                    self.wf(),
                    g.wf(),
                    gv == g@,
                    self.field.height == old(self).field.height,
                    self.field.width == old(self).field.width,
                    self.turn == old(self).turn,
                    self.players == old(self).players,
                    i < g.height,
                    j <= g.width,
                    marks_fit((self.field@, marks@.map_values(|r: Vec<Option<usize>>| r@))),
                    (self.field@, marks@.map_values(|r: Vec<Option<usize>>| r@))
                        == paint_row(bdi, gv, i as int, j as int, ry as int, rx as int, y as int, x as int, pid, power),
                decreases g.width - j,
            {
                let ghost bdj: Board = (self.field@, marks@.map_values(|r: Vec<Option<usize>>| r@));
                assert(gv[i as int][j as int] == g.squares@[i as int]@[j as int]);
                let cell = g.squares[i][j];
                proof { lemma_paint_at_fits(bdj, cell, y + i - ry, x + j - rx, pid, power); }
                if cell != CardSquareType::Empty {
                    match get_cursor(ry, rx, y, x, i, j) {
                        Some((a, b)) => {
                            if a < self.field.height && b < self.field.width {
                                assert(bdj.0[a as int][b as int] == self.field.squares@[a as int]@[b as int]);
                                assert(bdj.1[a as int] == marks@[a as int]@);
                                assert(bdj.1[a as int].len() == bdj.0[a as int].len());
                                let (v, m) = paint_exec(self.field.squares[a][b], marks[a][b], cell, pid, power);
                                self.field.set_square(a, b, v);
                                let mut row: Vec<Option<usize>> = Vec::new();
                                marks.set_and_swap(a, &mut row);
                                row.set(b, m);
                                marks.set_and_swap(a, &mut row);
                                assert(marks@.map_values(|r: Vec<Option<usize>>| r@) =~= bdj.1.update(a as int, bdj.1[a as int].update(b as int, m)));
                            }
                        },
                        None => {},
                    }
                }
                j = j + 1;
            }
            assert(gv[i as int].len() == g.width);
            i = i + 1;
        }
    }
}

/// Where player `i`'s action stands in the order of play: before `b` when it
/// has more power, or as much power and a later place in the batch.
pub open spec fn goes_before(powers: Seq<usize>, a: usize, b: usize) -> bool {
    powers[a as int] > powers[b as int] || (powers[a as int] == powers[b as int] && a > b)
}

/// Inserts `i` into `order` before the first entry that it goes before.
pub open spec fn insert_ordered(powers: Seq<usize>, order: Seq<usize>, i: usize) -> Seq<usize>
    decreases order.len(),
{
    if order.len() == 0 {
        seq![i]
    } else if goes_before(powers, i, order[0]) {
        seq![i] + order
    } else {
        seq![order[0]] + insert_ordered(powers, order.drop_first(), i)
    }
}

/// The order of play of the first `n` actions: by decreasing power, and among
/// equal powers by decreasing place in the batch.
pub open spec fn action_order(powers: Seq<usize>, n: int) -> Seq<usize>
    decreases n,
{
    if n <= 0 {
        Seq::empty()
    } else {
        insert_ordered(powers, action_order(powers, n - 1), (n - 1) as usize)
    }
}

proof fn lemma_insert_ordered_at(powers: Seq<usize>, order: Seq<usize>, i: usize, pos: int)
    requires
        0 <= pos <= order.len(),
        forall|k: int| 0 <= k < pos ==> !goes_before(powers, i, #[trigger] order[k]),
        pos < order.len() ==> goes_before(powers, i, order[pos]),
    ensures
        insert_ordered(powers, order, i) == order.insert(pos, i),
    decreases order.len(),
{
    if order.len() == 0 {
        assert(order.insert(pos, i) =~= seq![i]);
    } else if pos == 0 {
        assert(order.insert(pos, i) =~= seq![i] + order);
    } else {
        let rest = order.drop_first();
        assert forall|k: int| 0 <= k < pos - 1 implies !goes_before(powers, i, #[trigger] rest[k]) by {
            assert(rest[k] == order[k + 1]);
        }
        lemma_insert_ordered_at(powers, rest, i, pos - 1);
        assert(order.insert(pos, i) =~= seq![order[0]] + rest.insert(pos - 1, i));
    }
}

/// Each entry of `order` goes before every later one.
pub open spec fn is_sorted_by_play(powers: Seq<usize>, order: Seq<usize>) -> bool {
    forall|a: int, b: int| 0 <= a < b < order.len() ==> goes_before(powers, #[trigger] order[a], #[trigger] order[b])
}

proof fn lemma_insert_ordered_sorted(powers: Seq<usize>, order: Seq<usize>, i: usize)
    requires
        is_sorted_by_play(powers, order),
        forall|k: int| 0 <= k < order.len() ==> (#[trigger] order[k]) < i,
        i < powers.len(),
        forall|k: int| 0 <= k < order.len() ==> (#[trigger] order[k]) < powers.len(),
    ensures
        is_sorted_by_play(powers, insert_ordered(powers, order, i)),
        insert_ordered(powers, order, i).len() == order.len() + 1,
        forall|k: int| 0 <= k < order.len() + 1 ==> #[trigger] insert_ordered(powers, order, i)[k] <= i,
        forall|k: int| 0 <= k < order.len() + 1 ==>
            #[trigger] insert_ordered(powers, order, i)[k] == i || order.contains(insert_ordered(powers, order, i)[k]),
    decreases order.len(),
{
    if order.len() == 0 {
    } else if goes_before(powers, i, order[0]) {
        let r = seq![i] + order;
        assert forall|a: int, b: int| 0 <= a < b < r.len() implies goes_before(powers, #[trigger] r[a], #[trigger] r[b]) by {
            if a == 0 {
                // i goes before order[0], which goes before order[b - 1]
                if b > 1 {
                    assert(goes_before(powers, order[0], order[b - 1]));
                }
            } else {
                assert(goes_before(powers, order[a - 1], order[b - 1]));
            }
        }
    } else {
        let rest = order.drop_first();
        assert(is_sorted_by_play(powers, rest)) by {
            assert forall|a: int, b: int| 0 <= a < b < rest.len() implies goes_before(powers, #[trigger] rest[a], #[trigger] rest[b]) by {
                assert(goes_before(powers, order[a + 1], order[b + 1]));
            }
        }
        lemma_insert_ordered_sorted(powers, rest, i);
        let ins = insert_ordered(powers, rest, i);
        let r = seq![order[0]] + ins;
        assert(order[0] < i);
        assert forall|a: int, b: int| 0 <= a < b < r.len() implies goes_before(powers, #[trigger] r[a], #[trigger] r[b]) by {
            if a == 0 {
                // order[0] goes before i, and before every later entry of order
                assert(r[b] == ins[b - 1]);
                if ins[b - 1] != i {
                    assert(rest.contains(ins[b - 1]));
                    let k = choose|k: int| 0 <= k < rest.len() && rest[k] == ins[b - 1];
                    assert(rest[k] == order[k + 1]);
                    assert(goes_before(powers, order[0], order[k + 1]));
                }
            } else {
                assert(r[a] == ins[a - 1] && r[b] == ins[b - 1]);
            }
        }
        assert forall|k: int| 0 <= k < order.len() + 1 implies #[trigger] r[k] == i || order.contains(r[k]) by {
            if k == 0 {
                assert(order[0] == r[0]);
            } else if ins[k - 1] != i {
                assert(rest.contains(ins[k - 1]));
                let j = choose|j: int| 0 <= j < rest.len() && rest[j] == ins[k - 1];
                assert(order[j + 1] == rest[j]);
            }
        }
    }
}

/// The order of play is by decreasing power, and among equal powers by
/// decreasing place in the batch.
pub proof fn lemma_action_order_sorted(powers: Seq<usize>, n: int)
    requires
        0 <= n <= powers.len(),
        powers.len() <= usize::MAX,
    ensures
        is_sorted_by_play(powers, action_order(powers, n)),
        action_order(powers, n).len() == n,
        forall|k: int| 0 <= k < n ==> (#[trigger] action_order(powers, n)[k]) < n,
    decreases n,
{
    if n > 0 {
        lemma_action_order_sorted(powers, n - 1);
        lemma_insert_ordered_sorted(powers, action_order(powers, n - 1), (n - 1) as usize);
    }
}

/// The power of each action: 0 for a Pass, the card's power otherwise.
pub open spec fn action_powers(cards: Map<CardId, &Card>, actions: Seq<Action>) -> Seq<usize> {
    Seq::new(actions.len(), |i: int| match actions[i] {
        Action::Pass { .. } => 0usize,
        Action::Put { card_id, .. } => cards[card_id].power,
        Action::SpecialPut { card_id, .. } => cards[card_id].power,
    })
}

/// Computes the order of play.
fn order_actions(powers: &Vec<usize>) -> (r: Vec<usize>)
    ensures
        r@ == action_order(powers@, powers@.len() as int),
        r@.len() == powers@.len(),
        r@.no_duplicates(),
        forall|k: int| 0 <= k < r@.len() ==> (#[trigger] r@[k]) < powers@.len(),
{
    let n = powers.len();
    let mut order: Vec<usize> = Vec::new();
    let mut i: usize = 0;
    while i < n
        invariant
            n == powers@.len(),
            i <= n,
            order@ == action_order(powers@, i as int),
            order@.len() == i,
            order@.no_duplicates(),
            forall|k: int| 0 <= k < order@.len() ==> (#[trigger] order@[k]) < i,
        decreases n - i,
    {
        let mut pos: usize = 0;
        while pos < order.len() && !(powers[i] > powers[order[pos]] || (powers[i] == powers[order[pos]] && i > order[pos]))
            invariant
                n == powers@.len(),
                i < n,
                order@.len() == i,
                forall|k: int| 0 <= k < order@.len() ==> (#[trigger] order@[k]) < i,
                pos <= order@.len(),
                forall|k: int| 0 <= k < pos ==> !goes_before(powers@, i, #[trigger] order@[k]),
            decreases order@.len() - pos,
        {
            pos = pos + 1;
        }
        proof {
            lemma_insert_ordered_at(powers@, order@, i, pos as int);
        }
        let ghost old_order = order@;
        order.insert(pos, i);
        proof {
            assert forall|k: int| 0 <= k < order@.len() implies (#[trigger] order@[k]) < i + 1 by {
                if k < pos {
                    assert(order@[k] == old_order[k]);
                } else if k > pos {
                    assert(order@[k] == old_order[k - 1]);
                }
            }
            assert forall|a: int, b: int| 0 <= a < order@.len() && 0 <= b < order@.len() && a != b
                implies order@[a] != order@[b] by {
                if a != pos && b != pos {
                    let a0 = if a < pos { a } else { a - 1 };
                    let b0 = if b < pos { b } else { b - 1 };
                    assert(order@[a] == old_order[a0]);
                    assert(order@[b] == old_order[b0]);
                } else if a == pos {
                    let b0 = if b < pos { b } else { b - 1 };
                    assert(order@[b] == old_order[b0]);
                } else {
                    let a0 = if a < pos { a } else { a - 1 };
                    assert(order@[a] == old_order[a0]);
                }
            }
        }
        i = i + 1;
    }
    order
}

/// The hand with the first occurrence of `c` taken out.
pub open spec fn remove_first(hand: Seq<CardId>, c: CardId) -> Seq<CardId>
    decreases hand.len(),
{
    if hand.len() == 0 {
        hand
    } else if hand[0] == c {
        hand.drop_first()
    } else {
        seq![hand[0]] + remove_first(hand.drop_first(), c)
    }
}

proof fn lemma_remove_first_at(hand: Seq<CardId>, c: CardId, k: int)
    requires
        0 <= k < hand.len(),
        hand[k] == c,
        forall|j: int| 0 <= j < k ==> hand[j] != c,
    ensures
        remove_first(hand, c) == hand.remove(k),
    decreases hand.len(),
{
    if k == 0 {
        assert(hand.drop_first() =~= hand.remove(0));
    } else {
        let rest = hand.drop_first();
        assert forall|j: int| 0 <= j < k - 1 implies rest[j] != c by {
            assert(rest[j] == hand[j + 1]);
        }
        lemma_remove_first_at(rest, c, k - 1);
        assert(hand.remove(k) =~= seq![hand[0]] + rest.remove(k - 1));
    }
}


/// Plays one action of player `pid`: a Pass earns a special point, a Put
/// paints the card's turned shape, and a SpecialPut paints it and pays the cost.
pub open spec fn play(bd: Board, sps: Seq<int>, cards: Map<CardId, &Card>, a: Action, pid: usize) -> (Board, Seq<int>) {
    match a {
        Action::Pass { .. } => (bd, sps.update(pid as int, sps[pid as int] + 1)),
        Action::Put { card_id, dir, y, x } => {
            let c = cards[card_id];
            (paint_shape(bd, rotated_by(c.shape@, dir), y as int, x as int, pid, c.power), sps)
        },
        Action::SpecialPut { card_id, dir, y, x } => {
            let c = cards[card_id];
            (paint_shape(bd, rotated_by(c.shape@, dir), y as int, x as int, pid, c.power),
                sps.update(pid as int, sps[pid as int] - c.cost))
        },
    }
}

/// Plays the actions at the first `k` places of the order.
pub open spec fn play_all(bd: Board, sps: Seq<int>, cards: Map<CardId, &Card>, actions: Seq<Action>, order: Seq<usize>, k: int) -> (Board, Seq<int>)
    decreases k,
{
    if k <= 0 {
        (bd, sps)
    } else {
        let (bd1, sps1) = play_all(bd, sps, cards, actions, order, k - 1);
        play(bd1, sps1, cards, actions[order[k - 1] as int], order[k - 1])
    }
}

/// Marks for a turn in which nothing was painted yet.
pub open spec fn blank_marks(field: Seq<Seq<FieldSquareType>>) -> Marks {
    Seq::new(field.len(), |a: int| Seq::new(field[a].len(), |b: int| None::<usize>))
}

/// The squares painted this turn, as a predicate.
pub open spec fn painted_marks(m: Marks) -> spec_fn(int, int) -> bool {
    |a: int, b: int| 0 <= a < m.len() && 0 <= b < m[a].len() && m[a][b] is Some
}

/// The change that a player's own action makes to its special points.
pub open spec fn point_delta(cards: Map<CardId, &Card>, a: Action) -> int {
    match a {
        Action::Pass { .. } => 1,
        Action::Put { .. } => 0,
        Action::SpecialPut { card_id, .. } => -(cards[card_id].cost as int),
    }
}

/// Why a batch of actions is refused.
#[derive(PartialEq, Eq, Debug, Clone, Copy, Structural)]
pub enum InvalidActionError {
    /// The batch does not hold exactly one action per player.
    ActionCount,
    /// The player's action is not legal, or its card is not in the player's hand.
    Illegal { player_id: PlayerId },
}

impl State {
    /// One action per player, each legal for its player with its card in hand.
    pub open spec fn batch_ok(&self, cards: Map<CardId, &Card>, actions: Seq<Action>) -> bool {
        &&& actions.len() == self.players@.len()
        &&& forall|i: int| 0 <= i < actions.len() ==> self.action_ok(cards, #[trigger] actions[i], i as usize)
    }

    pub open spec fn action_ok(&self, cards: Map<CardId, &Card>, a: Action, i: usize) -> bool {
        self.valid_for(cards, a, i) && self.players@[i as int].hands@.contains(action_card_id(a))
    }

    pub open spec fn points(&self) -> Seq<int> {
        Seq::new(self.players@.len(), |p: int| self.players@[p].special_point as int)
    }

    /// The field, marks and special points after all actions of the batch are played.
    pub open spec fn resolution(&self, cards: Map<CardId, &Card>, actions: Seq<Action>) -> (Board, Seq<int>) {
        play_all(
            (self.field@, blank_marks(self.field@)),
            self.points(),
            cards,
            actions,
            action_order(action_powers(cards, actions), actions.len() as int),
            actions.len() as int,
        )
    }
}


/// Fresh marks for a field of `h` rows of `w` squares.
fn blank_marks_exec(h: usize, w: usize) -> (r: Vec<Vec<Option<usize>>>)
    ensures
        r@.len() == h,
        forall|a: int| 0 <= a < h ==> (#[trigger] r@[a])@ == Seq::new(w as nat, |b: int| None::<usize>),
{
    let mut r: Vec<Vec<Option<usize>>> = Vec::new();
    while r.len() < h
        invariant
            r@.len() <= h,
            forall|a: int| 0 <= a < r@.len() ==> (#[trigger] r@[a])@ == Seq::new(w as nat, |b: int| None::<usize>),
        decreases h - r@.len(),
    {
        let mut row: Vec<Option<usize>> = Vec::new();
        while row.len() < w
            invariant
                row@.len() <= w,
                forall|b: int| 0 <= b < row@.len() ==> row@[b] == None::<usize>,
            decreases w - row@.len(),
        {
            row.push(None);
        }
        assert(row@ =~= Seq::new(w as nat, |b: int| None::<usize>));
        r.push(row);
    }
    r
}

/// The squares whose mark is set, in row-major order.
fn painted_list(marks: &Vec<Vec<Option<usize>>>, h: usize, w: usize) -> (r: Vec<(usize, usize)>)
    requires
        marks@.len() == h,
        forall|a: int| 0 <= a < h ==> (#[trigger] marks@[a])@.len() == w,
    ensures
        listed(r@) == painted_marks(marks@.map_values(|v: Vec<Option<usize>>| v@)),
{
    let ghost m = marks@.map_values(|v: Vec<Option<usize>>| v@);
    let mut r: Vec<(usize, usize)> = Vec::new();
    let mut a: usize = 0;
    while a < h
        invariant
            marks@.len() == h,
            m == marks@.map_values(|v: Vec<Option<usize>>| v@),
            forall|i: int| 0 <= i < h ==> (#[trigger] marks@[i])@.len() == w,
            a <= h,
            forall|c: int, d: int| (exists|k: int| 0 <= k < r@.len() && r@[k].0 == c && r@[k].1 == d)
                <==> (0 <= c < a && 0 <= d < w && #[trigger] m[c][d] is Some),
        decreases h - a,
    {
        let mut b: usize = 0;
        while b < w
            invariant
                marks@.len() == h,
                m == marks@.map_values(|v: Vec<Option<usize>>| v@),
                forall|i: int| 0 <= i < h ==> (#[trigger] marks@[i])@.len() == w,
                a < h,
                b <= w,
                forall|c: int, d: int| (exists|k: int| 0 <= k < r@.len() && r@[k].0 == c && r@[k].1 == d)
                    <==> ((0 <= c < a && 0 <= d < w) || (c == a && 0 <= d < b)) && #[trigger] m[c][d] is Some,
            decreases w - b,
        {
            assert(m[a as int][b as int] == marks@[a as int]@[b as int]);
            if marks[a][b].is_some() {
                let ghost r0 = r@;
                r.push((a, b));
                proof {
                    assert forall|c: int, d: int| (exists|k: int| 0 <= k < r@.len() && r@[k].0 == c && r@[k].1 == d)
                        <==> ((0 <= c < a && 0 <= d < w) || (c == a && 0 <= d < b + 1)) && #[trigger] m[c][d] is Some by {
                        if exists|k: int| 0 <= k < r@.len() && r@[k].0 == c && r@[k].1 == d {
                            let k = choose|k: int| 0 <= k < r@.len() && r@[k].0 == c && r@[k].1 == d;
                            if k < r0.len() {
                                assert(r0[k] == r@[k]);
                            }
                        }
                        if ((0 <= c < a && 0 <= d < w) || (c == a && 0 <= d < b + 1)) && m[c][d] is Some {
                            if c == a && d == b {
                                assert(r@[r0.len() as int] == (a, b));
                            } else {
                                let k = choose|k: int| 0 <= k < r0.len() && r0[k].0 == c && r0[k].1 == d;
                                assert(r@[k] == r0[k]);
                            }
                        }
                    }
                }
            }
            b = b + 1;
        }
        a = a + 1;
    }
    proof {
        assert forall|c: int, d: int| (#[trigger] listed(r@)(c, d)) == painted_marks(m)(c, d) by {
            if 0 <= c < h {
                assert(m[c].len() == w);
            }
        }
        assert(listed(r@) =~= painted_marks(m));
    }
    r
}

impl State {
    /// Checks that the batch holds one legal action per player, each with its
    /// card in the player's hand.
    fn check_batch(&self, cards: &HashMap<CardId, &Card>, actions: &[Action]) -> (r: Result<(), InvalidActionError>)
        requires
            self.wf(),
            catalog_wf(cards@),
        ensures
            r is Ok <==> self.batch_ok(cards@, actions@),
            r == Err::<(), _>(InvalidActionError::ActionCount) <==> actions@.len() != self.players@.len(),
            r matches Err(InvalidActionError::Illegal { player_id }) ==>
                player_id < actions@.len() && !self.action_ok(cards@, actions@[player_id as int], player_id)
                && forall|j: int| 0 <= j < player_id ==> self.action_ok(cards@, #[trigger] actions@[j], j as usize),
    {
        if actions.len() != self.players.len() {
            return Err(InvalidActionError::ActionCount);
        }
        let mut i: usize = 0;
        while i < actions.len()
            invariant
                self.wf(),
                catalog_wf(cards@),
                actions@.len() == self.players@.len(),
                i <= actions@.len(),
                forall|k: int| 0 <= k < i ==> self.action_ok(cards@, #[trigger] actions@[k], k as usize),
            decreases actions@.len() - i,
        {
            let a = actions[i];
            if !self.is_valid_action(cards, &a, i) || !vec_contains(&self.players[i].hands, a.get_card_id()) {
                return Err(InvalidActionError::Illegal { player_id: i });
            }
            i = i + 1;
        }
        Ok(())
    }
}

fn action_powers_exec(cards: &HashMap<CardId, &Card>, actions: &[Action]) -> (r: Vec<usize>)
    requires
        forall|i: int| 0 <= i < actions@.len() ==> match #[trigger] actions@[i] {
            Action::Pass { .. } => true,
            Action::Put { card_id, .. } => cards@.contains_key(card_id),
            Action::SpecialPut { card_id, .. } => cards@.contains_key(card_id),
        },
    ensures
        r@ == action_powers(cards@, actions@),
{
    broadcast use vstd::std_specs::hash::group_hash_axioms;
    let mut r: Vec<usize> = Vec::new();
    let mut i: usize = 0;
    while i < actions.len()
        invariant
            i <= actions@.len(),
            r@.len() == i,
            forall|i: int| 0 <= i < actions@.len() ==> match #[trigger] actions@[i] {
                Action::Pass { .. } => true,
                Action::Put { card_id, .. } => cards@.contains_key(card_id),
                Action::SpecialPut { card_id, .. } => cards@.contains_key(card_id),
            },
            forall|k: int| 0 <= k < i ==> r@[k] == #[trigger] action_powers(cards@, actions@)[k],
        decreases actions@.len() - i,
    {
        let p = match &actions[i] {
            Action::Pass { .. } => 0,
            Action::Put { card_id, .. } | Action::SpecialPut { card_id, .. } => match cards.get(card_id) {
                Some(c) => c.power,
                None => 0,
            },
        };
        r.push(p);
        i = i + 1;
    }
    assert(r@ =~= action_powers(cards@, actions@));
    r
}


/// Player `p`'s action stands among the first `k` places of the order.
pub open spec fn played(order: Seq<usize>, k: int, p: int) -> bool {
    exists|j: int| 0 <= j < k && order[j] as int == p
}

impl State {
    /// Plays the actions in the given order on the field and the marks.
    fn play_in_order(
        &mut self,
        cards: &HashMap<CardId, &Card>,
        actions: &[Action],
        order: &Vec<usize>,
        marks: &mut Vec<Vec<Option<usize>>>,
    )
        requires
            old(self).wf(),
            catalog_wf(cards@),
            actions@.len() == old(self).players@.len(),
            order@.len() == actions@.len(),
            order@.no_duplicates(),
            forall|k: int| 0 <= k < order@.len() ==> (#[trigger] order@[k]) < actions@.len(),
            forall|i: int| 0 <= i < actions@.len() ==> match #[trigger] actions@[i] {
                Action::Pass { .. } => old(self).players@[i].special_point + 1 <= usize::MAX,
                Action::Put { card_id, .. } => cards@.contains_key(card_id),
                Action::SpecialPut { card_id, .. } => cards@.contains_key(card_id)
                    && old(self).players@[i].special_point >= cards@[card_id].cost,
            },
            marks_fit((old(self).field@, old(marks)@.map_values(|r: Vec<Option<usize>>| r@))),
        ensures
            final(self).wf(),
            final(self).field.height == old(self).field.height,
            final(self).field.width == old(self).field.width,
            final(self).turn == old(self).turn,
            final(self).players@.len() == old(self).players@.len(),
            marks_fit((final(self).field@, final(marks)@.map_values(|r: Vec<Option<usize>>| r@))),
            forall|p: int| 0 <= p < final(self).players@.len() ==> {
                &&& (#[trigger] final(self).players@[p]).hands@ == old(self).players@[p].hands@
                &&& final(self).players@[p].deck@ == old(self).players@[p].deck@
                &&& final(self).players@[p].special_point == old(self).players@[p].special_point
                    + point_delta(cards@, actions@[p])
            },
            ({
                let (bd, sps) = play_all(
                    (old(self).field@, old(marks)@.map_values(|r: Vec<Option<usize>>| r@)),
                    old(self).points(), cards@, actions@, order@, order@.len() as int);
                &&& (final(self).field@, final(marks)@.map_values(|r: Vec<Option<usize>>| r@)) == bd
                &&& final(self).points() == sps
            }),
    {
        broadcast use vstd::std_specs::hash::group_hash_axioms;
        let ghost bd0: Board = (self.field@, marks@.map_values(|r: Vec<Option<usize>>| r@));
        let ghost sps0 = self.points();
        let ghost players0 = self.players@;
        let n = order.len();
        let mut k: usize = 0;
        while k < n
            invariant
                self.wf(),
                catalog_wf(cards@),
                n == order@.len(),
                actions@.len() == n,
                players0.len() == n,
                self.players@.len() == n,
                sps0 == Seq::new(n as nat, |p: int| players0[p].special_point as int),
                order@.no_duplicates(),
                forall|j: int| 0 <= j < order@.len() ==> (#[trigger] order@[j]) < actions@.len(),
                forall|i: int| 0 <= i < actions@.len() ==> match #[trigger] actions@[i] {
                    Action::Pass { .. } => players0[i].special_point + 1 <= usize::MAX,
                    Action::Put { card_id, .. } => cards@.contains_key(card_id),
                    Action::SpecialPut { card_id, .. } => cards@.contains_key(card_id)
                        && players0[i].special_point >= cards@[card_id].cost,
                },
                k <= n,
                self.field.height == old(self).field.height,
                self.field.width == old(self).field.width,
                self.turn == old(self).turn,
                marks_fit((self.field@, marks@.map_values(|r: Vec<Option<usize>>| r@))),
                (self.field@, marks@.map_values(|r: Vec<Option<usize>>| r@)) == play_all(bd0, sps0, cards@, actions@, order@, k as int).0,
                self.points() == play_all(bd0, sps0, cards@, actions@, order@, k as int).1,
                forall|p: int| 0 <= p < n ==> {
                    &&& (#[trigger] self.players@[p]).hands@ == players0[p].hands@
                    &&& self.players@[p].deck@ == players0[p].deck@
                    &&& self.players@[p].special_point == players0[p].special_point
                        + if played(order@, k as int, p) { point_delta(cards@, actions@[p]) } else { 0 }
                },
            decreases n - k,
        {
            let i = order[k];
            proof {
                assert(!played(order@, k as int, i as int)) by {
                    if played(order@, k as int, i as int) {
                        let j = choose|j: int| 0 <= j < k && order@[j] as int == i as int;
                        assert(order@[j] == order@[k as int]);
                    }
                }
                assert forall|p: int| 0 <= p < n && p != i implies
                    played(order@, k + 1, p) == played(order@, k as int, p) by {
                    if played(order@, k + 1, p) {
                        let j = choose|j: int| 0 <= j < k + 1 && order@[j] as int == p;
                        assert(j != k);
                    }
                }
                assert(played(order@, k + 1, i as int)) by {
                    assert(order@[k as int] as int == i as int);
                }
            }
            let ghost before = play_all(bd0, sps0, cards@, actions@, order@, k as int);
            let ghost sp_i = self.players@[i as int].special_point;
            assert(sp_i == players0[i as int].special_point);
            let a = actions[i];
            match a {
                Action::Pass { .. } => {
                    self.players[i].special_point = self.players[i].special_point + 1;
                },
                Action::Put { card_id, dir, y, x } | Action::SpecialPut { card_id, dir, y, x } => {
                    let card = match cards.get(&card_id) {
                        Some(c) => *c,
                        None => {
                            // every card of the batch is in the catalog
                            assert(false);
                            return;
                        },
                    };
                    let g = rotated(&card.shape, dir);
                    self.paint_card(marks, &g, y, x, i, card.power);
                    if let Action::SpecialPut { .. } = a {
                        self.players[i].special_point = self.players[i].special_point - card.cost;
                    }
                },
            }
            proof {
                assert(self.points() =~= before.1.update(i as int, self.players@[i as int].special_point as int)
                    || self.points() =~= before.1);
                let after = play_all(bd0, sps0, cards@, actions@, order@, k + 1);
                assert(after == play(before.0, before.1, cards@, actions@[i as int], i));
                assert(self.points() =~= after.1);
            }
            k = k + 1;
        }
        proof {
            assert forall|p: int| 0 <= p < n implies played(order@, n as int, p) by {
                lemma_permutation_covers(order@, n as int, p);
            }
        }
    }
}

/// A sequence of `n` distinct values below `n` holds each value below `n`.
proof fn lemma_permutation_covers(order: Seq<usize>, n: int, p: int)
    requires
        order.len() == n,
        order.no_duplicates(),
        forall|j: int| 0 <= j < order.len() ==> (#[trigger] order[j]) < n,
        0 <= p < n,
    ensures
        played(order, n, p),
{
    if !played(order, n, p) {
        let f = |j: int| order[j] as int;
        let dom = Set::new(|j: int| 0 <= j < n);
        let rng = Set::new(|v: int| 0 <= v < n && v != p);
        assert(dom =~= vstd::set_lib::set_int_range(0, n));
        vstd::set_lib::lemma_int_range(0, n);
        assert(rng =~= vstd::set_lib::set_int_range(0, n).remove(p));
        assert forall|j: int| #[trigger] dom.contains(j) implies rng.contains(f(j)) by {
            assert(order[j] as int != p);
        }
        assert forall|a: int, b: int| #[trigger] dom.contains(a) && #[trigger] dom.contains(b) && f(a) == f(b) implies a == b by {
        }
        assert(vstd::relations::injective_on(f, dom));
        vstd::set_lib::lemma_map_size(dom, dom.map(f), f);
        assert(dom.map(f).subset_of(rng));
        vstd::set_lib::lemma_len_subset(dom.map(f), rng);
    }
}


/// A hand after its card `c` is discarded and, if `draws`, the front card of the deck drawn.
pub open spec fn hand_after(hand: Seq<CardId>, deck: Seq<CardId>, c: CardId, draws: bool) -> Seq<CardId> {
    let h = remove_first(hand, c);
    if draws {
        h.push(deck[0])
    } else {
        h
    }
}

/// The index of the first `c` in the hand, which holds it.
fn first_index(hand: &Vec<CardId>, c: CardId) -> (r: usize)
    requires
        hand@.contains(c),
    ensures
        r < hand@.len(),
        hand@[r as int] == c,
        forall|j: int| 0 <= j < r ==> hand@[j] != c,
{
    let mut i: usize = 0;
    while i < hand.len()
        invariant
            hand@.contains(c),
            i <= hand@.len(),
            forall|j: int| 0 <= j < i ==> hand@[j] != c,
        decreases hand@.len() - i,
    {
        if hand[i] == c {
            return i;
        }
        i = i + 1;
    }
    proof {
        let k = choose|k: int| 0 <= k < hand@.len() && hand@[k] == c;
    }
    0
}

impl State {
    /// Resolves one turn from one action per player (the action at index `i`
    /// is player `i`'s). A batch that is not one legal action per player, each
    /// with its card in hand, is refused as a whole and the state is left as
    /// it was. Otherwise the actions are played by decreasing power (equal
    /// powers: the later action in the batch first), painting the field with
    /// the collision rules of `paint`; then the activation pass runs over the
    /// painted squares, each player discards the card used, the turn advances,
    /// and, unless the game is over, each player draws the front card of its deck.
    pub fn apply(&mut self, env: &Environment, cards: &HashMap<CardId, &Card>, actions: &[Action]) -> (r: Result<(), InvalidActionError>)
        requires
            old(self).wf(),
            catalog_wf(cards@),
            points_headroom(old(self).players@, old(self).field@),
            old(self).turn < usize::MAX,
            old(self).turn + 1 <= env.max_turn ==> forall|p: int| 0 <= p < old(self).players@.len() ==>
                (#[trigger] old(self).players@[p]).deck@.len() > 0,
        ensures
            r is Ok <==> old(self).batch_ok(cards@, actions@),
            r == Err::<(), _>(InvalidActionError::ActionCount) <==> actions@.len() != old(self).players@.len(),
            r matches Err(InvalidActionError::Illegal { player_id }) ==>
                player_id < actions@.len() && !old(self).action_ok(cards@, actions@[player_id as int], player_id)
                && forall|j: int| 0 <= j < player_id ==> old(self).action_ok(cards@, #[trigger] actions@[j], j as usize),
            r is Err ==> *final(self) == *old(self),
            r is Ok ==> ({
                let (bd, sps) = old(self).resolution(cards@, actions@);
                let painted = painted_marks(bd.1);
                let draws = old(self).turn + 1 <= env.max_turn;
                &&& final(self).wf()
                &&& final(self).turn == old(self).turn + 1
                &&& final(self).field@ == activated_field(bd.0, painted)
                &&& final(self).players@.len() == old(self).players@.len()
                &&& forall|p: int| 0 <= p < old(self).players@.len() ==> {
                    &&& (#[trigger] final(self).players@[p]).special_point == sps[p] + activation_gain(bd.0, painted, p)
                    &&& final(self).players@[p].hands@ == hand_after(old(self).players@[p].hands@,
                        old(self).players@[p].deck@, action_card_id(actions@[p]), draws)
                    &&& final(self).players@[p].deck@ == if draws {
                        old(self).players@[p].deck@.drop_first()
                    } else {
                        old(self).players@[p].deck@
                    }
                }
            }),
    {
        match self.check_batch(cards, actions) {
            Err(e) => return Err(e),
            Ok(()) => {},
        }
        let ghost s0_players = self.players@;
        let ghost res = self.resolution(cards@, actions@);
        let n = self.players.len();
        let h = self.field.height;
        let w = self.field.width;
        proof {
            assert forall|i: int| 0 <= i < actions@.len() implies match #[trigger] actions@[i] {
                Action::Pass { .. } => self.players@[i].special_point + 1 <= usize::MAX,
                Action::Put { card_id, .. } => cards@.contains_key(card_id),
                Action::SpecialPut { card_id, .. } => cards@.contains_key(card_id)
                    && self.players@[i].special_point >= cards@[card_id].cost,
            } by {
                assert(self.action_ok(cards@, actions@[i], i as usize));
                assert(self.players@[i].special_point + 1 + h * w <= usize::MAX);
                assert(0 <= h * w) by (nonlinear_arith) requires 0 <= h, 0 <= w;
            }
        }
        let powers = action_powers_exec(cards, actions);
        let order = order_actions(&powers);
        let mut marks = blank_marks_exec(h, w);
        proof {
            assert(marks@.map_values(|r: Vec<Option<usize>>| r@) =~= blank_marks(self.field@)) by {
                assert forall|a: int| 0 <= a < h implies #[trigger] self.field@[a].len() == w by {}
            }
        }
        self.play_in_order(cards, actions, &order, &mut marks);
        proof {
            assert forall|a: int| 0 <= a < h implies (#[trigger] marks@[a])@.len() == w by {
                assert(marks@.map_values(|r: Vec<Option<usize>>| r@)[a] == marks@[a]@);
                assert(self.field@[a].len() == w);
            }
        }
        let list = painted_list(&marks, h, w);
        proof {
            assert forall|p: int| 0 <= p < self.players@.len() implies
                (#[trigger] self.players@[p]).special_point + self.field.height * self.field.width <= usize::MAX by {
                assert(s0_players[p].special_point + 1 + h * w <= usize::MAX);
                assert(point_delta(cards@, actions@[p]) <= 1);
            }
        }
        let ghost mid_players = self.players@;
        let ghost bd_field = self.field@;
        let ghost mid_points = self.points();
        proof {
            assert((bd_field, marks@.map_values(|r: Vec<Option<usize>>| r@)) == res.0);
            assert(mid_points == res.1);
        }
        let gains = self.activates(&list);
        let ghost act_players = self.players@;
        proof {
            assert forall|q: int| 0 <= q < n implies {
                &&& (#[trigger] act_players[q]).hands@ == s0_players[q].hands@
                &&& act_players[q].deck@ == s0_players[q].deck@
                &&& act_players[q].special_point == res.1[q] + activation_gain(res.0.0, painted_marks(res.0.1), q)
            } by {
                assert(gains@[q] == activation_gain(bd_field, listed(list@), q));
                assert(mid_players[q].hands@ == s0_players[q].hands@);
                assert(mid_points[q] == mid_players[q].special_point as int);
            }
            assert forall|q: int| 0 <= q < n implies (#[trigger] s0_players[q]).hands@.contains(action_card_id(actions@[q])) by {
                assert(old(self).action_ok(cards@, actions@[q], q as usize));
            }
        }
        let mut p: usize = 0;
        while p < n
            invariant
                self.wf(),
                n == self.players@.len(),
                n == act_players.len(),
                n == actions@.len(),
                self.turn == old(self).turn,
                self.field@ == activated_field(bd_field, listed(list@)),
                self.field.height == h,
                self.field.width == w,
                p <= n,
                n == s0_players.len(),
                forall|q: int| 0 <= q < n ==> (#[trigger] s0_players[q]).hands@.contains(action_card_id(actions@[q])),
                forall|q: int| 0 <= q < n ==> (#[trigger] act_players[q]).hands@ == s0_players[q].hands@,
                forall|q: int| 0 <= q < n ==> {
                    &&& (#[trigger] self.players@[q]).special_point == act_players[q].special_point
                    &&& self.players@[q].deck@ == act_players[q].deck@
                    &&& self.players@[q].hands@ == if q < p {
                        remove_first(s0_players[q].hands@, action_card_id(actions@[q]))
                    } else {
                        s0_players[q].hands@
                    }
                },
            decreases n - p,
        {
            let c = actions[p].get_card_id();
            let idx = first_index(&self.players[p].hands, c);
            proof {
                lemma_remove_first_at(self.players@[p as int].hands@, c, idx as int);
            }
            self.players[p].hands.remove(idx);
            p = p + 1;
        }
        self.turn = self.turn + 1;
        if self.turn <= env.max_turn {
            let mut p: usize = 0;
            while p < n
                invariant
                    self.wf(),
                    n == self.players@.len(),
                    n == act_players.len(),
                    n == s0_players.len(),
                    n == actions@.len(),
                    self.turn == old(self).turn + 1,
                    self.turn <= env.max_turn,
                    forall|q: int| 0 <= q < n ==> (#[trigger] act_players[q]).deck@.len() > 0,
                    self.field@ == activated_field(bd_field, listed(list@)),
                    p <= n,
                    forall|q: int| 0 <= q < n ==> {
                        &&& (#[trigger] self.players@[q]).special_point == act_players[q].special_point
                        &&& self.players@[q].deck@ == if q < p { act_players[q].deck@.drop_first() } else { act_players[q].deck@ }
                        &&& self.players@[q].hands@ == if q < p {
                            remove_first(s0_players[q].hands@, action_card_id(actions@[q])).push(act_players[q].deck@[0])
                        } else {
                            remove_first(s0_players[q].hands@, action_card_id(actions@[q]))
                        }
                    },
                decreases n - p,
            {
                match self.players[p].deck.pop_front() {
                    Some(c) => {
                        self.players[p].hands.push(c);
                    },
                    None => {},
                }
                assert(act_players[p as int].deck@.drop_first() =~= act_players[p as int].deck@.subrange(1, act_players[p as int].deck@.len() as int));
                p = p + 1;
            }
        }
        proof {
            assert(listed(list@) == painted_marks(res.0.1));
        }
        Ok(())
    }
}


/// Two card squares of the same kind painted in one turn on a square that was
/// Empty: equal powers leave a Block; otherwise the square belongs to the
/// player of the higher power, whichever was painted first.
pub proof fn lemma_same_turn_collision(cell: CardSquareType, pa: usize, qa: usize, pb: usize, qb: usize)
    requires
        cell != CardSquareType::Empty,
    ensures
        ({
            let (sa, ma) = paint(FieldSquareType::Empty, None, cell, pa, qa);
            let (sb, mb) = paint(sa, ma, cell, pb, qb);
            &&& qa == qb ==> sb == FieldSquareType::Block
            &&& qa > qb ==> square_owner(sb) == pa && sb == sa
            &&& qa < qb ==> square_owner(sb) == pb && mb == Some(qb)
        }),
{
}

/// The action is a Put of a catalog card whose turned shape has a Colored
/// square landing on field square `(a, b)`.
pub open spec fn put_colors(cards: Map<CardId, &Card>, act: Action, a: int, b: int) -> bool {
    match act {
        Action::Put { card_id, dir, y, x } => cards.contains_key(card_id) && {
            let g = rotated_by(cards[card_id].shape@, dir);
            let (ry, rx) = ref_point(g);
            let i = a - y + ry;
            let j = b - x + rx;
            0 <= i < g.len() && 0 <= j < g[i].len() && g[i][j] == CardSquareType::Colored
        },
        _ => false,
    }
}

proof fn lemma_put_paints_square(bd: Board, sps: Seq<int>, cards: Map<CardId, &Card>, act: Action, pid: usize, a: int, b: int)
    requires
        marks_fit(bd),
        in_field(bd.0, a, b),
        put_colors(cards, act, a, b),
    ensures
        marks_fit(play(bd, sps, cards, act, pid).0),
        in_field(play(bd, sps, cards, act, pid).0.0, a, b),
        square_at(play(bd, sps, cards, act, pid).0, a, b) ==
            paint(bd.0[a][b], bd.1[a][b], CardSquareType::Colored, pid, action_card_power(cards, act)),
{
    if let Action::Put { card_id, dir, y, x } = act {
        let c = cards[card_id];
        let g = rotated_by(c.shape@, dir);
        lemma_paint_shape_square(bd, g, y as int, x as int, pid, c.power, a, b);
        let r = paint_shape(bd, g, y as int, x as int, pid, c.power);
        assert(r.0[a].len() == bd.0[a].len());
    }
}

/// The power of a Put or SpecialPut's card.
pub open spec fn action_card_power(cards: Map<CardId, &Card>, act: Action) -> usize {
    match act {
        Action::Pass { .. } => 0,
        Action::Put { card_id, .. } => cards[card_id].power,
        Action::SpecialPut { card_id, .. } => cards[card_id].power,
    }
}

/// The Puts of two players whose Colored squares land on the same Empty square:
/// after the turn, equal powers leave a Block there, and otherwise the square
/// belongs to the player whose card has the higher power.
pub proof fn lemma_turn_collision(s: &State, cards: Map<CardId, &Card>, actions: Seq<Action>, a: int, b: int)
    requires
        s.wf(),
        actions.len() == 2,
        put_colors(cards, actions[0], a, b),
        put_colors(cards, actions[1], a, b),
        in_field(s.field@, a, b),
        s.field@[a][b] == FieldSquareType::Empty,
    ensures
        ({
            let (bd, _) = s.resolution(cards, actions);
            let f = activated_field(bd.0, painted_marks(bd.1));
            let power_a = action_card_power(cards, actions[0]);
            let power_b = action_card_power(cards, actions[1]);
            &&& power_a == power_b ==> f[a][b] == FieldSquareType::Block
            &&& power_a > power_b ==> f[a][b] == FieldSquareType::Colored { player_id: 0 }
            &&& power_a < power_b ==> f[a][b] == FieldSquareType::Colored { player_id: 1 }
        }),
{
    let field = s.field@;
    let bd0: Board = (field, blank_marks(field));
    assert(marks_fit(bd0)) by {
        assert forall|i: int| 0 <= i < field.len() implies (#[trigger] bd0.1[i]).len() == field[i].len() by {}
    }
    assert(bd0.1[a][b] == None::<usize>) by {
        assert(field[a].len() == field[0].len());
    }
    let powers = action_powers(cards, actions);
    let power_a = action_card_power(cards, actions[0]);
    let power_b = action_card_power(cards, actions[1]);
    assert(powers[0] == power_a && powers[1] == power_b);
    let order = action_order(powers, 2);
    assert(action_order(powers, 0) == Seq::<usize>::empty());
    assert(insert_ordered(powers, Seq::<usize>::empty(), 0usize) == seq![0usize]);
    assert(action_order(powers, 1) == insert_ordered(powers, action_order(powers, 0), 0usize));
    assert(action_order(powers, 1) == seq![0usize]);
    assert(order == insert_ordered(powers, seq![0usize], 1usize));
    assert(seq![0usize][0] == 0usize);
    assert(seq![0usize].drop_first() =~= Seq::<usize>::empty());
    let first: usize = if power_b >= power_a { 1 } else { 0 };
    let second: usize = if power_b >= power_a { 0 } else { 1 };
    assert(order == seq![first, second]) by {
        assert(goes_before(powers, 1, 0) == (power_b >= power_a));
        if power_b >= power_a {
            assert(seq![1usize] + seq![0usize] =~= seq![1usize, 0usize]);
        } else {
            assert(insert_ordered(powers, Seq::<usize>::empty(), 1) == seq![1usize]);
            assert(seq![0usize] + seq![1usize] =~= seq![0usize, 1usize]);
        }
    }
    let sps0 = s.points();
    let step1 = play_all(bd0, sps0, cards, actions, order, 1);
    assert(play_all(bd0, sps0, cards, actions, order, 0) == (bd0, sps0));
    assert(step1 == play(bd0, sps0, cards, actions[first as int], first));
    lemma_put_paints_square(bd0, sps0, cards, actions[first as int], first, a, b);
    let bd1 = step1.0;
    let step2 = play_all(bd0, sps0, cards, actions, order, 2);
    assert(step2 == play(bd1, step1.1, cards, actions[second as int], second));
    lemma_put_paints_square(bd1, step1.1, cards, actions[second as int], second, a, b);
    let bd2 = step2.0;
    assert(s.resolution(cards, actions) == step2);
    let f = activated_field(bd2.0, painted_marks(bd2.1));
    assert(in_field(bd2.0, a, b));
    assert(f[a][b] == bd2.0[a][b]) by {
        assert(!is_dormant_special(bd2.0[a][b]));
    }
}

} // verus!
