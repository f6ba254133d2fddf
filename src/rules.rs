//! Move legality and the enumeration of a player's legal actions.
use vstd::prelude::*;
use std::collections::HashMap;
use crate::action::{action_card_id, Action, CardId, Direction};
use crate::game::{catalog_wf, Card, State};
use crate::shape::{
    filled_at, has_filled, is_grid, is_reference_point, lemma_reference_point_exists,
    rotate_grid, CardShape, CardSquareType, FieldShape, FieldSquareType, PlayerId,
};

verus! {

/// The card's shape turned clockwise as the direction says.
pub open spec fn rotated_by(g: Seq<Seq<CardSquareType>>, d: Direction) -> Seq<Seq<CardSquareType>> {
    match d {
        Direction::Up => g,
        Direction::Right => rotate_grid(g),
        Direction::Down => rotate_grid(rotate_grid(g)),
        Direction::Left => rotate_grid(rotate_grid(rotate_grid(g))),
    }
}

/// The reference point of a shape with a filled square.
pub open spec fn ref_point(g: Seq<Seq<CardSquareType>>) -> (int, int) {
    choose|p: (int, int)| is_reference_point(g, p.0, p.1)
}

pub proof fn lemma_ref_point_unique(g: Seq<Seq<CardSquareType>>, y: int, x: int)
    requires
        is_reference_point(g, y, x),
    ensures
        ref_point(g) == (y, x),
{
    let p = ref_point(g);
    assert(is_reference_point(g, (y, x).0, (y, x).1));
    assert(is_reference_point(g, p.0, p.1));
    assert(filled_at(g, p.0, p.1) && filled_at(g, y, x));
}

proof fn lemma_rotate_keeps_filled(g: Seq<Seq<CardSquareType>>)
    requires
        is_grid(g),
        has_filled(g),
    ensures
        is_grid(rotate_grid(g)),
        has_filled(rotate_grid(g)),
{
    let (i, j) = choose|i: int, j: int| filled_at(g, i, j);
    assert(filled_at(g, i, j));
    assert(g[i].len() == g[0].len());
    let r = rotate_grid(g);
    assert(r[j][g.len() - 1 - i] == g[i][j]);
    assert(filled_at(r, j, g.len() - 1 - i));
    assert(g.len() * g[0].len() == g[0].len() * g.len()) by (nonlinear_arith);
}

/// `(c, d)` is one of the eight squares around `(a, b)`.
pub open spec fn is_neighbor(a: int, b: int, c: int, d: int) -> bool {
    &&& (c != a || d != b)
    &&& a - 1 <= c <= a + 1
    &&& b - 1 <= d <= b + 1
}

pub open spec fn in_field(field: Seq<Seq<FieldSquareType>>, a: int, b: int) -> bool {
    0 <= a < field.len() && 0 <= b < field[a].len()
}

/// `(c, d)` is a neighbour of `(a, b)` on the field whose square satisfies `pred`.
pub open spec fn neighbor_hit(
    field: Seq<Seq<FieldSquareType>>,
    a: int, b: int, c: int, d: int,
    pred: spec_fn(FieldSquareType) -> bool,
) -> bool {
    is_neighbor(a, b, c, d) && in_field(field, c, d) && pred(field[c][d])
}

/// Some neighbour of `(a, b)` on the field satisfies `pred`.
pub open spec fn has_neighbor(field: Seq<Seq<FieldSquareType>>, a: int, b: int, pred: spec_fn(FieldSquareType) -> bool) -> bool {
    exists|c: int, d: int| #[trigger] neighbor_hit(field, a, b, c, d, pred)
}

/// The kinds of neighbour that placement and activation look for.
#[derive(PartialEq, Eq, Debug, Clone, Copy, Structural)]
pub enum SquareTest {
    /// Colored or Special, owned by the player.
    Owned(PlayerId),
    /// Special, owned by the player.
    OwnSpecial(PlayerId),
    /// Empty.
    Empty,
}

pub open spec fn square_test(t: SquareTest) -> spec_fn(FieldSquareType) -> bool {
    |s: FieldSquareType| match t {
        SquareTest::Owned(p) => crate::shape::owned_by(s, p as int),
        SquareTest::OwnSpecial(p) => match s {
            FieldSquareType::Special { player_id, .. } => player_id == p,
            _ => false,
        },
        SquareTest::Empty => s == FieldSquareType::Empty,
    }
}

fn square_test_exec(s: FieldSquareType, t: SquareTest) -> (r: bool)
    ensures
        r == (square_test(t))(s),
{
    match t {
        SquareTest::Owned(p) => match s {
            FieldSquareType::Colored { player_id } => player_id == p,
            FieldSquareType::Special { player_id, .. } => player_id == p,
            _ => false,
        },
        SquareTest::OwnSpecial(p) => match s {
            FieldSquareType::Special { player_id, .. } => player_id == p,
            _ => false,
        },
        SquareTest::Empty => s == FieldSquareType::Empty,
    }
}

/// Whether some neighbour of `(a, b)` passes the test.
pub fn has_neighbor_exec(field: &FieldShape, a: usize, b: usize, t: SquareTest) -> (r: bool)
    requires
        field.wf(),
        a < field.height,
        b < field.width,
    ensures
        r == has_neighbor(field@, a as int, b as int, square_test(t)),
{
    let ghost f = field@;
    let ghost pred = square_test(t);
    let mut dy: usize = 0;
    while dy < 3
        invariant
            field.wf(),
            f == field@,
            pred == square_test(t),
            a < field.height,
            b < field.width,
            dy <= 3,
            forall|c: int, d: int| c < a - 1 + dy ==> !#[trigger] neighbor_hit(f, a as int, b as int, c, d, pred),
        decreases 3 - dy,
    {
        let mut dx: usize = 0;
        while dx < 3
            invariant
                field.wf(),
                f == field@,
                pred == square_test(t),
                a < field.height,
                b < field.width,
                dy < 3,
                dx <= 3,
                forall|c: int, d: int| c < a - 1 + dy ==> !#[trigger] neighbor_hit(f, a as int, b as int, c, d, pred),
                forall|d: int| d < b - 1 + dx ==> !#[trigger] neighbor_hit(f, a as int, b as int, a - 1 + dy, d, pred),
            decreases 3 - dx,
        {
            if !(dy == 1 && dx == 1) && !(dy == 0 && a == 0) && !(dx == 0 && b == 0) {
                let c = if dy == 0 { a - 1 } else if dy == 1 { a } else { a + 1 };
                let d = if dx == 0 { b - 1 } else if dx == 1 { b } else { b + 1 };
                if c < field.height && d < field.width {
                    assert(f[c as int][d as int] == field.squares@[c as int]@[d as int]);
                    if square_test_exec(field.squares[c][d], t) {
                        assert(neighbor_hit(f, a as int, b as int, c as int, d as int, pred));
                        return true;
                    }
                }
            }
            dx = dx + 1;
        }
        dy = dy + 1;
    }
    false
}


/// Where square `(i, j)` of a shape lands when its reference point `(ry, rx)`
/// is put on `(ty, tx)`; `None` where that is no pair of `usize`.
pub open spec fn cursor(ry: int, rx: int, ty: int, tx: int, i: int, j: int) -> Option<(usize, usize)> {
    let cy = ty + i - ry;
    let cx = tx + j - rx;
    if 0 <= cy <= usize::MAX && 0 <= cx <= usize::MAX {
        Some((cy as usize, cx as usize))
    } else {
        None
    }
}

fn shift(t: usize, i: usize, r: usize) -> (c: Option<usize>)
    ensures
        c == (if 0 <= t + i - r <= usize::MAX { Some((t + i - r) as usize) } else { None::<usize> }),
{
    if i >= r {
        t.checked_add(i - r)
    } else if t < r - i {
        None
    } else {
        Some(t - (r - i))
    }
}

pub fn get_cursor(
    reference_point_y: usize,
    reference_point_x: usize,
    target_y: usize,
    target_x: usize,
    i: usize,
    j: usize,
) -> (r: Option<(usize, usize)>)
    ensures
        r == cursor(reference_point_y as int, reference_point_x as int, target_y as int, target_x as int, i as int, j as int),
{
    let cy = shift(target_y, i, reference_point_y);
    let cx = shift(target_x, j, reference_point_x);
    match (cy, cx) {
        (Some(a), Some(b)) => Some((a, b)),
        _ => None,
    }
}

/// A square that a card square may be put on: Empty for a Put; neither Special
/// nor Block for a SpecialPut.
pub open spec fn target_ok(s: FieldSquareType, special: bool) -> bool {
    if special {
        !(s is Special || s is Block)
    } else {
        s == FieldSquareType::Empty
    }
}

/// The neighbour that a placement must touch: an own square for a Put, an own
/// Special square for a SpecialPut.
pub open spec fn anchor_test(player_id: PlayerId, special: bool) -> SquareTest {
    if special {
        SquareTest::OwnSpecial(player_id)
    } else {
        SquareTest::Owned(player_id)
    }
}

/// Every filled square of `g`, with its reference point put on `(y, x)`, lands
/// inside the field on a square that it may be put on.
pub open spec fn placement_fits(field: Seq<Seq<FieldSquareType>>, g: Seq<Seq<CardSquareType>>, y: int, x: int, special: bool) -> bool {
    let (ry, rx) = ref_point(g);
    forall|i: int, j: int| #[trigger] filled_at(g, i, j) ==>
        in_field(field, y + i - ry, x + j - rx) && target_ok(field[y + i - ry][x + j - rx], special)
}

/// Some filled square of `g`, placed so, lands next to the anchor that the placement needs.
pub open spec fn placement_touches(field: Seq<Seq<FieldSquareType>>, g: Seq<Seq<CardSquareType>>, y: int, x: int, player_id: PlayerId, special: bool) -> bool {
    let (ry, rx) = ref_point(g);
    exists|i: int, j: int| #[trigger] filled_at(g, i, j) &&
        has_neighbor(field, y + i - ry, x + j - rx, square_test(anchor_test(player_id, special)))
}

/// Whether the action is legal for the player, given the field, the player's
/// special points and hand, and the catalog.
pub open spec fn valid_action(
    field: Seq<Seq<FieldSquareType>>,
    special_point: int,
    hand: Seq<CardId>,
    cards: Map<CardId, &Card>,
    action: Action,
    player_id: PlayerId,
) -> bool {
    match action {
        Action::Pass { card_id } => hand.contains(card_id),
        Action::Put { card_id, dir, y, x } => cards.contains_key(card_id) && {
            let g = rotated_by(cards[card_id].shape@, dir);
            placement_fits(field, g, y as int, x as int, false)
                && placement_touches(field, g, y as int, x as int, player_id, false)
        },
        Action::SpecialPut { card_id, dir, y, x } => cards.contains_key(card_id)
            && special_point >= cards[card_id].cost && {
            let g = rotated_by(cards[card_id].shape@, dir);
            placement_fits(field, g, y as int, x as int, true)
                && placement_touches(field, g, y as int, x as int, player_id, true)
        },
    }
}

/// `(a, b)` comes before `(i, j)` in row-major order.
pub open spec fn before(a: int, b: int, i: int, j: int) -> bool {
    a < i || (a == i && b < j)
}

/// The shape turned clockwise as the direction says.
pub fn rotated(shape: &CardShape, dir: Direction) -> (r: CardShape)
    requires
        shape.wf(),
        has_filled(shape@),
    ensures
        r.wf(),
        has_filled(r@),
        r@ == rotated_by(shape@, dir),
{
    proof {
        lemma_rotate_keeps_filled(shape@);
        lemma_rotate_keeps_filled(rotate_grid(shape@));
        lemma_rotate_keeps_filled(rotate_grid(rotate_grid(shape@)));
    }
    match dir {
        Direction::Up => shape.duplicate(),
        Direction::Right => shape.rotate(),
        Direction::Down => shape.rotate().rotate(),
        Direction::Left => shape.rotate().rotate().rotate(),
    }
}

impl State {
    /// Whether the shape, put with its reference point on `(y, x)`, fits and
    /// touches the anchor it needs.
    fn placement_ok(&self, g: &CardShape, y: usize, x: usize, player_id: PlayerId, special: bool) -> (r: bool)
        requires
            self.wf(),
            g.wf(),
            has_filled(g@),
        ensures
            r == (placement_fits(self.field@, g@, y as int, x as int, special)
                && placement_touches(self.field@, g@, y as int, x as int, player_id, special)),
    {
        let (ry, rx) = g.find_reference_point(0);
        proof { lemma_ref_point_unique(g@, ry as int, rx as int); }
        let ghost f = self.field@;
        let ghost gv = g@;
        let ghost pred = square_test(anchor_test(player_id, special));
        let t = if special { SquareTest::OwnSpecial(player_id) } else { SquareTest::Owned(player_id) };
        let mut touches = false;
        let mut i: usize = 0;
        while i < g.height
            invariant
                self.wf(),
                g.wf(),
                f == self.field@,
                gv == g@,
                ref_point(gv) == (ry as int, rx as int),
                t == anchor_test(player_id, special),
                pred == square_test(t),
                i <= g.height,
                forall|a: int, b: int| #[trigger] filled_at(gv, a, b) && a < i ==>
                    in_field(f, y + a - ry, x + b - rx) && target_ok(f[y + a - ry][x + b - rx], special),
                touches == exists|a: int, b: int| #[trigger] filled_at(gv, a, b) && a < i &&
                    has_neighbor(f, y + a - ry, x + b - rx, pred),
            decreases g.height - i,
        {
            let mut j: usize = 0;
            while j < g.width
                invariant
                    self.wf(),
                    g.wf(),
                    f == self.field@,
                    gv == g@,
                    ref_point(gv) == (ry as int, rx as int),
                    t == anchor_test(player_id, special),
                    pred == square_test(t),
                    i < g.height,
                    j <= g.width,
                    forall|a: int, b: int| #[trigger] filled_at(gv, a, b) && before(a, b, i as int, j as int) ==>
                        in_field(f, y + a - ry, x + b - rx) && target_ok(f[y + a - ry][x + b - rx], special),
                    touches == exists|a: int, b: int| #[trigger] filled_at(gv, a, b) && before(a, b, i as int, j as int) &&
                        has_neighbor(f, y + a - ry, x + b - rx, pred),
                decreases g.width - j,
            {
                assert(gv[i as int][j as int] == g.squares@[i as int]@[j as int]);
                if g.squares[i][j] != CardSquareType::Empty {
                    assert(filled_at(gv, i as int, j as int));
                    let (cy, cx) = match get_cursor(ry, rx, y, x, i, j) {
                        Some(c) => c,
                        None => {
                            return false;
                        },
                    };
                    if cy >= self.field.height || cx >= self.field.width {
                        return false;
                    }
                    assert(f[cy as int][cx as int] == self.field.squares@[cy as int]@[cx as int]);
                    let sq = self.field.squares[cy][cx];
                    let ok = if special {
                        match sq {
                            FieldSquareType::Special { .. } | FieldSquareType::Block => false,
                            _ => true,
                        }
                    } else {
                        sq == FieldSquareType::Empty
                    };
                    if !ok {
                        return false;
                    }
                    if !touches {
                        touches = has_neighbor_exec(&self.field, cy, cx, t);
                    }
                }
                j = j + 1;
            }
            i = i + 1;
        }
        touches
    }

    /// Whether the action is legal for the player: a Pass names a card in the
    /// hand; a Put or SpecialPut lands its turned shape inside the field on
    /// squares it may cover, next to the anchor it needs, and a SpecialPut is
    /// paid for.
    pub fn is_valid_action(&self, cards: &HashMap<CardId, &Card>, action: &Action, player_id: usize) -> (r: bool)
        requires
            self.wf(),
            catalog_wf(cards@),
            player_id < self.players@.len(),
        ensures
            r == valid_action(
                self.field@,
                self.players@[player_id as int].special_point as int,
                self.players@[player_id as int].hands@,
                cards@,
                *action,
                player_id,
            ),
    {
        broadcast use vstd::std_specs::hash::group_hash_axioms;
        match action {
            Action::Pass { card_id } => vec_contains(&self.players[player_id].hands, *card_id),
            Action::Put { card_id, dir, y, x } | Action::SpecialPut { card_id, dir, y, x } => {
                let special = match action {
                    Action::SpecialPut { .. } => true,
                    _ => false,
                };
                let card = match cards.get(card_id) {
                    Some(c) => *c,
                    None => return false,
                };
                assert(cards@.contains_key(*card_id));
                if special && self.players[player_id].special_point < card.cost {
                    return false;
                }
                let g = rotated(&card.shape, *dir);
                self.placement_ok(&g, *y, *x, player_id, special)
            },
        }
    }
}

/// Whether the first `n` entries of the vector hold the value.
pub fn prefix_contains(v: &Vec<CardId>, n: usize, c: CardId) -> (r: bool)
    requires
        n <= v@.len(),
    ensures
        r == v@.take(n as int).contains(c),
{
    let mut i: usize = 0;
    while i < n
        invariant
            n <= v@.len(),
            i <= n,
            forall|k: int| 0 <= k < i ==> v@[k] != c,
        decreases n - i,
    {
        if v[i] == c {
            assert(v@.take(n as int)[i as int] == c);
            return true;
        }
        i = i + 1;
    }
    proof {
        if v@.take(n as int).contains(c) {
            let k = choose|k: int| 0 <= k < n && v@.take(n as int)[k] == c;
            assert(v@[k] == c);
        }
    }
    false
}

/// Whether the vector holds the value.
pub fn vec_contains(v: &Vec<CardId>, c: CardId) -> (r: bool)
    ensures
        r == v@.contains(c),
{
    let mut i: usize = 0;
    while i < v.len()
        invariant
            i <= v.len(),
            forall|k: int| 0 <= k < i ==> v@[k] != c,
        decreases v.len() - i,
    {
        if v[i] == c {
            assert(v@[i as int] == c);
            return true;
        }
        i = i + 1;
    }
    false
}


/// The Put (or, if `special`, SpecialPut) of a card at a place.
pub open spec fn placement_action(card_id: CardId, dir: Direction, y: usize, x: usize, special: bool) -> Action {
    if special {
        Action::SpecialPut { card_id, dir, y, x }
    } else {
        Action::Put { card_id, dir, y, x }
    }
}

/// The directions in the order the generator tries them.
pub open spec fn dir_of(d: int) -> Direction {
    if d == 0 {
        Direction::Up
    } else if d == 1 {
        Direction::Right
    } else if d == 2 {
        Direction::Down
    } else {
        Direction::Left
    }
}

fn dir_at(d: usize) -> (r: Direction)
    ensures
        r == dir_of(d as int),
{
    if d == 0 {
        Direction::Up
    } else if d == 1 {
        Direction::Right
    } else if d == 2 {
        Direction::Down
    } else {
        Direction::Left
    }
}

fn make_placement(card_id: CardId, dir: Direction, y: usize, x: usize, special: bool) -> (r: Action)
    ensures
        r == placement_action(card_id, dir, y, x, special),
{
    if special {
        Action::SpecialPut { card_id, dir, y, x }
    } else {
        Action::Put { card_id, dir, y, x }
    }
}

impl State {
    /// The legal placements of a card in a direction on row `y`, columns `0..xn`, left to right.
    pub open spec fn row_placements(&self, cards: Map<CardId, &Card>, c: CardId, dir: Direction, special: bool, player_id: PlayerId, y: int, xn: int) -> Seq<Action>
        decreases xn,
    {
        if xn <= 0 {
            Seq::empty()
        } else {
            let prev = self.row_placements(cards, c, dir, special, player_id, y, xn - 1);
            let a = placement_action(c, dir, y as usize, (xn - 1) as usize, special);
            if self.valid_for(cards, a, player_id) {
                prev.push(a)
            } else {
                prev
            }
        }
    }

    /// The legal placements of a card in a direction on rows `0..yn`, in row-major order.
    pub open spec fn grid_placements(&self, cards: Map<CardId, &Card>, c: CardId, dir: Direction, special: bool, player_id: PlayerId, yn: int) -> Seq<Action>
        decreases yn,
    {
        if yn <= 0 {
            Seq::empty()
        } else {
            self.grid_placements(cards, c, dir, special, player_id, yn - 1)
                + self.row_placements(cards, c, dir, special, player_id, yn - 1, self.field.width as int)
        }
    }

    /// The candidates of one card in one direction: its legal Puts, then, if the
    /// player can pay for the card, its legal SpecialPuts.
    pub open spec fn dir_candidates(&self, cards: Map<CardId, &Card>, c: CardId, dir: Direction, player_id: PlayerId) -> Seq<Action> {
        let h = self.field.height as int;
        self.grid_placements(cards, c, dir, false, player_id, h) + if cards[c].cost <= self.players@[player_id as int].special_point {
            self.grid_placements(cards, c, dir, true, player_id, h)
        } else {
            Seq::empty()
        }
    }

    /// The candidates of one card in the first `d` directions of the order Up, Right, Down, Left.
    pub open spec fn dir_prefix(&self, cards: Map<CardId, &Card>, c: CardId, player_id: PlayerId, d: int) -> Seq<Action>
        decreases d,
    {
        if d <= 0 {
            Seq::empty()
        } else {
            self.dir_prefix(cards, c, player_id, d - 1) + self.dir_candidates(cards, c, dir_of(d - 1), player_id)
        }
    }

    /// The candidates of one card: by direction (Up, Right, Down, Left), then its Pass.
    pub open spec fn card_candidates(&self, cards: Map<CardId, &Card>, c: CardId, player_id: PlayerId) -> Seq<Action> {
        self.dir_candidates(cards, c, Direction::Up, player_id)
            + self.dir_candidates(cards, c, Direction::Right, player_id)
            + self.dir_candidates(cards, c, Direction::Down, player_id)
            + self.dir_candidates(cards, c, Direction::Left, player_id)
            + seq![Action::Pass { card_id: c }]
    }

    /// The candidates of the first `n` cards of the player's hand, in hand
    /// order; a card id already met earlier in the hand adds nothing.
    pub open spec fn hand_candidates(&self, cards: Map<CardId, &Card>, player_id: PlayerId, n: int) -> Seq<Action>
        decreases n,
    {
        if n <= 0 {
            Seq::empty()
        } else {
            let hand = self.players@[player_id as int].hands@;
            if hand.take(n - 1).contains(hand[n - 1]) {
                self.hand_candidates(cards, player_id, n - 1)
            } else {
                self.hand_candidates(cards, player_id, n - 1) + self.card_candidates(cards, hand[n - 1], player_id)
            }
        }
    }

    /// The player's parameters of `valid_action`, for this state.
    pub open spec fn valid_for(&self, cards: Map<CardId, &Card>, action: Action, player_id: PlayerId) -> bool {
        valid_action(
            self.field@,
            self.players@[player_id as int].special_point as int,
            self.players@[player_id as int].hands@,
            cards,
            action,
            player_id,
        )
    }

    /// Appends every legal placement of one card in one direction, scanning the
    /// field in row-major order.
    fn push_placements(
        &self,
        cards: &HashMap<CardId, &Card>,
        card_id: CardId,
        dir: Direction,
        special: bool,
        player_id: PlayerId,
        candidates: &mut Vec<Action>,
    )
        requires
            self.wf(),
            catalog_wf(cards@),
            player_id < self.players@.len(),
        ensures
            final(candidates)@.len() >= old(candidates)@.len(),
            forall|k: int| 0 <= k < old(candidates)@.len() ==> final(candidates)@[k] == old(candidates)@[k],
            forall|k: int| old(candidates)@.len() <= k < final(candidates)@.len() ==>
                self.valid_for(cards@, #[trigger] final(candidates)@[k], player_id)
                    && action_card_id(final(candidates)@[k]) == card_id
                    && !(final(candidates)@[k] is Pass),
            forall|y: usize, x: usize| y < self.field.height && x < self.field.width
                && #[trigger] self.valid_for(cards@, placement_action(card_id, dir, y, x, special), player_id)
                ==> final(candidates)@.contains(placement_action(card_id, dir, y, x, special)),
            final(candidates)@ == old(candidates)@
                + self.grid_placements(cards@, card_id, dir, special, player_id, self.field.height as int),
    {
        let ghost c0 = candidates@;
        let mut y: usize = 0;
        while y < self.field.height
            invariant
                self.wf(),
                catalog_wf(cards@),
                player_id < self.players@.len(),
                y <= self.field.height,
                candidates@.len() >= c0.len(),
                forall|k: int| 0 <= k < c0.len() ==> candidates@[k] == c0[k],
                forall|k: int| c0.len() <= k < candidates@.len() ==>
                    self.valid_for(cards@, #[trigger] candidates@[k], player_id)
                        && action_card_id(candidates@[k]) == card_id && !(candidates@[k] is Pass),
                forall|b: usize, a: usize| b < y && a < self.field.width
                    && #[trigger] self.valid_for(cards@, placement_action(card_id, dir, b, a, special), player_id)
                    ==> candidates@.contains(placement_action(card_id, dir, b, a, special)),
                candidates@ == c0 + self.grid_placements(cards@, card_id, dir, special, player_id, y as int),
            decreases self.field.height - y,
        {
            let mut x: usize = 0;
            while x < self.field.width
                invariant
                    self.wf(),
                    catalog_wf(cards@),
                    player_id < self.players@.len(),
                    y < self.field.height,
                    x <= self.field.width,
                    candidates@.len() >= c0.len(),
                    forall|k: int| 0 <= k < c0.len() ==> candidates@[k] == c0[k],
                    forall|k: int| c0.len() <= k < candidates@.len() ==>
                        self.valid_for(cards@, #[trigger] candidates@[k], player_id)
                            && action_card_id(candidates@[k]) == card_id && !(candidates@[k] is Pass),
                    forall|b: usize, a: usize| (b < y || (b == y && a < x)) && a < self.field.width
                        && #[trigger] self.valid_for(cards@, placement_action(card_id, dir, b, a, special), player_id)
                        ==> candidates@.contains(placement_action(card_id, dir, b, a, special)),
                    candidates@ == c0 + self.grid_placements(cards@, card_id, dir, special, player_id, y as int)
                        + self.row_placements(cards@, card_id, dir, special, player_id, y as int, x as int),
                decreases self.field.width - x,
            {
                let action = make_placement(card_id, dir, y, x, special);
                let ghost gy = self.grid_placements(cards@, card_id, dir, special, player_id, y as int);
                let ghost rx = self.row_placements(cards@, card_id, dir, special, player_id, y as int, x as int);
                if self.is_valid_action(cards, &action, player_id) {
                    let ghost before_push = candidates@;
                    candidates.push(action);
                    proof {
                        assert(candidates@[before_push.len() as int] == action);
                        assert forall|b: usize, a: usize| (b < y || (b == y && a < x + 1)) && a < self.field.width
                            && #[trigger] self.valid_for(cards@, placement_action(card_id, dir, b, a, special), player_id)
                            implies candidates@.contains(placement_action(card_id, dir, b, a, special)) by {
                            if b == y && a == x {
                            } else {
                                let k = choose|k: int| 0 <= k < before_push.len() && before_push[k] == placement_action(card_id, dir, b, a, special);
                                assert(candidates@[k] == before_push[k]);
                            }
                        }
                        assert(candidates@ =~= c0 + gy + rx.push(action));
                    }
                }
                x = x + 1;
            }
            proof {
                assert(candidates@ =~= c0 + self.grid_placements(cards@, card_id, dir, special, player_id, y + 1));
            }
            y = y + 1;
        }
    }

    /// Every legal action of the player: for each card of the hand, in hand
    /// order, and each direction (Up, Right, Down, Left), the legal Puts and,
    /// if the player can pay for the card, the legal SpecialPuts, in row-major
    /// order of the place; then a Pass of that card.
    pub fn generate_valid_actions(&self, cards: &HashMap<CardId, &Card>, player_id: PlayerId) -> (r: Vec<Action>)
        requires
            self.wf(),
            catalog_wf(cards@),
            player_id < self.players@.len(),
            forall|k: int| 0 <= k < self.players@[player_id as int].hands@.len() ==>
                cards@.contains_key(#[trigger] self.players@[player_id as int].hands@[k]),
        ensures
            forall|k: int| 0 <= k < r@.len() ==> self.valid_for(cards@, #[trigger] r@[k], player_id)
                && self.players@[player_id as int].hands@.contains(action_card_id(r@[k])),
            forall|c: CardId| #[trigger] self.players@[player_id as int].hands@.contains(c) ==>
                r@.contains(Action::Pass { card_id: c }),
            forall|c: CardId, dir: Direction, y: usize, x: usize, special: bool|
                self.players@[player_id as int].hands@.contains(c)
                && #[trigger] self.valid_for(cards@, placement_action(c, dir, y, x, special), player_id)
                ==> r@.contains(placement_action(c, dir, y, x, special)),
            r@ == self.hand_candidates(cards@, player_id, self.players@[player_id as int].hands@.len() as int),
            forall|i: int, j: int| 0 <= i < r@.len() && 0 <= j < r@.len() && #[trigger] r@[i] is Pass
                && #[trigger] r@[j] == r@[i] ==> i == j,
    {
        broadcast use vstd::std_specs::hash::group_hash_axioms;
        let ghost hand = self.players@[player_id as int].hands@;
        let mut candidates: Vec<Action> = Vec::new();
        let mut hi: usize = 0;
        while hi < self.players[player_id].hands.len()
            invariant
                self.wf(),
                catalog_wf(cards@),
                player_id < self.players@.len(),
                hand == self.players@[player_id as int].hands@,
                forall|k: int| 0 <= k < hand.len() ==> cards@.contains_key(#[trigger] hand[k]),
                hi <= hand.len(),
                forall|k: int| 0 <= k < candidates@.len() ==> self.valid_for(cards@, #[trigger] candidates@[k], player_id)
                    && hand.contains(action_card_id(candidates@[k])),
                forall|h: int| 0 <= h < hi ==> candidates@.contains(Action::Pass { card_id: #[trigger] hand[h] }),
                forall|h: int, dir: Direction, y: usize, x: usize, special: bool| 0 <= h < hi
                    && #[trigger] self.valid_for(cards@, placement_action(hand[h], dir, y, x, special), player_id)
                    ==> candidates@.contains(placement_action(hand[h], dir, y, x, special)),
                candidates@ == self.hand_candidates(cards@, player_id, hi as int),
                forall|i: int, j: int| 0 <= i < candidates@.len() && 0 <= j < candidates@.len()
                    && #[trigger] candidates@[i] is Pass && #[trigger] candidates@[j] == candidates@[i] ==> i == j,
                forall|k: int| 0 <= k < candidates@.len() && #[trigger] candidates@[k] is Pass
                    ==> hand.take(hi as int).contains(action_card_id(candidates@[k])),
            decreases hand.len() - hi,
        {
            let card_id = self.players[player_id].hands[hi];
            assert(hand.contains(card_id)) by { assert(hand[hi as int] == card_id); }
            if prefix_contains(&self.players[player_id].hands, hi, card_id) {
                proof {
                    let h = choose|h: int| 0 <= h < hi && hand.take(hi as int)[h] == card_id;
                    assert(hand[h] == card_id);
                    assert(hand.take(hi as int) =~= hand.take(hi + 1).take(hi as int));
                    assert forall|k: int| 0 <= k < candidates@.len() && #[trigger] candidates@[k] is Pass
                        implies hand.take(hi + 1).contains(action_card_id(candidates@[k])) by {
                        let m = choose|m: int| 0 <= m < hi && hand.take(hi as int)[m] == action_card_id(candidates@[k]);
                        assert(hand.take(hi + 1)[m] == hand.take(hi as int)[m]);
                    }
                    assert forall|dir: Direction, y: usize, x: usize, special: bool|
                        #[trigger] self.valid_for(cards@, placement_action(hand[hi as int], dir, y, x, special), player_id)
                        implies candidates@.contains(placement_action(hand[hi as int], dir, y, x, special)) by {
                        assert(self.valid_for(cards@, placement_action(hand[h], dir, y, x, special), player_id));
                    }
                    assert(candidates@.contains(Action::Pass { card_id: hand[h] }));
                }
                hi = hi + 1;
            } else {
            let card = match cards.get(&card_id) {
                Some(c) => *c,
                None => {
                    assert(cards@.contains_key(hand[hi as int]));
                    return candidates;
                },
            };
            let can_pay = card.cost <= self.players[player_id].special_point;
            let ghost c_hand = candidates@;
            let mut d: usize = 0;
            while d < 4
                invariant
                    self.wf(),
                    catalog_wf(cards@),
                    player_id < self.players@.len(),
                    hand == self.players@[player_id as int].hands@,
                    hi < hand.len(),
                    card_id == hand[hi as int],
                    hand.contains(card_id),
                    cards@.contains_key(card_id),
                    cards@[card_id] == card,
                    can_pay == (card.cost <= self.players@[player_id as int].special_point),
                    d <= 4,
                    forall|k: int| 0 <= k < candidates@.len() ==> self.valid_for(cards@, #[trigger] candidates@[k], player_id)
                        && hand.contains(action_card_id(candidates@[k])),
                    forall|h: int| 0 <= h < hi ==> candidates@.contains(Action::Pass { card_id: #[trigger] hand[h] }),
                    forall|h: int, dir: Direction, y: usize, x: usize, special: bool| 0 <= h < hi
                        && #[trigger] self.valid_for(cards@, placement_action(hand[h], dir, y, x, special), player_id)
                        ==> candidates@.contains(placement_action(hand[h], dir, y, x, special)),
                    forall|e: int, y: usize, x: usize, special: bool| 0 <= e < d
                        && #[trigger] self.valid_for(cards@, placement_action(card_id, dir_of(e), y, x, special), player_id)
                        ==> candidates@.contains(placement_action(card_id, dir_of(e), y, x, special)),
                    c_hand == self.hand_candidates(cards@, player_id, hi as int),
                    candidates@ == c_hand + self.dir_prefix(cards@, card_id, player_id, d as int),
                    !hand.take(hi as int).contains(card_id),
                    forall|i: int, j: int| 0 <= i < c_hand.len() && 0 <= j < c_hand.len()
                        && #[trigger] c_hand[i] is Pass && #[trigger] c_hand[j] == c_hand[i] ==> i == j,
                    forall|k: int| 0 <= k < c_hand.len() && #[trigger] c_hand[k] is Pass
                        ==> hand.take(hi as int).contains(action_card_id(c_hand[k])),
                    forall|k: int| c_hand.len() <= k < candidates@.len() ==> !(#[trigger] candidates@[k] is Pass),
                decreases 4 - d,
            {
                let dir = dir_at(d);
                let ghost c_before = candidates@;
                self.push_placements(cards, card_id, dir, false, player_id, &mut candidates);
                if can_pay {
                    self.push_placements(cards, card_id, dir, true, player_id, &mut candidates);
                }
                proof {
                    assert forall|a: Action| c_before.contains(a) implies candidates@.contains(a) by {
                        let k = choose|k: int| 0 <= k < c_before.len() && c_before[k] == a;
                        assert(candidates@[k] == c_before[k]);
                    }
                    assert forall|y: usize, x: usize, special: bool|
                        #[trigger] self.valid_for(cards@, placement_action(card_id, dir, y, x, special), player_id)
                        implies candidates@.contains(placement_action(card_id, dir, y, x, special)) by {
                        self.lemma_valid_placement_in_field(cards@, card_id, dir, y, x, special, player_id);
                    }
                    assert forall|e: int, y: usize, x: usize, special: bool| 0 <= e < d + 1
                        && #[trigger] self.valid_for(cards@, placement_action(card_id, dir_of(e), y, x, special), player_id)
                        implies candidates@.contains(placement_action(card_id, dir_of(e), y, x, special)) by {
                        if e == d {
                            assert(dir_of(e) == dir);
                        }
                    }
                    assert(candidates@ =~= c_hand + self.dir_prefix(cards@, card_id, player_id, d + 1));
                }
                d = d + 1;
            }
            proof {
                assert forall|dir: Direction, y: usize, x: usize, special: bool|
                    #[trigger] self.valid_for(cards@, placement_action(card_id, dir, y, x, special), player_id)
                    implies candidates@.contains(placement_action(card_id, dir, y, x, special)) by {
                    let e: int = match dir {
                        Direction::Up => 0,
                        Direction::Right => 1,
                        Direction::Down => 2,
                        Direction::Left => 3,
                    };
                    assert(dir_of(e) == dir);
                }
            }
            let ghost c_before = candidates@;
            candidates.push(Action::Pass { card_id });
            proof {
                let cs = candidates@;
                let n0 = c_before.len() as int;
                assert(hand.take(hi + 1) =~= hand.take(hi as int).push(card_id));
                assert forall|k: int| 0 <= k < cs.len() && #[trigger] cs[k] is Pass
                    implies hand.take(hi + 1).contains(action_card_id(cs[k])) by {
                    if k < n0 {
                        assert(cs[k] == c_before[k]);
                        if k >= c_hand.len() {
                        } else {
                            assert(c_before[k] == c_hand[k]);
                            let m = choose|m: int| 0 <= m < hi && hand.take(hi as int)[m] == action_card_id(c_hand[k]);
                            assert(hand.take(hi + 1)[m] == hand.take(hi as int)[m]);
                        }
                    } else {
                        assert(hand.take(hi + 1)[hi as int] == card_id);
                    }
                }
                assert forall|i: int, j: int| 0 <= i < cs.len() && 0 <= j < cs.len()
                    && #[trigger] cs[i] is Pass && #[trigger] cs[j] == cs[i] implies i == j by {
                    if i < n0 && j < n0 {
                        assert(cs[i] == c_before[i] && cs[j] == c_before[j]);
                        if i < c_hand.len() && j < c_hand.len() {
                            assert(c_before[i] == c_hand[i] && c_before[j] == c_hand[j]);
                        }
                    } else if i < n0 || j < n0 {
                        let k = if i < n0 { i } else { j };
                        assert(cs[k] == c_before[k]);
                        assert(cs[k] == Action::Pass { card_id });
                        assert(k < c_hand.len());
                        assert(c_before[k] == c_hand[k]);
                    }
                }
                assert forall|a: Action| c_before.contains(a) implies candidates@.contains(a) by {
                    let k = choose|k: int| 0 <= k < c_before.len() && c_before[k] == a;
                    assert(candidates@[k] == c_before[k]);
                }
                assert(candidates@[c_before.len() as int] == Action::Pass { card_id });
                let dp = |d: int| self.dir_prefix(cards@, card_id, player_id, d);
                let dc = |dir: Direction| self.dir_candidates(cards@, card_id, dir, player_id);
                assert(dp(0) == Seq::<Action>::empty());
                assert(dp(1) == dp(0) + dc(Direction::Up));
                assert(dp(2) == dp(1) + dc(Direction::Right));
                assert(dp(3) == dp(2) + dc(Direction::Down));
                assert(dp(4) == dp(3) + dc(Direction::Left));
                assert(dp(1) =~= dc(Direction::Up));
                assert(self.card_candidates(cards@, card_id, player_id)
                    =~= self.dir_prefix(cards@, card_id, player_id, 4) + seq![Action::Pass { card_id }]);
                assert(candidates@ =~= self.hand_candidates(cards@, player_id, hi + 1));
            }
            hi = hi + 1;
            }
        }
        proof {
            assert forall|c: CardId| #[trigger] hand.contains(c) implies candidates@.contains(Action::Pass { card_id: c }) by {
                let h = choose|h: int| 0 <= h < hand.len() && hand[h] == c;
            }
            assert forall|c: CardId, dir: Direction, y: usize, x: usize, special: bool|
                hand.contains(c) && #[trigger] self.valid_for(cards@, placement_action(c, dir, y, x, special), player_id)
                implies candidates@.contains(placement_action(c, dir, y, x, special)) by {
                let h = choose|h: int| 0 <= h < hand.len() && hand[h] == c;
            }
        }
        candidates
    }

    /// A legal placement puts the reference point on a square of the field.
    proof fn lemma_valid_placement_in_field(
        &self,
        cards: Map<CardId, &Card>,
        card_id: CardId,
        dir: Direction,
        y: usize,
        x: usize,
        special: bool,
        player_id: PlayerId,
    )
        requires
            self.wf(),
            catalog_wf(cards),
            self.valid_for(cards, placement_action(card_id, dir, y, x, special), player_id),
        ensures
            y < self.field.height && x < self.field.width,
    {
        let g = rotated_by(cards[card_id].shape@, dir);
        lemma_rotate_keeps_filled(cards[card_id].shape@);
        lemma_rotate_keeps_filled(rotate_grid(cards[card_id].shape@));
        lemma_rotate_keeps_filled(rotate_grid(rotate_grid(cards[card_id].shape@)));
        let (i, j) = choose|i: int, j: int| filled_at(g, i, j);
        assert(filled_at(g, i, j));
        let q = lemma_reference_point_exists(g);
        lemma_ref_point_unique(g, q.0, q.1);
        let p = ref_point(g);
        assert(filled_at(g, p.0, p.1));
        assert(in_field(self.field@, y + p.0 - p.0, x + p.1 - p.1));
    }
}


} // verus!
