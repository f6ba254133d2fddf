//! Game parameters, the card catalog, the board, and the state of a game:
//! its construction and the end-of-game outcome.
use vstd::prelude::*;
use std::collections::HashMap;
use std::collections::VecDeque;
use crate::action::CardId;
use crate::shape::{
    card_decoder, decode_text, filled_at, filled_pred, grid_count, has_filled, is_bounding_box,
    lemma_trim_laws, lemma_trimmed_is_box, owner_pred, subgrid, trimmed,
    CardShape, CardSquareType, DecodeError, FieldShape, FieldSquareType, PlayerId,
};

verus! {

pub type FieldId = usize;

/// Why a game cannot be set up.
#[derive(PartialEq, Eq, Debug, Clone, Copy, Structural)]
pub enum ConfigurationError {
    /// `max_turn + hand_size > deck_size + 1`: a player's deck would run out.
    TurnLimitTooLarge,
    /// The number of decks differs from the number of players.
    DeckCountMismatch,
    /// A deck's length differs from the deck size.
    DeckSizeMismatch,
    /// A deck names a card that the catalog does not hold.
    UnknownCard,
}

/// The fixed parameters of one game.
pub struct Environment {
    pub player_size: usize,
    pub hand_size: usize,
    pub max_turn: usize,
    pub deck_size: usize,
    pub is_deplicated_pick_enabled: bool,
}

impl Environment {
    /// The decks never run out before the game ends.
    pub open spec fn wf(&self) -> bool {
        self.max_turn + self.hand_size <= self.deck_size + 1
    }

    pub fn new(
        player_size: usize,
        deck_size: usize,
        hand_size: usize,
        max_turn: usize,
        is_deplicated_pick_enabled: bool,
    ) -> (r: Result<Environment, ConfigurationError>)
        ensures
            max_turn + hand_size <= deck_size + 1 <==> r is Ok,
            r is Err ==> r == Err::<Environment, _>(ConfigurationError::TurnLimitTooLarge),
            r matches Ok(e) ==> e.wf() && e.player_size == player_size && e.deck_size == deck_size
                && e.hand_size == hand_size && e.max_turn == max_turn
                && e.is_deplicated_pick_enabled == is_deplicated_pick_enabled,
    {
        if max_turn as u128 + hand_size as u128 <= deck_size as u128 + 1 {
            Ok(Environment { player_size, hand_size, max_turn, deck_size, is_deplicated_pick_enabled })
        } else {
            Err(ConfigurationError::TurnLimitTooLarge)
        }
    }
}

/// A catalog entry: a card's shape, its cost in special points and its power.
#[derive(PartialEq, Eq, Debug, Hash)]
pub struct Card {
    pub id: CardId,
    pub name: String,
    pub cost: usize,
    pub power: usize,
    pub shape: CardShape,
}

impl Card {
    /// The shape is a grid with a filled square, cut down to the bounding box
    /// of its filled squares, and the power is its number of filled squares.
    pub open spec fn wf(&self) -> bool {
        &&& self.shape.wf()
        &&& has_filled(self.shape@)
        &&& trimmed(self.shape@) == self.shape@
        &&& self.power == grid_count(self.shape@, filled_pred())
    }

    /// A card whose shape is `shape` cut down to the bounding box of its filled
    /// squares, with the power derived from it.
    pub fn new(id: CardId, name: &str, cost: usize, shape: CardShape) -> (r: Card)
        requires
            shape.wf(),
            has_filled(shape@),
        ensures
            r.wf(),
            r.id == id,
            r.name@ == name@,
            r.cost == cost,
            r.shape@ == trimmed(shape@),
    {
        let ghost g = shape@;
        proof {
            lemma_trim_laws(g);
        }
        let shape = match CardShape::trim(&shape) {
            Some(t) => t,
            None => shape,
        };
        assert(has_filled(shape@)) by {
            let t = shape@;
            assert(is_bounding_box(t, 0, t.len() - 1, 0, t[0].len() - 1));
            let j = choose|j: int| filled_at(t, 0, j);
            assert(filled_at(t, 0, j));
        }
        let power = shape.count_colored_squares();
        Card { id, name: name.to_owned(), cost, power, shape }
    }
}

/// The squares of the sample card: rows `yyyyy`, `yyyYy`, `.y...` and `y....`.
pub open spec fn sample_card_squares() -> Seq<Seq<CardSquareType>> {
    let c = CardSquareType::Colored;
    let s = CardSquareType::Special;
    let e = CardSquareType::Empty;
    seq![seq![c, c, c, c, c], seq![c, c, c, s, c], seq![e, c, e, e, e], seq![c, e, e, e, e]]
}

impl Default for Card {
    /// A sample card of cost 5.
    fn default() -> (r: Card)
        ensures
            r.wf(),
            r.id == 1,
            r.cost == 5,
            r.shape@ == sample_card_squares(),
    {
        let c = CardSquareType::Colored;
        let s = CardSquareType::Special;
        let e = CardSquareType::Empty;
        let squares = vec![vec![c, c, c, c, c], vec![c, c, c, s, c], vec![e, c, e, e, e], vec![c, e, e, e, e]];
        let shape = CardShape { height: 4, width: 5, squares };
        let ghost g = sample_card_squares();
        assert(shape@ =~~= g);
        proof {
            assert(filled_at(g, 0, 0) && filled_at(g, 0, 4) && filled_at(g, 3, 0));
            assert forall|i: int, j: int| #[trigger] filled_at(g, i, j) implies 0 <= i <= 3 && 0 <= j <= 4 by {
                assert(0 <= i < g.len());
                assert(g[i].len() == 5);
            }
            assert(is_bounding_box(g, 0, 3, 0, 4));
            lemma_trimmed_is_box(g, 0, 3, 0, 4);
            assert(subgrid(g, 0, 3, 0, 4) =~~= g);
        }
        Card::new(1, "sample", 5, shape)
    }
}

impl Card {
    /// A catalog entry: the shape is decoded from its text, cut down to the
    /// bounding box of its filled squares, and the power is derived from it.
    pub fn from_text(id: CardId, name: &str, cost: usize, squares: &str) -> (r: Result<Card, DecodeError>)
        ensures
            match decode_text(squares@, card_decoder()) {
                Err(e) => r == Err::<Card, _>(e),
                Ok(g) => if has_filled(g) {
                    r matches Ok(c) && c.wf() && c.id == id && c.name@ == name@ && c.cost == cost
                        && c.shape@ == trimmed(g)
                } else {
                    r == Err::<Card, _>(DecodeError::Blank)
                },
            },
    {
        let seed = match CardShape::new(squares) {
            Ok(s) => s,
            Err(e) => return Err(e),
        };
        match CardShape::trim(&seed) {
            Some(shape) => {
                proof { crate::shape::lemma_trim_laws(seed@); }
                let ghost t = shape@;
                assert(has_filled(t)) by {
                    assert(crate::shape::is_bounding_box(t, 0, t.len() - 1, 0, t[0].len() - 1));
                    let j = choose|j: int| filled_at(t, 0, j);
                    assert(filled_at(t, 0, j));
                }
                Ok(Card::new(id, name, cost, shape))
            },
            None => Err(DecodeError::Blank),
        }
    }
}

/// A board to play on.
pub struct Field {
    pub id: FieldId,
    pub name: String,
    pub shape: FieldShape,
}

/// The standard board: 26 rows of 9 squares, all Empty but a Special square
/// of player 1 at row 3 and one of player 0 at row 22, both in column 4.
pub open spec fn default_field_squares() -> Seq<Seq<FieldSquareType>> {
    Seq::new(26, |a: int| Seq::new(9, |b: int|
        if a == 3 && b == 4 {
            FieldSquareType::Special { player_id: 1, activeted: false }
        } else if a == 22 && b == 4 {
            FieldSquareType::Special { player_id: 0, activeted: false }
        } else {
            FieldSquareType::Empty
        }))
}

impl Default for Field {
    fn default() -> (r: Field)
        ensures
            r.id == 1,
            r.shape.wf(),
            r.shape@ == default_field_squares(),
    {
        let mut squares: Vec<Vec<FieldSquareType>> = Vec::new();
        let mut a: usize = 0;
        while a < 26
            invariant
                a <= 26,
                squares@.len() == a,
                forall|i: int| 0 <= i < a ==> (#[trigger] squares@[i])@ == default_field_squares()[i],
            decreases 26 - a,
        {
            let mut row: Vec<FieldSquareType> = Vec::new();
            let mut b: usize = 0;
            while b < 9
                invariant
                    a < 26,
                    b <= 9,
                    row@ == default_field_squares()[a as int].take(b as int),
                decreases 9 - b,
            {
                let v = if a == 3 && b == 4 {
                    FieldSquareType::Special { player_id: 1, activeted: false }
                } else if a == 22 && b == 4 {
                    FieldSquareType::Special { player_id: 0, activeted: false }
                } else {
                    FieldSquareType::Empty
                };
                row.push(v);
                assert(row@ == default_field_squares()[a as int].take(b + 1));
                b = b + 1;
            }
            assert(row@ == default_field_squares()[a as int]);
            squares.push(row);
            a = a + 1;
        }
        let shape = FieldShape { height: 26, width: 9, squares };
        assert(shape@ =~= default_field_squares());
        Field { id: 1, name: "default".to_owned(), shape }
    }
}

/// Every card of the catalog is well formed.
pub open spec fn catalog_wf(cards: Map<CardId, &Card>) -> bool {
    forall|id: CardId| #[trigger] cards.contains_key(id) ==> cards[id].wf()
}

/// A deck of the right size whose cards are all in the catalog.
pub open spec fn deck_ok(env: Environment, cards: Map<CardId, &Card>, deck: Seq<CardId>) -> bool {
    &&& deck.len() == env.deck_size
    &&& forall|k: int| 0 <= k < deck.len() ==> cards.contains_key(#[trigger] deck[k])
}

/// Deck `p` is the first deck that is not good.
pub open spec fn first_bad_deck(env: Environment, cards: Map<CardId, &Card>, decks: Seq<Vec<CardId>>, p: int) -> bool {
    &&& 0 <= p < decks.len()
    &&& !deck_ok(env, cards, decks[p]@)
    &&& forall|q: int| 0 <= q < p ==> deck_ok(env, cards, #[trigger] decks[q]@)
}

/// One player's resources.
pub struct PlayerState {
    pub special_point: usize,
    pub hands: Vec<CardId>,
    pub deck: VecDeque<CardId>,
}

/// The state of one game between turns.
pub struct State {
    pub turn: usize,
    pub field: FieldShape,
    pub players: Vec<PlayerState>,
}

impl State {
    pub open spec fn wf(&self) -> bool {
        self.field.wf()
    }

    /// Deals each player's opening hand from the front of its deck. The decks
    /// are checked in order; the first bad one gives the error.
    pub fn new(
        env: &Environment,
        cards: &HashMap<CardId, &Card>,
        field: &Field,
        decks: &[Vec<CardId>],
    ) -> (r: Result<State, ConfigurationError>)
        requires
            env.wf(),
            field.shape.wf(),
        ensures
            r is Ok <==> (decks@.len() == env.player_size
                && forall|p: int| 0 <= p < decks@.len() ==> deck_ok(*env, cards@, #[trigger] decks@[p]@)),
            r == Err::<State, _>(ConfigurationError::DeckCountMismatch) <==> decks@.len() != env.player_size,
            r == Err::<State, _>(ConfigurationError::DeckSizeMismatch) <==> decks@.len() == env.player_size
                && exists|p: int| first_bad_deck(*env, cards@, decks@, p) && decks@[p]@.len() != env.deck_size,
            r == Err::<State, _>(ConfigurationError::UnknownCard) <==> decks@.len() == env.player_size
                && exists|p: int| first_bad_deck(*env, cards@, decks@, p) && decks@[p]@.len() == env.deck_size,
            r is Err ==> r != Err::<State, _>(ConfigurationError::TurnLimitTooLarge),
            r matches Ok(s) ==> {
                &&& s.wf()
                &&& s.turn == 1
                &&& s.field@ == field.shape@
                &&& s.players@.len() == env.player_size
                &&& forall|p: int| 0 <= p < s.players@.len() ==> {
                    let pl = #[trigger] s.players@[p];
                    let n = if env.hand_size <= env.deck_size { env.hand_size as int } else { env.deck_size as int };
                    &&& pl.special_point == 0
                    &&& pl.hands@ == decks@[p]@.take(n)
                    &&& pl.deck@ == decks@[p]@.skip(n)
                }
            },
    {
        broadcast use vstd::std_specs::hash::group_hash_axioms;
        if decks.len() != env.player_size {
            return Err(ConfigurationError::DeckCountMismatch);
        }
        let mut p: usize = 0;
        while p < decks.len()
            invariant
                p <= decks@.len(),
                decks@.len() == env.player_size,
                forall|q: int| 0 <= q < p ==> deck_ok(*env, cards@, #[trigger] decks@[q]@),
            decreases decks@.len() - p,
        {
            if decks[p].len() != env.deck_size {
                assert(first_bad_deck(*env, cards@, decks@, p as int));
                return Err(ConfigurationError::DeckSizeMismatch);
            }
            let mut k: usize = 0;
            while k < decks[p].len()
                invariant
                    p < decks@.len(),
                    decks@.len() == env.player_size,
                    decks@[p as int]@.len() == env.deck_size,
                    forall|q: int| 0 <= q < p ==> deck_ok(*env, cards@, #[trigger] decks@[q]@),
                    k <= decks@[p as int]@.len(),
                    forall|j: int| 0 <= j < k ==> cards@.contains_key(#[trigger] decks@[p as int]@[j]),
                decreases decks@[p as int]@.len() - k,
            {
                if !cards.contains_key(&decks[p][k]) {
                    assert(first_bad_deck(*env, cards@, decks@, p as int));
                    return Err(ConfigurationError::UnknownCard);
                }
                k = k + 1;
            }
            p = p + 1;
        }
        proof {
            assert forall|p: int| !first_bad_deck(*env, cards@, decks@, p) by {}
        }
        let n = if env.hand_size <= env.deck_size { env.hand_size } else { env.deck_size };
        let mut players: Vec<PlayerState> = Vec::new();
        let mut p: usize = 0;
        while p < decks.len()
            invariant
                p <= decks@.len(),
                decks@.len() == env.player_size,
                forall|q: int| 0 <= q < decks@.len() ==> (#[trigger] decks@[q])@.len() == env.deck_size,
                n <= env.deck_size,
                n == (if env.hand_size <= env.deck_size { env.hand_size } else { env.deck_size }),
                players@.len() == p,
                forall|q: int| 0 <= q < p ==> {
                    let pl = #[trigger] players@[q];
                    &&& pl.special_point == 0
                    &&& pl.hands@ == decks@[q]@.take(n as int)
                    &&& pl.deck@ == decks@[q]@.skip(n as int)
                },
            decreases decks@.len() - p,
        {
            let mut hands: Vec<CardId> = Vec::new();
            let mut deck: VecDeque<CardId> = VecDeque::new();
            let mut k: usize = 0;
            while k < decks[p].len()
                invariant
                    p < decks@.len(),
                    decks@[p as int]@.len() == env.deck_size,
                    n <= env.deck_size,
                    k <= env.deck_size,
                    k <= n ==> hands@ == decks@[p as int]@.take(k as int) && deck@.len() == 0,
                    k > n ==> hands@ == decks@[p as int]@.take(n as int)
                        && deck@ == decks@[p as int]@.subrange(n as int, k as int),
                decreases decks@[p as int]@.len() - k,
            {
                let c = decks[p][k];
                if k < n {
                    hands.push(c);
                    assert(decks@[p as int]@.take(k + 1) == decks@[p as int]@.take(k as int).push(c));
                } else {
                    deck.push_back(c);
                    assert(decks@[p as int]@.subrange(n as int, k + 1) == decks@[p as int]@.subrange(n as int, k as int).push(c));
                }
                k = k + 1;
            }
            assert(decks@[p as int]@.subrange(n as int, k as int) == decks@[p as int]@.skip(n as int));
            assert(decks@[p as int]@.skip(n as int).len() == 0 ==> deck@ == decks@[p as int]@.skip(n as int));
            players.push(PlayerState { special_point: 0, hands, deck });
            p = p + 1;
        }
        Ok(State { turn: 1, field: field.shape.duplicate(), players })
    }

    /// The game is over: the last turn has been played.
    pub fn is_done(&self, env: &Environment) -> (r: bool)
        ensures
            r == (self.turn > env.max_turn),
    {
        self.turn > env.max_turn
    }

    /// The game is over and the player owns more squares than the other.
    pub fn is_win(&self, env: &Environment, player_id: PlayerId) -> (r: bool)
        requires
            self.wf(),
            player_id <= 1,
        ensures
            r == (self.turn > env.max_turn && squares_of(self.field@, player_id as int) > squares_of(self.field@, 1 - player_id)),
    {
        self.is_done(env) && self.field.count_player(player_id) > self.field.count_player(1 - player_id)
    }

    /// The game is over and the player owns fewer squares than the other.
    pub fn is_lose(&self, env: &Environment, player_id: PlayerId) -> (r: bool)
        requires
            self.wf(),
            player_id <= 1,
        ensures
            r == (self.turn > env.max_turn && squares_of(self.field@, player_id as int) < squares_of(self.field@, 1 - player_id)),
    {
        self.is_done(env) && self.field.count_player(player_id) < self.field.count_player(1 - player_id)
    }

    /// The game is over and both players own as many squares.
    pub fn is_draw(&self, env: &Environment) -> (r: bool)
        requires
            self.wf(),
        ensures
            r == (self.turn > env.max_turn && squares_of(self.field@, 0) == squares_of(self.field@, 1)),
    {
        self.is_done(env) && self.field.count_player(0) == self.field.count_player(1)
    }
}

/// The number of squares of the field that the player owns.
pub open spec fn squares_of(field: Seq<Seq<FieldSquareType>>, player_id: int) -> nat {
    grid_count(field, owner_pred(player_id))
}

/// Once the game is over, exactly one of win, loss and draw holds for a player.
pub proof fn lemma_outcome_exclusive(s: &State, env: &Environment, player_id: PlayerId)
    requires
        s.wf(),
        player_id <= 1,
        s.turn > env.max_turn,
    ensures
        ({
            let me = squares_of(s.field@, player_id as int);
            let other = squares_of(s.field@, 1 - player_id);
            let draw = squares_of(s.field@, 0) == squares_of(s.field@, 1);
            &&& (me > other) || (me < other) || draw
            &&& !((me > other) && (me < other))
            &&& !((me > other) && draw)
            &&& !((me < other) && draw)
        }),
{
}


} // verus!
