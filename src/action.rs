//! Actions, directions and mulligan answers, with their text encoding.
use vstd::prelude::*;
use crate::text::{
    decimal, digits_value, is_number, is_sep, is_word, join_words, lemma_decimal_is_number,
    lemma_join_words_ends, lemma_trim_blanks_id, lemma_words_of_join, parse_number, push_decimal,
    split_words, split_words_in, trim_blanks, trim_blanks_exec, words, words_in,
};

verus! {

pub type CardId = usize;

/// A clockwise rotation of a card before it is placed: by 0, 90, 180 or 270 degrees.
#[derive(PartialEq, Eq, Debug, Clone, Copy, Structural)]
pub enum Direction {
    Up,
    Down,
    Right,
    Left,
}

/// The answer of a player to its opening hand.
#[derive(PartialEq, Eq, Debug, Clone, Copy, Structural)]
pub enum MulliganAction {
    Pass,
    Mulligan,
}

/// A move of one player in one turn.
#[derive(PartialEq, Eq, Debug, Clone, Copy, Structural)]
pub enum Action {
    Pass { card_id: CardId },
    Put { card_id: CardId, dir: Direction, y: usize, x: usize },
    SpecialPut { card_id: CardId, dir: Direction, y: usize, x: usize },
}

pub open spec fn action_card_id(a: Action) -> CardId {
    match a {
        Action::Pass { card_id } => card_id,
        Action::Put { card_id, .. } => card_id,
        Action::SpecialPut { card_id, .. } => card_id,
    }
}

impl Action {
    /// The card that the action uses (or discards, for a pass).
    pub fn get_card_id(&self) -> (r: CardId)
        ensures
            r == action_card_id(*self),
    {
        match self {
            Action::Pass { card_id } => *card_id,
            Action::Put { card_id, .. } => *card_id,
            Action::SpecialPut { card_id, .. } => *card_id,
        }
    }
}

pub open spec fn direction_word(d: Direction) -> Seq<char> {
    match d {
        Direction::Up => "U"@,
        Direction::Down => "D"@,
        Direction::Right => "R"@,
        Direction::Left => "L"@,
    }
}

pub open spec fn direction_of_word(w: Seq<char>) -> Option<Direction> {
    if w == "U"@ {
        Some(Direction::Up)
    } else if w == "D"@ {
        Some(Direction::Down)
    } else if w == "R"@ {
        Some(Direction::Right)
    } else if w == "L"@ {
        Some(Direction::Left)
    } else {
        None
    }
}

/// The words of an action's text encoding.
pub open spec fn action_words(a: Action) -> Seq<Seq<char>> {
    match a {
        Action::Pass { card_id } => seq!["PASS"@, decimal(card_id as nat)],
        Action::Put { card_id, dir, y, x } => seq![
            "PUT"@,
            decimal(card_id as nat),
            direction_word(dir),
            decimal(y as nat),
            decimal(x as nat),
        ],
        Action::SpecialPut { card_id, dir, y, x } => seq![
            "SPECIAL_PUT"@,
            decimal(card_id as nat),
            direction_word(dir),
            decimal(y as nat),
            decimal(x as nat),
        ],
    }
}

/// An action's text: `PASS <id>`, `PUT <id> <U|D|R|L> <y> <x>` or
/// `SPECIAL_PUT <id> <U|D|R|L> <y> <x>`.
pub open spec fn action_text(a: Action) -> Seq<char> {
    join_words(action_words(a))
}

/// The action that a sequence of words encodes, if any.
pub open spec fn action_of_words(w: Seq<Seq<char>>) -> Option<Action> {
    if w.len() == 2 && w[0] == "PASS"@ && is_number(w[1]) {
        Some(Action::Pass { card_id: digits_value(w[1]) as usize })
    } else if w.len() == 5 && (w[0] == "PUT"@ || w[0] == "SPECIAL_PUT"@) && is_number(w[1])
        && direction_of_word(w[2]) is Some && is_number(w[3]) && is_number(w[4]) {
        let card_id = digits_value(w[1]) as usize;
        let dir = direction_of_word(w[2])->0;
        let y = digits_value(w[3]) as usize;
        let x = digits_value(w[4]) as usize;
        if w[0] == "PUT"@ {
            Some(Action::Put { card_id, dir, y, x })
        } else {
            Some(Action::SpecialPut { card_id, dir, y, x })
        }
    } else {
        None
    }
}

/// The action that a text encodes, if any: the text is trimmed of the blanks
/// around it, and its words are separated by runs of spaces.
pub open spec fn parse_action(s: Seq<char>) -> Option<Action> {
    action_of_words(words_in(trim_blanks(s), true))
}

/// Whether a word equals a literal.
pub fn word_is(w: &Vec<char>, lit: &str) -> (r: bool)
    ensures
        r == (w@ == lit@),
{
    let n = lit.unicode_len();
    if w.len() != n {
        return false;
    }
    let mut i: usize = 0;
    while i < n
        invariant
            n == lit@.len(),
            w@.len() == n,
            i <= n,
            forall|k: int| 0 <= k < i ==> w@[k] == lit@[k],
        decreases n - i,
    {
        if w[i] != lit.get_char(i) {
            return false;
        }
        i = i + 1;
    }
    assert(w@ == lit@);
    true
}

fn direction_from_word(w: &Vec<char>) -> (r: Option<Direction>)
    ensures
        r == direction_of_word(w@),
{
    if word_is(w, "U") {
        Some(Direction::Up)
    } else if word_is(w, "D") {
        Some(Direction::Down)
    } else if word_is(w, "R") {
        Some(Direction::Right)
    } else if word_is(w, "L") {
        Some(Direction::Left)
    } else {
        None
    }
}

impl Direction {
    /// The letter of the direction in the text encoding.
    pub fn to_text(&self) -> (r: &'static str)
        ensures
            r@ == direction_word(*self),
    {
        match self {
            Direction::Up => "U",
            Direction::Down => "D",
            Direction::Right => "R",
            Direction::Left => "L",
        }
    }

    /// Decodes a direction letter.
    pub fn from_text(s: &str) -> (r: Option<Direction>)
        ensures
            r == (if words(s@).len() == 1 { direction_of_word(words(s@)[0]) } else { None::<Direction> }),
    {
        let w = split_words(s);
        if w.len() != 1 {
            return None;
        }
        assert(w@.map_values(|v: Vec<char>| v@)[0] == w@[0]@);
        direction_from_word(&w[0])
    }
}

pub open spec fn mulligan_word(m: MulliganAction) -> Seq<char> {
    match m {
        MulliganAction::Pass => "PASS"@,
        MulliganAction::Mulligan => "MULLIGAN"@,
    }
}

impl MulliganAction {
    pub fn to_text(&self) -> (r: &'static str)
        ensures
            r@ == mulligan_word(*self),
    {
        match self {
            MulliganAction::Pass => "PASS",
            MulliganAction::Mulligan => "MULLIGAN",
        }
    }

    /// Decodes `PASS` or `MULLIGAN`, with blanks around it allowed.
    pub fn from_text(s: &str) -> (r: Option<MulliganAction>)
        ensures
            r == (if words(s@) == seq!["PASS"@] {
                Some(MulliganAction::Pass)
            } else if words(s@) == seq!["MULLIGAN"@] {
                Some(MulliganAction::Mulligan)
            } else {
                None::<MulliganAction>
            }),
    {
        let w = split_words(s);
        let ghost wv = w@.map_values(|v: Vec<char>| v@);
        assert(wv == words(s@));
        if w.len() != 1 {
            assert(seq!["PASS"@].len() == 1 && seq!["MULLIGAN"@].len() == 1);
            return None;
        }
        assert(wv[0] == w@[0]@);
        if word_is(&w[0], "PASS") {
            assert(wv =~= seq!["PASS"@]);
            Some(MulliganAction::Pass)
        } else if word_is(&w[0], "MULLIGAN") {
            assert(wv =~= seq!["MULLIGAN"@]);
            Some(MulliganAction::Mulligan)
        } else {
            None
        }
    }
}

impl Action {
    /// The text encoding of the action.
    pub fn to_text(&self) -> (r: String)
        ensures
            r@ == action_text(*self),
    {
        let mut s = String::new();
        match self {
            Action::Pass { card_id } => {
                s.append("PASS");
                s.append(" ");
                push_decimal(&mut s, *card_id);
                proof {
                    reveal_strlit(" ");
                    let ws = action_words(*self);
                    assert(ws.drop_last() =~= seq![ws[0]]);
                    assert(join_words(ws.drop_last()) == ws[0]);
                }
            },
            Action::Put { card_id, dir, y, x } | Action::SpecialPut { card_id, dir, y, x } => {
                if let Action::Put { .. } = self {
                    s.append("PUT");
                } else {
                    s.append("SPECIAL_PUT");
                }
                proof { reveal_strlit(" "); }
                let ghost ws = action_words(*self);
                assert(ws.take(1) =~= seq![ws[0]]);
                assert(s@ == join_words(ws.take(1)));
                s.append(" ");
                push_decimal(&mut s, *card_id);
                assert(ws.take(2).drop_last() =~= ws.take(1));
                assert(s@ =~= join_words(ws.take(2)));
                s.append(" ");
                s.append(dir.to_text());
                assert(ws.take(3).drop_last() =~= ws.take(2));
                assert(s@ =~= join_words(ws.take(3)));
                s.append(" ");
                push_decimal(&mut s, *y);
                assert(ws.take(4).drop_last() =~= ws.take(3));
                assert(s@ =~= join_words(ws.take(4)));
                s.append(" ");
                push_decimal(&mut s, *x);
                assert(ws.drop_last() =~= ws.take(4));
                assert(s@ =~= join_words(ws));
            },
        }
        s
    }

    /// Decodes the text encoding of an action; `None` where the text encodes none.
    pub fn from_text(s: &str) -> (r: Option<Action>)
        ensures
            r == parse_action(s@),
    {
        let cs = crate::shape::chars_of(s);
        let t = trim_blanks_exec(&cs);
        let w = split_words_in(&t, true);
        let ghost wv = w@.map_values(|v: Vec<char>| v@);
        assert(wv == words_in(trim_blanks(s@), true));
        if w.len() == 2 && word_is(&w[0], "PASS") {
            assert(wv[0] == w@[0]@ && wv[1] == w@[1]@);
            match parse_number(&w[1]) {
                Some(card_id) => Some(Action::Pass { card_id }),
                None => None,
            }
        } else if w.len() == 5 {
            assert(wv[0] == w@[0]@ && wv[1] == w@[1]@ && wv[2] == w@[2]@ && wv[3] == w@[3]@ && wv[4] == w@[4]@);
            let is_put = word_is(&w[0], "PUT");
            let is_special = word_is(&w[0], "SPECIAL_PUT");
            if !is_put && !is_special {
                return None;
            }
            let card_id = match parse_number(&w[1]) {
                Some(v) => v,
                None => return None,
            };
            let dir = match direction_from_word(&w[2]) {
                Some(d) => d,
                None => return None,
            };
            let y = match parse_number(&w[3]) {
                Some(v) => v,
                None => return None,
            };
            let x = match parse_number(&w[4]) {
                Some(v) => v,
                None => return None,
            };
            if is_put {
                Some(Action::Put { card_id, dir, y, x })
            } else {
                Some(Action::SpecialPut { card_id, dir, y, x })
            }
        } else {
            proof {
                if w.len() == 2 {
                    assert(wv[0] == w@[0]@);
                }
            }
            None
        }
    }
}

proof fn lemma_decimal_word(n: nat)
    ensures
        is_word(decimal(n)),
        is_number(decimal(n)) <==> n <= usize::MAX,
        digits_value(decimal(n)) == n,
{
    lemma_decimal_is_number(n);
}

/// Decoding the text of an action gives back the action.
pub proof fn lemma_action_text_round_trip(a: Action)
    ensures
        parse_action(action_text(a)) == Some(a),
{
    reveal_strlit("PASS");
    reveal_strlit("PUT");
    reveal_strlit("SPECIAL_PUT");
    reveal_strlit("U");
    reveal_strlit("D");
    reveal_strlit("R");
    reveal_strlit("L");
    let ws = action_words(a);
    assert("PASS"@.len() == 4 && "PUT"@.len() == 3 && "SPECIAL_PUT"@.len() == 11);
    assert("U"@[0] == 'U' && "D"@[0] == 'D' && "R"@[0] == 'R' && "L"@[0] == 'L');
    assert("U"@ != "D"@ && "U"@ != "R"@ && "U"@ != "L"@);
    assert("D"@ != "R"@ && "D"@ != "L"@ && "R"@ != "L"@);
    match a {
        Action::Pass { card_id } => {
            lemma_decimal_word(card_id as nat);
        },
        Action::Put { card_id, dir, y, x } | Action::SpecialPut { card_id, dir, y, x } => {
            lemma_decimal_word(card_id as nat);
            lemma_decimal_word(y as nat);
            lemma_decimal_word(x as nat);
            assert(direction_of_word(direction_word(dir)) == Some(dir));
        },
    }
    assert(forall|i: int| 0 <= i < ws.len() ==> is_word(#[trigger] ws[i]));
    lemma_words_of_join(ws, true);
    lemma_join_words_ends(ws);
    let t = action_text(a);
    assert(!is_sep(t[0])) by {
        assert("PASS"@[0] == 'P' && "PUT"@[0] == 'P' && "SPECIAL_PUT"@[0] == 'S');
    }
    assert(!is_sep(t.last())) by {
        assert(is_word(ws.last()));
        assert(!is_sep(ws.last()[ws.last().len() - 1]));
    }
    lemma_trim_blanks_id(t);
    assert(action_of_words(ws) == Some(a));
}

} // verus!
