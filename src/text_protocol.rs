//! The line protocol between the judge and the players: the initial input,
//! the turn input, and lines of numbers.
use vstd::prelude::*;
use crate::action::{action_text, Action};
use crate::game::{Card, Environment, Field, State};
use crate::shape::{
    card_decoder, card_text, decode_rows, field_decoder, field_text, filled_pred, grid_count,
    join_lines, lemma_join_push, lines, split_lines, CardShape, CardSquareType, FieldShape,
    FieldSquareType,
};
use crate::text::{
    decimal, digits_value, is_number, join_words, parse_number, push_decimal, split_words_of,
    words,
};

verus! {

/// The numbers on a line of blank-separated decimal numbers; `None` where a
/// word is not a number that fits in a `usize`.
pub open spec fn numbers_of(s: Seq<char>) -> Option<Seq<usize>> {
    let ws = words(s);
    if forall|i: int| 0 <= i < ws.len() ==> is_number(#[trigger] ws[i]) {
        Some(Seq::new(ws.len(), |i: int| digits_value(ws[i]) as usize))
    } else {
        None
    }
}

/// Reads a line of card ids (or any blank-separated numbers).
pub fn read_hands(line: &str) -> (r: Option<Vec<usize>>)
    ensures
        match r {
            Some(v) => numbers_of(line@) == Some(v@),
            None => numbers_of(line@) is None,
        },
{
    let cs = crate::shape::chars_of(line);
    numbers_in(&cs)
}

/// Reads the blank-separated numbers of a line.
pub fn numbers_in(line: &Vec<char>) -> (r: Option<Vec<usize>>)
    ensures
        match r {
            Some(v) => numbers_of(line@) == Some(v@),
            None => numbers_of(line@) is None,
        },
{
    let ws = split_words_of(line);
    let ghost wv = ws@.map_values(|w: Vec<char>| w@);
    let mut v: Vec<usize> = Vec::new();
    let mut i: usize = 0;
    while i < ws.len()
        invariant
            wv == ws@.map_values(|w: Vec<char>| w@),
            wv == words(line@),
            i <= ws@.len(),
            v@.len() == i,
            forall|k: int| 0 <= k < i ==> is_number(#[trigger] wv[k]) && v@[k] == digits_value(wv[k]) as usize,
        decreases ws@.len() - i,
    {
        assert(wv[i as int] == ws@[i as int]@);
        match parse_number(&ws[i]) {
            Some(n) => v.push(n),
            None => return None,
        }
        i = i + 1;
    }
    assert(v@ =~= Seq::new(wv.len(), |k: int| digits_value(wv[k]) as usize));
    Some(v)
}


/// Numbers written in decimal, separated by single spaces.
pub open spec fn numbers_line(ns: Seq<usize>) -> Seq<char> {
    join_words(ns.map_values(|n: usize| decimal(n as nat)))
}

/// Appends the numbers in decimal, separated by single spaces.
pub fn push_numbers(s: &mut String, ns: &Vec<usize>)
    ensures
        final(s)@ == old(s)@ + numbers_line(ns@),
{
    let ghost s0 = s@;
    let ghost ws = ns@.map_values(|n: usize| decimal(n as nat));
    let mut i: usize = 0;
    while i < ns.len()
        invariant
            i <= ns@.len(),
            ws == ns@.map_values(|n: usize| decimal(n as nat)),
            s@ == s0 + join_words(ws.take(i as int)),
        decreases ns@.len() - i,
    {
        proof { reveal_strlit(" "); }
        let ghost s1 = s@;
        if i > 0 {
            s.append(" ");
        }
        push_decimal(s, ns[i]);
        proof {
            assert(ws.take(i + 1).drop_last() == ws.take(i as int));
            assert(ws.take(i + 1).last() == decimal(ns@[i as int] as nat));
            if i == 0 {
                assert(ws.take(1) == seq![ws[0]]);
            } else {
                assert(s@ == s1 + seq![' '] + decimal(ns@[i as int] as nat));
            }
        }
        i = i + 1;
    }
    assert(ws.take(i as int) == ws);
}

/// The lines of a card's entry in the initial input: `id cost height width`, then its rows.
pub open spec fn card_block(c: Card) -> Seq<char> {
    numbers_line(seq![c.id, c.cost, c.shape.height, c.shape.width]) + seq!['\n'] + card_text(c.shape@)
}

/// The entries of the cards, one after the other.
pub open spec fn cards_info(cards: Seq<Card>) -> Seq<char> {
    join_lines(cards.map_values(|c: Card| card_block(c)))
}

/// The initial input sent to each player: the parameters, the field and the cards.
pub open spec fn initial_input_text(env: Environment, cards: Seq<Card>, field: Field) -> Seq<char> {
    join_lines(seq![
        numbers_line(seq![env.player_size, env.deck_size, env.hand_size, env.max_turn,
            if env.is_deplicated_pick_enabled { 1usize } else { 0usize }]),
        numbers_line(seq![field.shape.height, field.shape.width]),
        field_text(field.shape@),
        decimal(cards.len() as nat),
        cards_info(cards),
    ]) + seq!['\n']
}

/// The text after five lines are joined.
proof fn lemma_join_five(l: Seq<Seq<char>>)
    requires
        l.len() == 5,
    ensures
        join_lines(l) == l[0] + seq!['\n'] + l[1] + seq!['\n'] + l[2] + seq!['\n'] + l[3] + seq!['\n'] + l[4],
{
    let l1 = seq![l[0]];
    assert(join_lines(l1) == l[0]);
    lemma_join_push(l1, l[1]);
    lemma_join_push(l1.push(l[1]), l[2]);
    lemma_join_push(l1.push(l[1]).push(l[2]), l[3]);
    lemma_join_push(l1.push(l[1]).push(l[2]).push(l[3]), l[4]);
    assert(l1.push(l[1]).push(l[2]).push(l[3]).push(l[4]) =~= l);
}

proof fn lemma_join_six(l: Seq<Seq<char>>)
    requires
        l.len() == 6,
    ensures
        join_lines(l) == l[0] + seq!['\n'] + l[1] + seq!['\n'] + l[2] + seq!['\n'] + l[3] + seq!['\n'] + l[4] + seq!['\n'] + l[5],
{
    lemma_join_five(l.drop_last());
    lemma_join_push(l.drop_last(), l[5]);
    assert(l.drop_last().push(l[5]) =~= l);
}

/// Appends `\n`.
fn push_newline(s: &mut String)
    ensures
        final(s)@ == old(s)@ + seq!['\n'],
{
    proof { reveal_strlit("\n"); }
    s.append("\n");
}

/// Writes the initial input for the players.
pub fn format_initial_input(env: &Environment, cards: &Vec<Card>, field: &Field) -> (r: String)
    requires
        field.shape.wf(),
        forall|k: int| 0 <= k < cards@.len() ==> (#[trigger] cards@[k]).wf(),
    ensures
        r@ == initial_input_text(*env, cards@, *field),
{
    let mut s = String::new();
    let mut head: Vec<usize> = Vec::new();
    head.push(env.player_size);
    head.push(env.deck_size);
    head.push(env.hand_size);
    head.push(env.max_turn);
    head.push(if env.is_deplicated_pick_enabled { 1 } else { 0 });
    push_numbers(&mut s, &head);
    push_newline(&mut s);
    let mut size: Vec<usize> = Vec::new();
    size.push(field.shape.height);
    size.push(field.shape.width);
    push_numbers(&mut s, &size);
    push_newline(&mut s);
    let ft = field.shape.to_text();
    s.append(ft.as_str());
    push_newline(&mut s);
    push_decimal(&mut s, cards.len());
    push_newline(&mut s);
    let ghost before_cards = s@;
    let ghost blocks = cards@.map_values(|c: Card| card_block(c));
    let mut i: usize = 0;
    while i < cards.len()
        invariant
            i <= cards@.len(),
            forall|k: int| 0 <= k < cards@.len() ==> (#[trigger] cards@[k]).wf(),
            blocks == cards@.map_values(|c: Card| card_block(c)),
            s@ == before_cards + join_lines(blocks.take(i as int)),
        decreases cards@.len() - i,
    {
        let ghost s1 = s@;
        if i > 0 {
            push_newline(&mut s);
        }
        let ghost s2 = s@;
        let c = &cards[i];
        let mut nums: Vec<usize> = Vec::new();
        nums.push(c.id);
        nums.push(c.cost);
        nums.push(c.shape.height);
        nums.push(c.shape.width);
        push_numbers(&mut s, &nums);
        push_newline(&mut s);
        let ct = c.shape.to_text();
        s.append(ct.as_str());
        proof {
            assert(nums@ =~= seq![c.id, c.cost, c.shape.height, c.shape.width]);
            assert(s@ == s2 + card_block(*c));
            assert(blocks.take(i + 1).drop_last() == blocks.take(i as int));
            assert(blocks.take(i + 1).last() == card_block(*c));
            if i == 0 {
                assert(blocks.take(1) == seq![blocks[0]]);
            }
        }
        i = i + 1;
    }
    assert(blocks.take(i as int) == blocks);
    push_newline(&mut s);
    proof {
        assert(head@ =~= seq![env.player_size, env.deck_size, env.hand_size, env.max_turn,
            if env.is_deplicated_pick_enabled { 1usize } else { 0usize }]);
        assert(size@ =~= seq![field.shape.height, field.shape.width]);
        let l = seq![
            numbers_line(head@),
            numbers_line(size@),
            field_text(field.shape@),
            decimal(cards@.len() as nat),
            cards_info(cards@),
        ];
        lemma_join_five(l);
    }
    s
}

/// What a player is told at the start of a turn: the turn, the special points
/// of all players, the field, the player's hand, and its legal actions, one per line.
pub open spec fn turn_input_text(state: State, actions: Seq<Action>, player_id: int) -> Seq<char> {
    join_lines(seq![
        decimal(state.turn as nat),
        numbers_line(state.players@.map_values(|p: crate::game::PlayerState| p.special_point)),
        field_text(state.field@),
        numbers_line(state.players@[player_id].hands@),
        decimal(actions.len() as nat),
        join_lines(actions.map_values(|a: Action| action_text(a))),
    ]) + seq!['\n']
}

/// Writes a player's turn input, with the legal actions given.
pub fn format_turn_input(state: &State, actions: &Vec<Action>, player_id: usize) -> (r: String)
    requires
        state.wf(),
        player_id < state.players@.len(),
    ensures
        r@ == turn_input_text(*state, actions@, player_id as int),
{
    let mut s = String::new();
    push_decimal(&mut s, state.turn);
    push_newline(&mut s);
    let mut points: Vec<usize> = Vec::new();
    let mut p: usize = 0;
    while p < state.players.len()
        invariant
            p <= state.players@.len(),
            points@ =~= state.players@.take(p as int).map_values(|q: crate::game::PlayerState| q.special_point),
        decreases state.players@.len() - p,
    {
        points.push(state.players[p].special_point);
        assert(state.players@.take(p + 1) == state.players@.take(p as int).push(state.players@[p as int]));
        p = p + 1;
    }
    assert(state.players@.take(p as int) == state.players@);
    push_numbers(&mut s, &points);
    push_newline(&mut s);
    let ft = state.field.to_text();
    s.append(ft.as_str());
    push_newline(&mut s);
    push_numbers(&mut s, &state.players[player_id].hands);
    push_newline(&mut s);
    push_decimal(&mut s, actions.len());
    push_newline(&mut s);
    let ghost before = s@;
    let ghost texts = actions@.map_values(|a: Action| action_text(a));
    let mut i: usize = 0;
    while i < actions.len()
        invariant
            i <= actions@.len(),
            texts == actions@.map_values(|a: Action| action_text(a)),
            s@ == before + join_lines(texts.take(i as int)),
        decreases actions@.len() - i,
    {
        let ghost s1 = s@;
        if i > 0 {
            push_newline(&mut s);
        }
        let t = actions[i].to_text();
        s.append(t.as_str());
        proof {
            assert(texts.take(i + 1).drop_last() == texts.take(i as int));
            assert(texts.take(i + 1).last() == action_text(actions@[i as int]));
            if i == 0 {
                assert(texts.take(1) == seq![texts[0]]);
            }
        }
        i = i + 1;
    }
    assert(texts.take(i as int) == texts);
    push_newline(&mut s);
    proof {
        let l = seq![
            decimal(state.turn as nat),
            numbers_line(points@),
            field_text(state.field@),
            numbers_line(state.players@[player_id as int].hands@),
            decimal(actions@.len() as nat),
            join_lines(texts),
        ];
        lemma_join_six(l);
    }
    s
}


/// Words run together.
pub open spec fn concat_words(ws: Seq<Seq<char>>) -> Seq<char>
    decreases ws.len(),
{
    if ws.len() == 0 {
        Seq::empty()
    } else {
        concat_words(ws.drop_last()) + ws.last()
    }
}

/// A row of a field or card as written on a line: its words run together.
pub open spec fn row_of(line: Seq<char>) -> Seq<char> {
    concat_words(words(line))
}

/// The rows written on the `n` lines from line `start` on.
pub open spec fn rows_at(ls: Seq<Seq<char>>, start: int, n: int) -> Seq<Seq<char>> {
    Seq::new(n as nat, |i: int| row_of(ls[start + i]))
}

/// The card entry at line `pos`: a line `id cost height width`, then `height`
/// rows. Gives the id, the cost, the shape and the line after the entry.
pub open spec fn card_entry(ls: Seq<Seq<char>>, pos: int) -> Option<(usize, usize, Seq<Seq<CardSquareType>>, int)> {
    if 0 <= pos < ls.len() && numbers_of(ls[pos]) is Some && numbers_of(ls[pos])->0.len() >= 4 {
        let h = numbers_of(ls[pos])->0;
        let end = pos + 1 + h[2];
        if end <= ls.len() {
            match decode_rows(rows_at(ls, pos + 1, h[2] as int), card_decoder()) {
                Ok(g) => Some((h[0], h[1], g, end)),
                Err(_) => None,
            }
        } else {
            None
        }
    } else {
        None
    }
}

/// `n` card entries from line `pos` on.
pub open spec fn card_entries(ls: Seq<Seq<char>>, pos: int, n: nat) -> Option<Seq<(usize, usize, Seq<Seq<CardSquareType>>)>>
    decreases n,
{
    if n == 0 {
        Some(Seq::empty())
    } else {
        match card_entry(ls, pos) {
            None => None,
            Some((id, cost, g, next)) => match card_entries(ls, next, (n - 1) as nat) {
                None => None,
                Some(rest) => Some(seq![(id, cost, g)] + rest),
            },
        }
    }
}

/// What the initial input says: player count, deck size, hand size, turn
/// limit, duplicate flag, field height and width, the field, and each card's
/// id, cost and shape.
pub type InitialView = (Seq<usize>, bool, usize, usize, Seq<Seq<FieldSquareType>>, Seq<(usize, usize, Seq<Seq<CardSquareType>>)>);

/// The initial input: a line `players deck_size hand_size max_turn duplicate`,
/// a line `height width`, the field rows, a line with the number of cards,
/// then the card entries. Lines after the last entry are not read.
pub open spec fn parse_initial_input(ls: Seq<Seq<char>>) -> Option<InitialView> {
    if ls.len() >= 3 && numbers_of(ls[0]) is Some && numbers_of(ls[0])->0.len() >= 5
        && numbers_of(ls[1]) is Some && numbers_of(ls[1])->0.len() >= 2 {
        let p = numbers_of(ls[0])->0;
        let y = numbers_of(ls[1])->0[0];
        let x = numbers_of(ls[1])->0[1];
        if 2 + y < ls.len() {
            match decode_rows(rows_at(ls, 2, y as int), field_decoder()) {
                Ok(field) => if field[0].len() == x && numbers_of(ls[2 + y]) is Some
                    && numbers_of(ls[2 + y])->0.len() >= 1 {
                    match card_entries(ls, 3 + y, numbers_of(ls[2 + y])->0[0] as nat) {
                        Some(cards) => Some((p.take(4), p[4] == 1, y, x, field, cards)),
                        None => None,
                    }
                } else {
                    None
                },
                Err(_) => None,
            }
        } else {
            None
        }
    } else {
        None
    }
}

/// The game's parameters, field and cards, as the players receive them.
pub struct InitialInput {
    pub player_size: usize,
    pub deck_size: usize,
    pub hand_size: usize,
    pub max_turn: usize,
    pub is_deplicated_pick_enabled: bool,
    pub field_size_y: usize,
    pub field_size_x: usize,
    pub field: FieldShape,
    pub cards: Vec<Card>,
}

impl InitialInput {
    pub open spec fn view_of(&self) -> InitialView {
        (
            seq![self.player_size, self.deck_size, self.hand_size, self.max_turn],
            self.is_deplicated_pick_enabled,
            self.field_size_y,
            self.field_size_x,
            self.field@,
            self.cards@.map_values(|c: Card| (c.id, c.cost, c.shape@)),
        )
    }
}

/// Runs the words of a line together.
fn row_from_line(line: &Vec<char>) -> (r: Vec<char>)
    ensures
        r@ == row_of(line@),
{
    let ws = split_words_of(line);
    let ghost wv = ws@.map_values(|w: Vec<char>| w@);
    let mut r: Vec<char> = Vec::new();
    let mut k: usize = 0;
    while k < ws.len()
        invariant
            wv == ws@.map_values(|w: Vec<char>| w@),
            k <= ws@.len(),
            r@ == concat_words(wv.take(k as int)),
        decreases ws@.len() - k,
    {
        let ghost r0 = r@;
        let mut j: usize = 0;
        while j < ws[k].len()
            invariant
                k < ws@.len(),
                j <= ws@[k as int]@.len(),
                r@ == r0 + ws@[k as int]@.take(j as int),
            decreases ws@[k as int]@.len() - j,
        {
            r.push(ws[k][j]);
            assert(ws@[k as int]@.take(j + 1) == ws@[k as int]@.take(j as int).push(ws@[k as int]@[j as int]));
            j = j + 1;
        }
        assert(ws@[k as int]@.take(j as int) == ws@[k as int]@);
        assert(wv.take(k + 1).drop_last() == wv.take(k as int));
        assert(wv.take(k + 1).last() == wv[k as int]);
        k = k + 1;
    }
    assert(wv.take(k as int) == wv);
    r
}

/// The rows written on `n` lines from line `start` on.
fn rows_from(ls: &Vec<Vec<char>>, start: usize, n: usize) -> (r: Vec<Vec<char>>)
    requires
        start + n <= ls@.len(),
    ensures
        r@.map_values(|v: Vec<char>| v@) == rows_at(ls@.map_values(|v: Vec<char>| v@), start as int, n as int),
{
    let ghost lv = ls@.map_values(|v: Vec<char>| v@);
    let mut r: Vec<Vec<char>> = Vec::new();
    let len = ls.len();
    let mut i: usize = 0;
    while i < n
        invariant
            len == ls@.len(),
            start + n <= ls@.len(),
            lv == ls@.map_values(|v: Vec<char>| v@),
            i <= n,
            r@.len() == i,
            forall|k: int| 0 <= k < i ==> (#[trigger] r@[k])@ == row_of(lv[start + k]),
        decreases n - i,
    {
        assert(lv[start + i] == ls@[start + i]@);
        let row = row_from_line(&ls[start + i]);
        r.push(row);
        i = i + 1;
    }
    assert(r@.map_values(|v: Vec<char>| v@) =~= rows_at(lv, start as int, n as int));
    r
}

/// Reads the initial input that the players receive. `None` where the text
/// does not hold one.
pub fn read_initial_input(text: &str) -> (r: Option<InitialInput>)
    ensures
        match r {
            Some(ii) => {
                &&& parse_initial_input(lines(text@)) == Some(ii.view_of())
                &&& ii.field.wf()
                &&& forall|k: int| 0 <= k < ii.cards@.len() ==> {
                    &&& (#[trigger] ii.cards@[k]).shape.wf()
                    &&& ii.cards@[k].power == grid_count(ii.cards@[k].shape@, filled_pred())
                    &&& ii.cards@[k].name@ == Seq::<char>::empty()
                }
            },
            None => parse_initial_input(lines(text@)) is None,
        },
{
    let ls = split_lines(text);
    let ghost lv = ls@.map_values(|v: Vec<char>| v@);
    assert(lv == lines(text@));
    if ls.len() < 3 {
        return None;
    }
    assert(lv[0] == ls@[0]@ && lv[1] == ls@[1]@);
    let p = match numbers_in(&ls[0]) {
        Some(p) => p,
        None => return None,
    };
    let sz = match numbers_in(&ls[1]) {
        Some(v) => v,
        None => return None,
    };
    if p.len() < 5 || sz.len() < 2 {
        return None;
    }
    let y = sz[0];
    let x = sz[1];
    if y >= ls.len() - 2 {
        return None;
    }
    let rows = rows_from(&ls, 2, y);
    let field = match FieldShape::from_rows(&rows) {
        Ok(f) => f,
        Err(_) => return None,
    };
    if field.width != x {
        return None;
    }
    assert(lv[2 + y] == ls@[2 + y]@);
    let nn = match numbers_in(&ls[2 + y]) {
        Some(v) => v,
        None => return None,
    };
    if nn.len() < 1 {
        return None;
    }
    let n = nn[0];
    let ghost n0 = n as nat;
    let ghost pos0 = 3 + y as int;
    let ghost head = (p@.take(4), p@[4] == 1, y, x, field@);
    assert(parse_initial_input(lv) == match card_entries(lv, pos0, n0) {
        Some(cs) => Some((head.0, head.1, head.2, head.3, head.4, cs)),
        None => None::<InitialView>,
    });
    let mut cards: Vec<Card> = Vec::new();
    let mut pos: usize = 3 + y;
    let mut k: usize = 0;
    while k < n
        invariant
            lv == ls@.map_values(|v: Vec<char>| v@),
            lv == lines(text@),
            parse_initial_input(lv) == match card_entries(lv, pos0, n0) {
                Some(cs) => Some((head.0, head.1, head.2, head.3, head.4, cs)),
                None => None::<InitialView>,
            },
            k <= n,
            n0 == n,
            pos <= ls@.len(),
            card_entries(lv, pos0, n0) == match card_entries(lv, pos as int, (n - k) as nat) {
                Some(rest) => Some(cards@.map_values(|c: Card| (c.id, c.cost, c.shape@)) + rest),
                None => None::<Seq<(usize, usize, Seq<Seq<CardSquareType>>)>>,
            },
            forall|j: int| 0 <= j < cards@.len() ==> {
                &&& (#[trigger] cards@[j]).shape.wf()
                &&& cards@[j].power == grid_count(cards@[j].shape@, filled_pred())
                &&& cards@[j].name@ == Seq::<char>::empty()
            },
        decreases n - k,
    {
        if pos >= ls.len() {
            assert(card_entry(lv, pos as int) is None);
            assert(card_entries(lv, pos as int, (n - k) as nat) is None);
            return None;
        }
        assert(lv[pos as int] == ls@[pos as int]@);
        let h = match numbers_in(&ls[pos]) {
            Some(v) => v,
            None => {
                assert(card_entry(lv, pos as int) is None);
                assert(card_entries(lv, pos as int, (n - k) as nat) is None);
                return None;
            },
        };
        if h.len() < 4 || h[2] > ls.len() - pos - 1 {
            assert(card_entry(lv, pos as int) is None);
            assert(card_entries(lv, pos as int, (n - k) as nat) is None);
            return None;
        }
        let crows = rows_from(&ls, pos + 1, h[2]);
        let shape = match CardShape::from_rows(&crows) {
            Ok(s) => s,
            Err(_) => {
                assert(card_entry(lv, pos as int) is None);
                assert(card_entries(lv, pos as int, (n - k) as nat) is None);
                return None;
            },
        };
        let power = shape.count_colored_squares();
        let card = Card { id: h[0], name: String::new(), cost: h[1], power, shape };
        let ghost before = cards@.map_values(|c: Card| (c.id, c.cost, c.shape@));
        cards.push(card);
        proof {
            let entry = (h@[0], h@[1], card.shape@);
            assert(cards@.map_values(|c: Card| (c.id, c.cost, c.shape@)) =~= before.push(entry));
            let next = pos + 1 + h@[2];
            match card_entries(lv, next, (n - k - 1) as nat) {
                Some(rest) => {
                    assert(before.push(entry) + rest =~= before + (seq![entry] + rest));
                },
                None => {},
            }
        }
        pos = pos + 1 + h[2];
        k = k + 1;
    }
    assert(cards@.map_values(|c: Card| (c.id, c.cost, c.shape@)) + Seq::<(usize, usize, Seq<Seq<CardSquareType>>)>::empty()
        =~= cards@.map_values(|c: Card| (c.id, c.cost, c.shape@)));
    let ii = InitialInput {
        player_size: p[0],
        deck_size: p[1],
        hand_size: p[2],
        max_turn: p[3],
        is_deplicated_pick_enabled: p[4] == 1,
        field_size_y: y,
        field_size_x: x,
        field,
        cards,
    };
    assert(p@.take(4) =~= seq![p@[0], p@[1], p@[2], p@[3]]);
    Some(ii)
}

} // verus!
