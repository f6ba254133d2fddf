//! Grids of squares for fields and cards: decoding, text, rotation,
//! trimming, reference points and counting.
use vstd::prelude::*;

verus! {

pub type PlayerId = usize;

/// One square of the shared field.
#[derive(PartialEq, Eq, Debug, Clone, Copy, Hash, Structural)]
pub enum FieldSquareType {
    Colored { player_id: PlayerId },
    Special { player_id: PlayerId, activeted: bool },
    Block,
    Empty,
}

/// The character that encodes a field square.
pub open spec fn field_char(s: FieldSquareType) -> char {
    match s {
        FieldSquareType::Colored { player_id } => if player_id == 0 { 'y' } else { 'b' },
        FieldSquareType::Special { player_id, .. } => if player_id == 0 { 'Y' } else { 'B' },
        FieldSquareType::Block => '#',
        FieldSquareType::Empty => '.',
    }
}

/// The field square that a character decodes to, if any.
pub open spec fn field_square_of(c: char) -> Option<FieldSquareType> {
    if c == 'y' {
        Some(FieldSquareType::Colored { player_id: 0 })
    } else if c == 'Y' {
        Some(FieldSquareType::Special { player_id: 0, activeted: false })
    } else if c == 'b' {
        Some(FieldSquareType::Colored { player_id: 1 })
    } else if c == 'B' {
        Some(FieldSquareType::Special { player_id: 1, activeted: false })
    } else if c == '#' {
        Some(FieldSquareType::Block)
    } else if c == '.' {
        Some(FieldSquareType::Empty)
    } else {
        None
    }
}

impl FieldSquareType {
    pub fn to_char(&self) -> (r: char)
        ensures
            r == field_char(*self),
    {
        match self {
            FieldSquareType::Colored { player_id } => if *player_id == 0 { 'y' } else { 'b' },
            FieldSquareType::Special { player_id, .. } => if *player_id == 0 { 'Y' } else { 'B' },
            FieldSquareType::Block => '#',
            FieldSquareType::Empty => '.',
        }
    }

    /// The one-character text of the square.
    pub fn to_str(&self) -> (r: &'static str)
        ensures
            r@ == seq![field_char(*self)],
    {
        proof {
            reveal_strlit("y"); reveal_strlit("b"); reveal_strlit("Y"); reveal_strlit("B");
            reveal_strlit("#"); reveal_strlit(".");
        }
        match self {
            FieldSquareType::Colored { player_id } => if *player_id == 0 { "y" } else { "b" },
            FieldSquareType::Special { player_id, .. } => if *player_id == 0 { "Y" } else { "B" },
            FieldSquareType::Block => "#",
            FieldSquareType::Empty => ".",
        }
    }

    /// Decodes one field character; `None` for a character outside the encoding.
    pub fn from_char(c: char) -> (r: Option<FieldSquareType>)
        ensures
            r == field_square_of(c),
    {
        if c == 'y' {
            Some(FieldSquareType::Colored { player_id: 0 })
        } else if c == 'Y' {
            Some(FieldSquareType::Special { player_id: 0, activeted: false })
        } else if c == 'b' {
            Some(FieldSquareType::Colored { player_id: 1 })
        } else if c == 'B' {
            Some(FieldSquareType::Special { player_id: 1, activeted: false })
        } else if c == '#' {
            Some(FieldSquareType::Block)
        } else if c == '.' {
            Some(FieldSquareType::Empty)
        } else {
            None
        }
    }
}

/// The decoding of field characters, as a function.
pub open spec fn field_decoder() -> spec_fn(char) -> Option<FieldSquareType> {
    |c: char| field_square_of(c)
}

/// One square of a card's shape.
#[derive(PartialEq, Eq, Debug, Clone, Copy, Hash, Structural)]
pub enum CardSquareType {
    Colored,
    Special,
    Empty,
}

pub open spec fn card_char(s: CardSquareType) -> char {
    match s {
        CardSquareType::Colored => 'y',
        CardSquareType::Special => 'Y',
        CardSquareType::Empty => '.',
    }
}

pub open spec fn card_square_of(c: char) -> Option<CardSquareType> {
    if c == 'y' {
        Some(CardSquareType::Colored)
    } else if c == 'Y' {
        Some(CardSquareType::Special)
    } else if c == '.' {
        Some(CardSquareType::Empty)
    } else {
        None
    }
}

/// The decoding of card characters, as a function.
pub open spec fn card_decoder() -> spec_fn(char) -> Option<CardSquareType> {
    |c: char| card_square_of(c)
}

/// A card square that paints the field (Colored or Special).
pub open spec fn is_filled(s: CardSquareType) -> bool {
    s != CardSquareType::Empty
}

impl CardSquareType {
    pub fn to_char(&self) -> (r: char)
        ensures
            r == card_char(*self),
    {
        match self {
            CardSquareType::Colored => 'y',
            CardSquareType::Special => 'Y',
            CardSquareType::Empty => '.',
        }
    }

    /// The one-character text of the square.
    pub fn to_str(&self) -> (r: &'static str)
        ensures
            r@ == seq![card_char(*self)],
    {
        proof {
            reveal_strlit("y"); reveal_strlit("Y"); reveal_strlit(".");
        }
        match self {
            CardSquareType::Colored => "y",
            CardSquareType::Special => "Y",
            CardSquareType::Empty => ".",
        }
    }

    /// Decodes one card character; `None` for a character outside the encoding.
    pub fn from_char(c: char) -> (r: Option<CardSquareType>)
        ensures
            r == card_square_of(c),
    {
        if c == 'y' {
            Some(CardSquareType::Colored)
        } else if c == 'Y' {
            Some(CardSquareType::Special)
        } else if c == '.' {
            Some(CardSquareType::Empty)
        } else {
            None
        }
    }
}


/// The rows of a text, split at each newline (a text without newline is one row).
pub open spec fn lines(s: Seq<char>) -> Seq<Seq<char>>
    decreases s.len(),
{
    if s.len() == 0 {
        seq![Seq::empty()]
    } else {
        let prev = lines(s.drop_last());
        if s.last() == '\n' {
            prev.push(Seq::empty())
        } else {
            prev.update(prev.len() - 1, prev.last().push(s.last()))
        }
    }
}

/// A rectangular grid with at least one row and one column, whose number of
/// cells fits in a `usize`.
pub open spec fn is_grid<T>(g: Seq<Seq<T>>) -> bool {
    &&& g.len() >= 1
    &&& g[0].len() >= 1
    &&& forall|i: int| 0 <= i < g.len() ==> #[trigger] g[i].len() == g[0].len()
    &&& g.len() * g[0].len() <= usize::MAX
}

pub open spec fn width_of<T>(g: Seq<Seq<T>>) -> nat {
    if g.len() > 0 {
        g[0].len()
    } else {
        0
    }
}

/// Collects the characters of a string.
pub fn chars_of(s: &str) -> (r: Vec<char>)
    ensures
        r@ == s@,
{
    let n = s.unicode_len();
    let mut v: Vec<char> = Vec::new();
    let mut i: usize = 0;
    while i < n
        invariant
            n == s@.len(),
            i <= n,
            v@ == s@.take(i as int),
        decreases n - i,
    {
        v.push(s.get_char(i));
        assert(s@.take(i + 1) == s@.take(i as int).push(s@[i as int]));
        i = i + 1;
    }
    assert(s@.take(n as int) == s@);
    v
}

/// Splits a text into rows at each newline.
pub fn split_lines(s: &str) -> (r: Vec<Vec<char>>)
    ensures
        r@.map_values(|row: Vec<char>| row@) == lines(s@),
{
    let cs = chars_of(s);
    let mut rows: Vec<Vec<char>> = Vec::new();
    let mut cur: Vec<char> = Vec::new();
    let mut k: usize = 0;
    while k < cs.len()
        invariant
            cs@ == s@,
            k <= cs.len(),
            lines(cs@.take(k as int)) == rows@.map_values(|row: Vec<char>| row@).push(cur@),
        decreases cs.len() - k,
    {
        let c = cs[k];
        let ghost t = cs@.take(k + 1);
        assert(t.drop_last() == cs@.take(k as int));
        if c == '\n' {
            rows.push(cur);
            cur = Vec::new();
            assert(rows@.map_values(|row: Vec<char>| row@).push(cur@) == lines(t));
        } else {
            cur.push(c);
            assert(rows@.map_values(|row: Vec<char>| row@).push(cur@) == lines(t));
        }
        k = k + 1;
    }
    assert(cs@.take(k as int) == s@);
    rows.push(cur);
    assert(rows@.map_values(|row: Vec<char>| row@) =~= lines(s@));
    rows
}

/// Whether the rows form a grid.
pub fn is_grid_exec<T>(rows: &Vec<Vec<T>>) -> (r: bool)
    ensures
        r == is_grid(rows@.map_values(|row: Vec<T>| row@)),
{
    let ghost g = rows@.map_values(|row: Vec<T>| row@);
    let h = rows.len();
    if h == 0 {
        return false;
    }
    let w = rows[0].len();
    if w == 0 {
        return false;
    }
    let mut i: usize = 0;
    while i < h
        invariant
            h == rows.len(),
            g == rows@.map_values(|row: Vec<T>| row@),
            w == g[0].len(),
            i <= h,
            forall|j: int| 0 <= j < i ==> #[trigger] g[j].len() == w,
        decreases h - i,
    {
        if rows[i].len() != w {
            assert(g[i as int] == rows@[i as int]@);
            assert(g[i as int].len() != g[0].len());
            return false;
        }
        i = i + 1;
    }
    match h.checked_mul(w) {
        Some(_) => true,
        None => false,
    }
}

/// Rows joined by newlines.
pub open spec fn join_lines(rows: Seq<Seq<char>>) -> Seq<char>
    decreases rows.len(),
{
    if rows.len() == 0 {
        Seq::empty()
    } else if rows.len() == 1 {
        rows[0]
    } else {
        join_lines(rows.drop_last()) + seq!['\n'] + rows.last()
    }
}

pub proof fn lemma_join_push(rows: Seq<Seq<char>>, r: Seq<char>)
    requires
        rows.len() >= 1,
    ensures
        join_lines(rows.push(r)) == join_lines(rows) + seq!['\n'] + r,
{
    assert(rows.push(r).drop_last() == rows);
}

/// The text of a field: one line of characters per row.
pub open spec fn field_text(g: Seq<Seq<FieldSquareType>>) -> Seq<char> {
    join_lines(g.map_values(|row: Seq<FieldSquareType>| row.map_values(|c: FieldSquareType| field_char(c))))
}

/// The text of a card shape: one line of characters per row.
pub open spec fn card_text(g: Seq<Seq<CardSquareType>>) -> Seq<char> {
    join_lines(g.map_values(|row: Seq<CardSquareType>| row.map_values(|c: CardSquareType| card_char(c))))
}

/// Why a text does not encode a shape.
#[derive(PartialEq, Eq, Debug, Clone, Copy, Structural)]
pub enum DecodeError {
    /// The rows are not all of one non-zero width (or there is no row).
    NotAGrid,
    /// A character outside the encoding.
    InvalidCharacter,
    /// A card shape without any filled square.
    Blank,
}

/// Decodes each character of a character grid with `f`, if every one decodes.
pub open spec fn decode_grid<T>(g: Seq<Seq<char>>, f: spec_fn(char) -> Option<T>) -> Option<Seq<Seq<T>>> {
    if forall|i: int, j: int| 0 <= i < g.len() && 0 <= j < g[i].len() ==> (#[trigger] f(g[i][j])) is Some {
        Some(Seq::new(g.len(), |i: int| Seq::new(g[i].len(), |j: int| f(g[i][j])->0)))
    } else {
        None
    }
}

/// What decoding rows of characters as a shape gives, with `f` as the character decoding.
pub open spec fn decode_rows<T>(g: Seq<Seq<char>>, f: spec_fn(char) -> Option<T>) -> Result<Seq<Seq<T>>, DecodeError> {
    if !is_grid(g) {
        Err(DecodeError::NotAGrid)
    } else {
        match decode_grid(g, f) {
            None => Err(DecodeError::InvalidCharacter),
            Some(d) => Ok(d),
        }
    }
}

/// What decoding a text as a shape gives: its lines decoded as rows.
pub open spec fn decode_text<T>(s: Seq<char>, f: spec_fn(char) -> Option<T>) -> Result<Seq<Seq<T>>, DecodeError> {
    decode_rows(lines(s), f)
}

/// The number of squares of a row that satisfy `p`.
pub open spec fn row_count<T>(r: Seq<T>, p: spec_fn(T) -> bool) -> nat
    decreases r.len(),
{
    if r.len() == 0 {
        0
    } else {
        row_count(r.drop_last(), p) + if p(r.last()) { 1nat } else { 0nat }
    }
}

/// The number of squares of a grid that satisfy `p`.
pub open spec fn grid_count<T>(g: Seq<Seq<T>>, p: spec_fn(T) -> bool) -> nat
    decreases g.len(),
{
    if g.len() == 0 {
        0
    } else {
        grid_count(g.drop_last(), p) + row_count(g.last(), p)
    }
}

pub proof fn lemma_row_count_bound<T>(r: Seq<T>, p: spec_fn(T) -> bool)
    ensures
        row_count(r, p) <= r.len(),
    decreases r.len(),
{
    if r.len() > 0 {
        lemma_row_count_bound(r.drop_last(), p);
    }
}

pub proof fn lemma_grid_count_bound<T>(g: Seq<Seq<T>>, p: spec_fn(T) -> bool, w: nat)
    requires
        forall|i: int| 0 <= i < g.len() ==> #[trigger] g[i].len() == w,
    ensures
        grid_count(g, p) <= g.len() * w,
    decreases g.len(),
{
    if g.len() > 0 {
        lemma_grid_count_bound(g.drop_last(), p, w);
        lemma_row_count_bound(g.last(), p);
        assert((g.len() - 1) * w + w == g.len() * w) by (nonlinear_arith);
    }
}

/// The field square belongs to the player (Colored or Special, either activation state).
pub open spec fn owned_by(s: FieldSquareType, player_id: int) -> bool {
    match s {
        FieldSquareType::Colored { player_id: p } => p == player_id,
        FieldSquareType::Special { player_id: p, .. } => p == player_id,
        _ => false,
    }
}

/// Ownership by the player, as a predicate on squares.
pub open spec fn owner_pred(player_id: int) -> spec_fn(FieldSquareType) -> bool {
    |s: FieldSquareType| owned_by(s, player_id)
}


/// A copy of a grid of squares.
fn copy_grid_fieldsquaretype(g: &Vec<Vec<FieldSquareType>>) -> (r: Vec<Vec<FieldSquareType>>)
    ensures
        r@.map_values(|row: Vec<FieldSquareType>| row@) == g@.map_values(|row: Vec<FieldSquareType>| row@),
{
    let mut r: Vec<Vec<FieldSquareType>> = Vec::new();
    let mut i: usize = 0;
    while i < g.len()
        invariant
            i <= g.len(),
            r@.len() == i,
            forall|a: int| 0 <= a < i ==> (#[trigger] r@[a])@ == g@[a]@,
        decreases g.len() - i,
    {
        let mut row: Vec<FieldSquareType> = Vec::new();
        let mut j: usize = 0;
        while j < g[i].len()
            invariant
                i < g.len(),
                j <= g[i as int].len(),
                row@ == g@[i as int]@.take(j as int),
            decreases g[i as int].len() - j,
        {
            row.push(g[i][j]);
            assert(row@ == g@[i as int]@.take(j + 1));
            j = j + 1;
        }
        assert(row@ == g@[i as int]@);
        r.push(row);
        i = i + 1;
    }
    assert(r@.map_values(|row: Vec<FieldSquareType>| row@) =~= g@.map_values(|row: Vec<FieldSquareType>| row@));
    r
}

/// A copy of a grid of squares.
fn copy_grid_cardsquaretype(g: &Vec<Vec<CardSquareType>>) -> (r: Vec<Vec<CardSquareType>>)
    ensures
        r@.map_values(|row: Vec<CardSquareType>| row@) == g@.map_values(|row: Vec<CardSquareType>| row@),
{
    let mut r: Vec<Vec<CardSquareType>> = Vec::new();
    let mut i: usize = 0;
    while i < g.len()
        invariant
            i <= g.len(),
            r@.len() == i,
            forall|a: int| 0 <= a < i ==> (#[trigger] r@[a])@ == g@[a]@,
        decreases g.len() - i,
    {
        let mut row: Vec<CardSquareType> = Vec::new();
        let mut j: usize = 0;
        while j < g[i].len()
            invariant
                i < g.len(),
                j <= g[i as int].len(),
                row@ == g@[i as int]@.take(j as int),
            decreases g[i as int].len() - j,
        {
            row.push(g[i][j]);
            assert(row@ == g@[i as int]@.take(j + 1));
            j = j + 1;
        }
        assert(row@ == g@[i as int]@);
        r.push(row);
        i = i + 1;
    }
    assert(r@.map_values(|row: Vec<CardSquareType>| row@) =~= g@.map_values(|row: Vec<CardSquareType>| row@));
    r
}

/// The field grid: its rows, each row the squares from left to right.
#[derive(PartialEq, Eq, Debug, Clone, Hash)]
pub struct FieldShape {
    pub height: usize,
    pub width: usize,
    pub squares: Vec<Vec<FieldSquareType>>,
}

impl View for FieldShape {
    type V = Seq<Seq<FieldSquareType>>;

    open spec fn view(&self) -> Seq<Seq<FieldSquareType>> {
        self.squares@.map_values(|row: Vec<FieldSquareType>| row@)
    }
}

impl FieldShape {
    pub open spec fn wf(&self) -> bool {
        &&& is_grid(self@)
        &&& self.height == self@.len()
        &&& self.width == self@[0].len()
    }

    /// Decodes a field from rows of `y`, `Y`, `b`, `B`, `#` and `.`, separated by newlines.
    pub fn new(item: &str) -> (r: Result<FieldShape, DecodeError>)
        ensures
            match r {
                Ok(f) => f.wf() && decode_text(item@, field_decoder()) == Ok::<_, DecodeError>(f@),
                Err(e) => decode_text(item@, field_decoder()) == Err::<Seq<Seq<FieldSquareType>>, _>(e),
            },
    {
        let rows = split_lines(item);
        Self::from_rows(&rows)
    }

    /// Decodes rows of characters, each a row of squares.
    pub fn from_rows(g: &Vec<Vec<char>>) -> (r: Result<FieldShape, DecodeError>)
        ensures
            match r {
                Ok(f) => f.wf() && decode_rows(g@.map_values(|row: Vec<char>| row@), field_decoder()) == Ok::<_, DecodeError>(f@),
                Err(e) => decode_rows(g@.map_values(|row: Vec<char>| row@), field_decoder()) == Err::<Seq<Seq<FieldSquareType>>, _>(e),
            },
    {
        let ghost gv = g@.map_values(|row: Vec<char>| row@);
        if !is_grid_exec(g) {
            return Err(DecodeError::NotAGrid);
        }
        let mut squares: Vec<Vec<FieldSquareType>> = Vec::new();
        let mut i: usize = 0;
        while i < g.len()
            invariant
                gv == g@.map_values(|row: Vec<char>| row@),
                is_grid(gv),
                i <= g.len(),
                squares@.len() == i,
                forall|a: int| 0 <= a < i ==> (#[trigger] squares@[a])@.len() == gv[a].len(),
                forall|a: int, b: int| 0 <= a < i && 0 <= b < gv[a].len() ==>
                    field_square_of(gv[a][b]) == Some(#[trigger] squares@[a]@[b]),
            decreases g.len() - i,
        {
            let mut row: Vec<FieldSquareType> = Vec::new();
            let mut j: usize = 0;
            assert(g@[i as int]@ == gv[i as int]);
            while j < g[i].len()
                invariant
                    i < g.len(),
                    is_grid(gv),
                    gv == g@.map_values(|row: Vec<char>| row@),
                    j <= g[i as int].len(),
                    row@.len() == j,
                    forall|b: int| 0 <= b < j ==> field_square_of(gv[i as int][b]) == Some(#[trigger] row@[b]),
                decreases g[i as int].len() - j,
            {
                match FieldSquareType::from_char(g[i][j]) {
                    Some(c) => row.push(c),
                    None => {
                        assert(g@[i as int]@ == gv[i as int]);
                        assert((field_decoder())(gv[i as int][j as int]) is None);
                        return Err(DecodeError::InvalidCharacter);
                    },
                }
                j = j + 1;
            }
            squares.push(row);
            i = i + 1;
        }
        let r = FieldShape { height: squares.len(), width: squares[0].len(), squares };
        assert(forall|a: int, b: int| 0 <= a < gv.len() && 0 <= b < gv[a].len() ==>
            (#[trigger] (field_decoder())(gv[a][b])) is Some) by {
            assert forall|a: int, b: int| 0 <= a < gv.len() && 0 <= b < gv[a].len() implies
                (#[trigger] (field_decoder())(gv[a][b])) is Some by {
                assert(field_square_of(gv[a][b]) == Some(squares@[a]@[b]));
            }
        }
        assert(r@ =~~= Seq::new(gv.len(), |a: int| Seq::new(gv[a].len(), |b: int| (field_decoder())(gv[a][b])->0)));
        assert(forall|a: int| 0 <= a < r@.len() ==> #[trigger] r@[a].len() == gv[a].len());
        assert(r.wf());
        assert(decode_grid(gv, field_decoder()) == Some(r@));
        Ok(r)
    }

    /// The field as text: one line per row, without a final newline.
    pub fn to_text(&self) -> (r: String)
        requires
            self.wf(),
        ensures
            r@ == field_text(self@),
    {
        let ghost rows = self@.map_values(|row: Seq<FieldSquareType>| row.map_values(|c: FieldSquareType| field_char(c)));
        let mut s = String::new();
        let mut i: usize = 0;
        while i < self.height
            invariant
                self.wf(),
                i <= self.height,
                rows == self@.map_values(|row: Seq<FieldSquareType>| row.map_values(|c: FieldSquareType| field_char(c))),
                s@ == join_lines(rows.take(i as int)),
            decreases self.height - i,
        {
            let ghost s0 = s@;
            proof { reveal_strlit("\n"); }
            if i > 0 {
                s.append("\n");
            }
            let ghost s1 = s@;
            let mut j: usize = 0;
            while j < self.width
                invariant
                    self.wf(),
                    i < self.height,
                    j <= self.width,
                    s@ == s1 + rows[i as int].take(j as int),
                    rows == self@.map_values(|row: Seq<FieldSquareType>| row.map_values(|c: FieldSquareType| field_char(c))),
                decreases self.width - j,
            {
                assert(self@[i as int][j as int] == self.squares@[i as int]@[j as int]);
                s.append(self.squares[i][j].to_str());
                assert(rows[i as int].take(j + 1) == rows[i as int].take(j as int).push(field_char(self@[i as int][j as int])));
                j = j + 1;
            }
            assert(rows[i as int].len() == self.width);
            assert(rows[i as int].take(j as int) == rows[i as int]);
            assert(rows.take(i + 1).drop_last() == rows.take(i as int));
            assert(rows.take(i + 1).last() == rows[i as int]);
            if i == 0 {
                assert(rows.take(1) == seq![rows[0]]);
            } else {
                assert(s1 == s0 + seq!['\n']);
                assert(s@ == join_lines(rows.take(i as int)) + seq!['\n'] + rows[i as int]);
            }
            i = i + 1;
        }
        assert(rows.take(i as int) == rows);
        s
    }

    /// A copy of the field.
    pub fn duplicate(&self) -> (r: FieldShape)
        ensures
            r@ == self@,
            r.height == self.height,
            r.width == self.width,
    {
        FieldShape { height: self.height, width: self.width, squares: copy_grid_fieldsquaretype(&self.squares) }
    }

    /// Replaces square `(a, b)`.
    pub fn set_square(&mut self, a: usize, b: usize, v: FieldSquareType)
        requires
            old(self).wf(),
            a < old(self).height,
            b < old(self).width,
        ensures
            final(self).wf(),
            final(self).height == old(self).height,
            final(self).width == old(self).width,
            final(self)@ == old(self)@.update(a as int, old(self)@[a as int].update(b as int, v)),
    {
        let ghost g = self@;
        let mut row: Vec<FieldSquareType> = Vec::new();
        self.squares.set_and_swap(a, &mut row);
        assert(row@ == g[a as int]);
        row.set(b, v);
        self.squares.set_and_swap(a, &mut row);
        assert(self@ =~~= g.update(a as int, g[a as int].update(b as int, v)));
    }

    /// The number of field squares owned by the player.
    pub fn count_player(&self, player_id: PlayerId) -> (r: usize)
        requires
            self.wf(),
        ensures
            r == grid_count(self@, owner_pred(player_id as int)),
    {
        let mut count: usize = 0;
        let mut i: usize = 0;
        while i < self.height
            invariant
                self.wf(),
                i <= self.height,
                count == grid_count(self@.take(i as int), owner_pred(player_id as int)),
            decreases self.height - i,
        {
            let mut j: usize = 0;
            let mut rc: usize = 0;
            proof {
                lemma_grid_count_bound(self@.take(i as int), owner_pred(player_id as int), self.width as nat);
            }
            while j < self.width
                invariant
                    self.wf(),
                    i < self.height,
                    j <= self.width,
                    count == grid_count(self@.take(i as int), owner_pred(player_id as int)),
                    count <= i * self.width,
                    rc == row_count(self@[i as int].take(j as int), owner_pred(player_id as int)),
                    rc <= j,
                decreases self.width - j,
            {
                assert(self@[i as int].take(j + 1).drop_last() == self@[i as int].take(j as int));
                assert(self@[i as int][j as int] == self.squares@[i as int]@[j as int]);
                if owned_by_exec(&self.squares[i][j], player_id) {
                    rc = rc + 1;
                }
                j = j + 1;
            }
            assert(self@[i as int].take(j as int) == self@[i as int]);
            assert(self@.take(i + 1).drop_last() == self@.take(i as int));
            assert(count + rc <= (i + 1) * self.width <= self.height * self.width) by (nonlinear_arith)
                requires count <= i * self.width, rc <= self.width, i < self.height;
            count = count + rc;
            i = i + 1;
        }
        assert(self@.take(i as int) == self@);
        count
    }
}

fn owned_by_exec(s: &FieldSquareType, player_id: PlayerId) -> (r: bool)
    ensures
        r == owned_by(*s, player_id as int),
{
    match s {
        FieldSquareType::Colored { player_id: p } => *p == player_id,
        FieldSquareType::Special { player_id: p, .. } => *p == player_id,
        _ => false,
    }
}


/// A card's shape: its rows, each row the squares from left to right.
#[derive(PartialEq, Eq, Debug, Clone, Hash)]
pub struct CardShape {
    pub height: usize,
    pub width: usize,
    pub squares: Vec<Vec<CardSquareType>>,
}

impl View for CardShape {
    type V = Seq<Seq<CardSquareType>>;

    open spec fn view(&self) -> Seq<Seq<CardSquareType>> {
        self.squares@.map_values(|row: Vec<CardSquareType>| row@)
    }
}

/// Squares that paint the field, as a predicate.
pub open spec fn filled_pred() -> spec_fn(CardSquareType) -> bool {
    |s: CardSquareType| is_filled(s)
}

/// `(i, j)` is a square of `g` that paints the field.
pub open spec fn filled_at(g: Seq<Seq<CardSquareType>>, i: int, j: int) -> bool {
    0 <= i < g.len() && 0 <= j < g[i].len() && is_filled(g[i][j])
}

pub open spec fn has_filled(g: Seq<Seq<CardSquareType>>) -> bool {
    exists|i: int, j: int| filled_at(g, i, j)
}

/// `(y, x)` is the first filled square of `g` in row-major order.
pub open spec fn is_reference_point(g: Seq<Seq<CardSquareType>>, y: int, x: int) -> bool {
    &&& filled_at(g, y, x)
    &&& forall|i: int, j: int| #[trigger] filled_at(g, i, j) ==> y < i || (y == i && x <= j)
}

/// One clockwise quarter turn: square `(i, j)` of the result is square
/// `(height - 1 - j, i)` of `g`.
pub open spec fn rotate_grid<T>(g: Seq<Seq<T>>) -> Seq<Seq<T>> {
    Seq::new(width_of(g), |i: int| Seq::new(g.len(), |j: int| g[g.len() - 1 - j][i]))
}

/// Rows `t..=b` and columns `l..=r` form the least box that holds every filled square of `g`.
pub open spec fn is_bounding_box(g: Seq<Seq<CardSquareType>>, t: int, b: int, l: int, r: int) -> bool {
    &&& exists|j: int| filled_at(g, t, j)
    &&& exists|j: int| filled_at(g, b, j)
    &&& exists|i: int| filled_at(g, i, l)
    &&& exists|i: int| filled_at(g, i, r)
    &&& forall|i: int, j: int| #[trigger] filled_at(g, i, j) ==> t <= i <= b && l <= j <= r
}

/// Rows `t..=b` and columns `l..=r` of `g`.
pub open spec fn subgrid<T>(g: Seq<Seq<T>>, t: int, b: int, l: int, r: int) -> Seq<Seq<T>> {
    Seq::new((b - t + 1) as nat, |i: int| g[t + i].subrange(l, r + 1))
}

/// `g` cut down to the bounding box of its filled squares.
pub open spec fn trimmed(g: Seq<Seq<CardSquareType>>) -> Seq<Seq<CardSquareType>> {
    let (t, b, l, r) = choose|t: int, b: int, l: int, r: int| is_bounding_box(g, t, b, l, r);
    subgrid(g, t, b, l, r)
}

pub proof fn lemma_bounding_box_unique(
    g: Seq<Seq<CardSquareType>>,
    t: int, b: int, l: int, r: int,
    t2: int, b2: int, l2: int, r2: int,
)
    requires
        is_bounding_box(g, t, b, l, r),
        is_bounding_box(g, t2, b2, l2, r2),
    ensures
        t == t2 && b == b2 && l == l2 && r == r2,
{
    let j1 = choose|j: int| filled_at(g, t, j);
    let j2 = choose|j: int| filled_at(g, t2, j);
    let j3 = choose|j: int| filled_at(g, b, j);
    let j4 = choose|j: int| filled_at(g, b2, j);
    let i1 = choose|i: int| filled_at(g, i, l);
    let i2 = choose|i: int| filled_at(g, i, l2);
    let i3 = choose|i: int| filled_at(g, i, r);
    let i4 = choose|i: int| filled_at(g, i, r2);
    assert(filled_at(g, t, j1) && filled_at(g, t2, j2) && filled_at(g, b, j3) && filled_at(g, b2, j4));
    assert(filled_at(g, i1, l) && filled_at(g, i2, l2) && filled_at(g, i3, r) && filled_at(g, i4, r2));
}

pub proof fn lemma_trimmed_is_box(g: Seq<Seq<CardSquareType>>, t: int, b: int, l: int, r: int)
    requires
        is_bounding_box(g, t, b, l, r),
    ensures
        trimmed(g) == subgrid(g, t, b, l, r),
{
    let (t2, b2, l2, r2) = choose|t: int, b: int, l: int, r: int| is_bounding_box(g, t, b, l, r);
    lemma_bounding_box_unique(g, t, b, l, r, t2, b2, l2, r2);
}

impl CardShape {
    pub open spec fn wf(&self) -> bool {
        &&& is_grid(self@)
        &&& self.height == self@.len()
        &&& self.width == self@[0].len()
    }

    /// Decodes a card shape from rows of `y`, `Y` and `.`, separated by newlines.
    pub fn new(item: &str) -> (r: Result<CardShape, DecodeError>)
        ensures
            match r {
                Ok(f) => f.wf() && decode_text(item@, card_decoder()) == Ok::<_, DecodeError>(f@),
                Err(e) => decode_text(item@, card_decoder()) == Err::<Seq<Seq<CardSquareType>>, _>(e),
            },
    {
        let rows = split_lines(item);
        Self::from_rows(&rows)
    }

    /// Decodes rows of characters, each a row of squares.
    pub fn from_rows(g: &Vec<Vec<char>>) -> (r: Result<CardShape, DecodeError>)
        ensures
            match r {
                Ok(f) => f.wf() && decode_rows(g@.map_values(|row: Vec<char>| row@), card_decoder()) == Ok::<_, DecodeError>(f@),
                Err(e) => decode_rows(g@.map_values(|row: Vec<char>| row@), card_decoder()) == Err::<Seq<Seq<CardSquareType>>, _>(e),
            },
    {
        let ghost gv = g@.map_values(|row: Vec<char>| row@);
        if !is_grid_exec(g) {
            return Err(DecodeError::NotAGrid);
        }
        let mut squares: Vec<Vec<CardSquareType>> = Vec::new();
        let mut i: usize = 0;
        while i < g.len()
            invariant
                gv == g@.map_values(|row: Vec<char>| row@),
                is_grid(gv),
                i <= g.len(),
                squares@.len() == i,
                forall|a: int| 0 <= a < i ==> (#[trigger] squares@[a])@.len() == gv[a].len(),
                forall|a: int, b: int| 0 <= a < i && 0 <= b < gv[a].len() ==>
                    card_square_of(gv[a][b]) == Some(#[trigger] squares@[a]@[b]),
            decreases g.len() - i,
        {
            let mut row: Vec<CardSquareType> = Vec::new();
            let mut j: usize = 0;
            assert(g@[i as int]@ == gv[i as int]);
            while j < g[i].len()
                invariant
                    i < g.len(),
                    is_grid(gv),
                    gv == g@.map_values(|row: Vec<char>| row@),
                    j <= g[i as int].len(),
                    row@.len() == j,
                    forall|b: int| 0 <= b < j ==> card_square_of(gv[i as int][b]) == Some(#[trigger] row@[b]),
                decreases g[i as int].len() - j,
            {
                match CardSquareType::from_char(g[i][j]) {
                    Some(c) => row.push(c),
                    None => {
                        assert(g@[i as int]@ == gv[i as int]);
                        assert((card_decoder())(gv[i as int][j as int]) is None);
                        return Err(DecodeError::InvalidCharacter);
                    },
                }
                j = j + 1;
            }
            squares.push(row);
            i = i + 1;
        }
        let r = CardShape { height: squares.len(), width: squares[0].len(), squares };
        assert(forall|a: int, b: int| 0 <= a < gv.len() && 0 <= b < gv[a].len() ==>
            (#[trigger] (card_decoder())(gv[a][b])) is Some) by {
            assert forall|a: int, b: int| 0 <= a < gv.len() && 0 <= b < gv[a].len() implies
                (#[trigger] (card_decoder())(gv[a][b])) is Some by {
                assert(card_square_of(gv[a][b]) == Some(squares@[a]@[b]));
            }
        }
        assert(r@ =~~= Seq::new(gv.len(), |a: int| Seq::new(gv[a].len(), |b: int| (card_decoder())(gv[a][b])->0)));
        assert(forall|a: int| 0 <= a < r@.len() ==> #[trigger] r@[a].len() == gv[a].len());
        assert(r.wf());
        assert(decode_grid(gv, card_decoder()) == Some(r@));
        Ok(r)
    }


    /// The shape as text: one line per row, without a final newline.
    pub fn to_text(&self) -> (r: String)
        requires
            self.wf(),
        ensures
            r@ == card_text(self@),
    {
        let ghost rows = self@.map_values(|row: Seq<CardSquareType>| row.map_values(|c: CardSquareType| card_char(c)));
        let mut s = String::new();
        let mut i: usize = 0;
        while i < self.height
            invariant
                self.wf(),
                i <= self.height,
                rows == self@.map_values(|row: Seq<CardSquareType>| row.map_values(|c: CardSquareType| card_char(c))),
                s@ == join_lines(rows.take(i as int)),
            decreases self.height - i,
        {
            let ghost s0 = s@;
            proof { reveal_strlit("\n"); }
            if i > 0 {
                s.append("\n");
            }
            let ghost s1 = s@;
            let mut j: usize = 0;
            while j < self.width
                invariant
                    self.wf(),
                    i < self.height,
                    j <= self.width,
                    s@ == s1 + rows[i as int].take(j as int),
                    rows == self@.map_values(|row: Seq<CardSquareType>| row.map_values(|c: CardSquareType| card_char(c))),
                decreases self.width - j,
            {
                assert(self@[i as int][j as int] == self.squares@[i as int]@[j as int]);
                s.append(self.squares[i][j].to_str());
                assert(rows[i as int].take(j + 1) == rows[i as int].take(j as int).push(card_char(self@[i as int][j as int])));
                j = j + 1;
            }
            assert(rows[i as int].len() == self.width);
            assert(rows[i as int].take(j as int) == rows[i as int]);
            assert(rows.take(i + 1).drop_last() == rows.take(i as int));
            assert(rows.take(i + 1).last() == rows[i as int]);
            if i == 0 {
                assert(rows.take(1) == seq![rows[0]]);
            } else {
                assert(s1 == s0 + seq!['\n']);
                assert(s@ == join_lines(rows.take(i as int)) + seq!['\n'] + rows[i as int]);
            }
            i = i + 1;
        }
        assert(rows.take(i as int) == rows);
        s
    }

    /// A copy of the shape.
    pub fn duplicate(&self) -> (r: CardShape)
        ensures
            r@ == self@,
            r.height == self.height,
            r.width == self.width,
    {
        CardShape { height: self.height, width: self.width, squares: copy_grid_cardsquaretype(&self.squares) }
    }

    /// The first filled square in row-major order; the anchor for placing the shape.
    pub fn find_reference_point(&self, _player_id: PlayerId) -> (r: (usize, usize))
        requires
            self.wf(),
            has_filled(self@),
        ensures
            is_reference_point(self@, r.0 as int, r.1 as int),
    {
        let mut i: usize = 0;
        while i < self.height
            invariant
                self.wf(),
                i <= self.height,
                has_filled(self@),
                forall|a: int, b: int| #[trigger] filled_at(self@, a, b) ==> i <= a,
            decreases self.height - i,
        {
            let mut j: usize = 0;
            while j < self.width
                invariant
                    self.wf(),
                    i < self.height,
                    j <= self.width,
                    forall|a: int, b: int| #[trigger] filled_at(self@, a, b) ==> i < a || (i == a && j <= b),
                decreases self.width - j,
            {
                assert(self@[i as int][j as int] == self.squares@[i as int]@[j as int]);
                if self.squares[i][j] != CardSquareType::Empty {
                    return (i, j);
                }
                j = j + 1;
            }
            i = i + 1;
        }
        proof {
            let (a, b) = choose|a: int, b: int| filled_at(self@, a, b);
            assert(filled_at(self@, a, b));
        }
        (0, 0)
    }

    /// The number of filled (Colored or Special) squares.
    pub fn count_colored_squares(&self) -> (r: usize)
        requires
            self.wf(),
        ensures
            r == grid_count(self@, filled_pred()),
    {
        let mut count: usize = 0;
        let mut i: usize = 0;
        while i < self.height
            invariant
                self.wf(),
                i <= self.height,
                count == grid_count(self@.take(i as int), filled_pred()),
            decreases self.height - i,
        {
            let mut j: usize = 0;
            let mut rc: usize = 0;
            proof {
                lemma_grid_count_bound(self@.take(i as int), filled_pred(), self.width as nat);
            }
            while j < self.width
                invariant
                    self.wf(),
                    i < self.height,
                    j <= self.width,
                    count == grid_count(self@.take(i as int), filled_pred()),
                    count <= i * self.width,
                    rc == row_count(self@[i as int].take(j as int), filled_pred()),
                    rc <= j,
                decreases self.width - j,
            {
                assert(self@[i as int].take(j + 1).drop_last() == self@[i as int].take(j as int));
                assert(self@[i as int][j as int] == self.squares@[i as int]@[j as int]);
                if self.squares[i][j] != CardSquareType::Empty {
                    rc = rc + 1;
                }
                j = j + 1;
            }
            assert(self@[i as int].take(j as int) == self@[i as int]);
            assert(self@.take(i + 1).drop_last() == self@.take(i as int));
            assert(count + rc <= (i + 1) * self.width <= self.height * self.width) by (nonlinear_arith)
                requires count <= i * self.width, rc <= self.width, i < self.height;
            count = count + rc;
            i = i + 1;
        }
        assert(self@.take(i as int) == self@);
        count
    }

    /// One clockwise quarter turn.
    pub fn rotate(&self) -> (r: CardShape)
        requires
            self.wf(),
        ensures
            r.wf(),
            r@ == rotate_grid(self@),
            r.height == self.width,
            r.width == self.height,
    {
        let height = self.width;
        let width = self.height;
        let ghost g = self@;
        let mut squares: Vec<Vec<CardSquareType>> = Vec::new();
        let mut i: usize = 0;
        while i < height
            invariant
                self.wf(),
                g == self@,
                height == self.width,
                width == self.height,
                i <= height,
                squares@.len() == i,
                forall|a: int| 0 <= a < i ==> (#[trigger] squares@[a])@ == rotate_grid(g)[a],
            decreases height - i,
        {
            let mut row: Vec<CardSquareType> = Vec::new();
            let mut j: usize = 0;
            while j < width
                invariant
                    self.wf(),
                    g == self@,
                    height == self.width,
                    width == self.height,
                    i < height,
                    j <= width,
                    row@ == rotate_grid(g)[i as int].take(j as int),
                decreases width - j,
            {
                let y = self.height - 1 - j;
                assert(g[y as int][i as int] == self.squares@[y as int]@[i as int]);
                row.push(self.squares[y][i]);
                assert(row@ == rotate_grid(g)[i as int].take(j + 1));
                j = j + 1;
            }
            assert(row@ == rotate_grid(g)[i as int]);
            squares.push(row);
            i = i + 1;
        }
        let r = CardShape { height, width, squares };
        assert(r@ =~= rotate_grid(g));
        assert(height * width == width * height) by (nonlinear_arith);
        r
    }

    /// Whether row `i` holds a filled square.
    fn row_has_filled(&self, i: usize) -> (r: bool)
        requires
            self.wf(),
            i < self.height,
        ensures
            r == exists|j: int| filled_at(self@, i as int, j),
    {
        let mut j: usize = 0;
        while j < self.width
            invariant
                self.wf(),
                i < self.height,
                j <= self.width,
                forall|k: int| 0 <= k < j ==> !filled_at(self@, i as int, k),
            decreases self.width - j,
        {
            assert(self@[i as int][j as int] == self.squares@[i as int]@[j as int]);
            if self.squares[i][j] != CardSquareType::Empty {
                assert(filled_at(self@, i as int, j as int));
                return true;
            }
            j = j + 1;
        }
        false
    }

    /// Whether column `j` holds a filled square.
    fn col_has_filled(&self, j: usize) -> (r: bool)
        requires
            self.wf(),
            j < self.width,
        ensures
            r == exists|i: int| filled_at(self@, i, j as int),
    {
        let mut i: usize = 0;
        while i < self.height
            invariant
                self.wf(),
                j < self.width,
                i <= self.height,
                forall|k: int| 0 <= k < i ==> !filled_at(self@, k, j as int),
            decreases self.height - i,
        {
            assert(self@[i as int][j as int] == self.squares@[i as int]@[j as int]);
            if self.squares[i][j] != CardSquareType::Empty {
                assert(filled_at(self@, i as int, j as int));
                return true;
            }
            i = i + 1;
        }
        false
    }

    /// The shape cut down to the least box that holds all its filled squares;
    /// `None` where it has no filled square.
    pub fn trim(seed: &CardShape) -> (r: Option<CardShape>)
        requires
            seed.wf(),
        ensures
            match r {
                Some(s) => s.wf() && has_filled(seed@) && s@ == trimmed(seed@),
                None => !has_filled(seed@),
            },
    {
        let h = seed.height;
        let w = seed.width;
        let mut t: usize = 0;
        while t < h && !seed.row_has_filled(t)
            invariant
                seed.wf(),
                h == seed.height,
                t <= h,
                forall|i: int, j: int| 0 <= i < t ==> !filled_at(seed@, i, j),
            decreases h - t,
        {
            t = t + 1;
        }
        if t == h {
            return None;
        }
        let mut b: usize = h - 1;
        while !seed.row_has_filled(b)
            invariant
                seed.wf(),
                h == seed.height,
                t <= b < h,
                exists|j: int| filled_at(seed@, t as int, j),
                forall|i: int, j: int| b < i < h ==> !filled_at(seed@, i, j),
            decreases b,
        {
            b = b - 1;
        }
        let mut l: usize = 0;
        while !seed.col_has_filled(l)
            invariant
                seed.wf(),
                w == seed.width,
                l < w,
                exists|j: int| filled_at(seed@, t as int, j),
                forall|i: int, j: int| 0 <= j < l ==> !filled_at(seed@, i, j),
            decreases w - l,
        {
            l = l + 1;
        }
        let mut r: usize = w - 1;
        while !seed.col_has_filled(r)
            invariant
                seed.wf(),
                w == seed.width,
                l <= r < w,
                exists|i: int| filled_at(seed@, i, l as int),
                forall|i: int, j: int| r < j < w ==> !filled_at(seed@, i, j),
            decreases r,
        {
            r = r - 1;
        }
        let ghost g = seed@;
        assert(is_bounding_box(g, t as int, b as int, l as int, r as int));
        let mut rows: Vec<Vec<CardSquareType>> = Vec::new();
        let mut i: usize = t;
        while i <= b
            invariant
                seed.wf(),
                g == seed@,
                t <= i <= b + 1,
                b < seed.height,
                l <= r < seed.width,
                rows@.len() == i - t,
                forall|a: int| 0 <= a < rows@.len() ==> (#[trigger] rows@[a])@ == g[t + a].subrange(l as int, r + 1),
            decreases b + 1 - i,
        {
            let mut row: Vec<CardSquareType> = Vec::new();
            let mut j: usize = l;
            while j <= r
                invariant
                    seed.wf(),
                    g == seed@,
                    t <= i <= b,
                    b < seed.height,
                    l <= j <= r + 1,
                    r < seed.width,
                    row@ == g[i as int].subrange(l as int, j as int),
                decreases r + 1 - j,
            {
                assert(g[i as int][j as int] == seed.squares@[i as int]@[j as int]);
                row.push(seed.squares[i][j]);
                assert(row@ == g[i as int].subrange(l as int, j + 1));
                j = j + 1;
            }
            rows.push(row);
            i = i + 1;
        }
        let s = CardShape { height: rows.len(), width: rows[0].len(), squares: rows };
        assert(s@ =~= subgrid(g, t as int, b as int, l as int, r as int));
        proof {
            lemma_trimmed_is_box(g, t as int, b as int, l as int, r as int);
            assert((b - t + 1) * (r - l + 1) <= seed.height * seed.width) by (nonlinear_arith)
                requires t <= b < seed.height, l <= r < seed.width;
            assert(forall|a: int| 0 <= a < s@.len() ==> #[trigger] s@[a].len() == s@[0].len());
            let j1 = choose|j: int| filled_at(g, t as int, j);
            assert(filled_at(g, t as int, j1));
        }
        Some(s)
    }
}


/// Four clockwise quarter turns give back the shape.
pub proof fn lemma_rotate_four_times<T>(g: Seq<Seq<T>>)
    requires
        is_grid(g),
    ensures
        rotate_grid(rotate_grid(rotate_grid(rotate_grid(g)))) == g,
{
    let h = g.len();
    let w = g[0].len();
    let r1 = rotate_grid(g);
    let r2 = rotate_grid(r1);
    let r3 = rotate_grid(r2);
    let r4 = rotate_grid(r3);
    assert(r1.len() == w && r1[0].len() == h);
    assert(r2.len() == h && r2[0].len() == w);
    assert(forall|i: int, j: int| 0 <= i < h && 0 <= j < w ==> #[trigger] r2[i][j] == g[h - 1 - i][w - 1 - j]);
    assert(r3.len() == w && r3[0].len() == h);
    assert(r4.len() == h && r4[0].len() == w);
    assert forall|i: int| 0 <= i < h implies #[trigger] r4[i] =~= g[i] by {
        assert forall|j: int| 0 <= j < w implies r4[i][j] == g[i][j] by {
            assert(r4[i][j] == r3[w - 1 - j][i]);
            assert(r3[w - 1 - j][i] == r2[h - 1 - i][w - 1 - j]);
        }
    }
    assert(r4 =~= g);
}


proof fn lemma_least_index(p: spec_fn(int) -> bool, lo: int, hi: int) -> (m: int)
    requires
        exists|k: int| lo <= k < hi && #[trigger] p(k),
    ensures
        lo <= m < hi,
        p(m),
        forall|k: int| lo <= k < m ==> !#[trigger] p(k),
    decreases hi - lo,
{
    if p(lo) {
        lo
    } else {
        let k = choose|k: int| lo <= k < hi && #[trigger] p(k);
        assert(lo + 1 <= k);
        lemma_least_index(p, lo + 1, hi)
    }
}

proof fn lemma_greatest_index(p: spec_fn(int) -> bool, lo: int, hi: int) -> (m: int)
    requires
        exists|k: int| lo <= k < hi && #[trigger] p(k),
    ensures
        lo <= m < hi,
        p(m),
        forall|k: int| m < k < hi ==> !#[trigger] p(k),
    decreases hi - lo,
{
    if p(hi - 1) {
        hi - 1
    } else {
        let k = choose|k: int| lo <= k < hi && #[trigger] p(k);
        assert(k < hi - 1);
        lemma_greatest_index(p, lo, hi - 1)
    }
}

/// A shape with a filled square has a reference point.
pub proof fn lemma_reference_point_exists(g: Seq<Seq<CardSquareType>>) -> (p: (int, int))
    requires
        has_filled(g),
    ensures
        is_reference_point(g, p.0, p.1),
{
    let (i0, j0) = choose|i: int, j: int| filled_at(g, i, j);
    assert(filled_at(g, i0, j0));
    let prow = |i: int| exists|j: int| filled_at(g, i, j);
    assert(prow(i0));
    let y = lemma_least_index(prow, 0, g.len() as int);
    let pcol = |j: int| filled_at(g, y, j);
    let jy = choose|j: int| filled_at(g, y, j);
    assert(pcol(jy));
    let x = lemma_least_index(pcol, 0, g[y].len() as int);
    assert forall|i: int, j: int| #[trigger] filled_at(g, i, j) implies y < i || (y == i && x <= j) by {
        assert(prow(i));
        if i == y {
            assert(pcol(j));
        }
    }
    (y, x)
}

/// A grid with a filled square has a bounding box of its filled squares.
pub proof fn lemma_bounding_box_exists(g: Seq<Seq<CardSquareType>>) -> (bx: (int, int, int, int))
    requires
        is_grid(g),
        has_filled(g),
    ensures
        is_bounding_box(g, bx.0, bx.1, bx.2, bx.3),
        0 <= bx.0 <= bx.1 < g.len(),
        0 <= bx.2 <= bx.3 < g[0].len(),
{
    let (i0, j0) = choose|i: int, j: int| filled_at(g, i, j);
    assert(filled_at(g, i0, j0));
    let prow = |i: int| exists|j: int| filled_at(g, i, j);
    let pcol = |j: int| exists|i: int| filled_at(g, i, j);
    assert(prow(i0));
    assert(g[i0].len() == g[0].len());
    assert(pcol(j0));
    let t = lemma_least_index(prow, 0, g.len() as int);
    let b = lemma_greatest_index(prow, 0, g.len() as int);
    let l = lemma_least_index(pcol, 0, g[0].len() as int);
    let r = lemma_greatest_index(pcol, 0, g[0].len() as int);
    assert forall|i: int, j: int| #[trigger] filled_at(g, i, j) implies t <= i <= b && l <= j <= r by {
        assert(prow(i));
        assert(g[i].len() == g[0].len());
        assert(pcol(j));
    }
    assert(prow(t) && prow(b) && pcol(l) && pcol(r));
    let jt = choose|j: int| filled_at(g, t, j);
    assert(filled_at(g, t, jt));
    (t, b, l, r)
}

/// Every filled square `(i, j)` of `g` stands, with its value, at `(i - t, j - l)` in `s`,
/// and `s` has no other filled square.
#[verifier::opaque]
pub open spec fn keeps_filled(g: Seq<Seq<CardSquareType>>, s: Seq<Seq<CardSquareType>>, t: int, l: int) -> bool {
    &&& forall|i: int, j: int| #[trigger] filled_at(g, i, j) ==> filled_at(s, i - t, j - l) && s[i - t][j - l] == g[i][j]
    &&& forall|i: int, j: int| #[trigger] filled_at(s, i, j) ==> filled_at(g, i + t, j + l)
}

proof fn lemma_subgrid_cells(g: Seq<Seq<CardSquareType>>, t: int, b: int, l: int, r: int)
    requires
        is_grid(g),
        0 <= t <= b < g.len(),
        0 <= l <= r < g[0].len(),
    ensures
        subgrid(g, t, b, l, r).len() == b - t + 1,
        forall|i: int| 0 <= i <= b - t ==> (#[trigger] subgrid(g, t, b, l, r)[i]).len() == r - l + 1,
        forall|i: int, j: int| 0 <= i <= b - t && 0 <= j <= r - l ==>
            #[trigger] subgrid(g, t, b, l, r)[i][j] == g[t + i][l + j],
{
    let s = subgrid(g, t, b, l, r);
    assert forall|i: int| 0 <= i <= b - t implies (#[trigger] s[i]).len() == r - l + 1 by {
        assert(g[t + i].len() == g[0].len());
    }
}

proof fn lemma_subgrid_box(g: Seq<Seq<CardSquareType>>, t: int, b: int, l: int, r: int)
    requires
        is_grid(g),
        is_bounding_box(g, t, b, l, r),
        0 <= t <= b < g.len(),
        0 <= l <= r < g[0].len(),
    ensures
        is_grid(subgrid(g, t, b, l, r)),
        is_bounding_box(subgrid(g, t, b, l, r), 0, b - t, 0, r - l),
        subgrid(g, t, b, l, r)[0].len() == r - l + 1,
        keeps_filled(g, subgrid(g, t, b, l, r), t, l),
{
    let s = subgrid(g, t, b, l, r);
    lemma_subgrid_cells(g, t, b, l, r);
    assert((b - t + 1) * (r - l + 1) <= g.len() * g[0].len()) by (nonlinear_arith)
        requires 0 <= t <= b < g.len(), 0 <= l <= r < g[0].len();
    assert(keeps_filled(g, s, t, l)) by {
        reveal(keeps_filled);
        assert forall|i: int, j: int| #[trigger] filled_at(g, i, j) implies
            filled_at(s, i - t, j - l) && s[i - t][j - l] == g[i][j] by {
            assert(s[i - t][j - l] == g[t + (i - t)][l + (j - l)]);
        }
        assert forall|i: int, j: int| #[trigger] filled_at(s, i, j) implies filled_at(g, i + t, j + l) by {
            assert(s[i][j] == g[t + i][l + j]);
            assert(g[t + i].len() == g[0].len());
        }
    }
    assert(is_bounding_box(s, 0, b - t, 0, r - l)) by {
        let jt = choose|j: int| filled_at(g, t, j);
        let jb = choose|j: int| filled_at(g, b, j);
        let il = choose|i: int| filled_at(g, i, l);
        let ir = choose|i: int| filled_at(g, i, r);
        assert(filled_at(g, t, jt) && filled_at(g, b, jb) && filled_at(g, il, l) && filled_at(g, ir, r));
        assert(s[0][jt - l] == g[t][jt]);
        assert(s[b - t][jb - l] == g[b][jb]);
        assert(s[il - t][0] == g[il][l]);
        assert(s[ir - t][r - l] == g[ir][r]);
        assert(filled_at(s, 0, jt - l));
        assert(filled_at(s, b - t, jb - l));
        assert(filled_at(s, il - t, 0));
        assert(filled_at(s, ir - t, r - l));
        assert forall|i: int, j: int| #[trigger] filled_at(s, i, j) implies 0 <= i <= b - t && 0 <= j <= r - l by {
        }
    }
}

/// Trimming leaves no empty border row or column, keeps every filled square
/// with its value at the same offset from the others, and trimming again
/// changes nothing.
pub proof fn lemma_trim_laws(g: Seq<Seq<CardSquareType>>)
    requires
        is_grid(g),
        has_filled(g),
    ensures
        is_grid(trimmed(g)),
        is_bounding_box(trimmed(g), 0, trimmed(g).len() - 1, 0, trimmed(g)[0].len() - 1),
        exists|t: int, l: int| #[trigger] keeps_filled(g, trimmed(g), t, l),
        trimmed(trimmed(g)) == trimmed(g),
{
    let (t, b, l, r) = lemma_bounding_box_exists(g);
    lemma_trimmed_is_box(g, t, b, l, r);
    let s = subgrid(g, t, b, l, r);
    assert(trimmed(g) == s);
    lemma_subgrid_box(g, t, b, l, r);
    assert(is_bounding_box(s, 0, s.len() - 1, 0, s[0].len() - 1));
    lemma_trimmed_is_box(s, 0, b - t, 0, r - l);
    assert(trimmed(s) =~~= s) by {
        lemma_subgrid_cells(s, 0, b - t, 0, r - l);
    }
}

/// The number of positions `(a, b)` with `b < w` that satisfy `pred`.
pub open spec fn row_pos_count(a: int, w: int, pred: spec_fn(int, int) -> bool) -> nat
    decreases w,
{
    if w <= 0 {
        0
    } else {
        row_pos_count(a, w - 1, pred) + if pred(a, w - 1) { 1nat } else { 0nat }
    }
}

/// The number of positions `(a, b)` with `a < h` and `b < w` that satisfy `pred`.
pub open spec fn pos_count(h: int, w: int, pred: spec_fn(int, int) -> bool) -> nat
    decreases h,
{
    if h <= 0 {
        0
    } else {
        pos_count(h - 1, w, pred) + row_pos_count(h - 1, w, pred)
    }
}

/// The sum of `f(a)` over `0 <= a < n`.
pub open spec fn sum_to(n: int, f: spec_fn(int) -> nat) -> nat
    decreases n,
{
    if n <= 0 {
        0
    } else {
        sum_to(n - 1, f) + f(n - 1)
    }
}

proof fn lemma_sum_congruent(n: int, f: spec_fn(int) -> nat, g: spec_fn(int) -> nat)
    requires
        forall|a: int| 0 <= a < n ==> #[trigger] f(a) == g(a),
    ensures
        sum_to(n, f) == sum_to(n, g),
    decreases n,
{
    if n > 0 {
        lemma_sum_congruent(n - 1, f, g);
    }
}

proof fn lemma_sum_add(n: int, f: spec_fn(int) -> nat, g: spec_fn(int) -> nat)
    ensures
        sum_to(n, |a: int| f(a) + g(a)) == sum_to(n, f) + sum_to(n, g),
    decreases n,
{
    if n > 0 {
        lemma_sum_add(n - 1, f, g);
    }
}

proof fn lemma_sum_shift(n: int, f: spec_fn(int) -> nat)
    requires
        n >= 1,
    ensures
        sum_to(n, f) == f(0) + sum_to(n - 1, |a: int| f(a + 1)),
    decreases n,
{
    let g = |a: int| f(a + 1);
    if n > 1 {
        lemma_sum_shift(n - 1, f);
        assert(sum_to(n - 1, g) == sum_to(n - 2, g) + g(n - 2));
        assert(sum_to(n, f) == sum_to(n - 1, f) + f(n - 1));
    } else {
        assert(sum_to(n - 1, g) == 0);
        assert(sum_to(n, f) == sum_to(0, f) + f(0));
    }
}

proof fn lemma_sum_reverse(n: int, f: spec_fn(int) -> nat)
    requires
        n >= 0,
    ensures
        sum_to(n, |a: int| f(n - 1 - a)) == sum_to(n, f),
    decreases n,
{
    if n > 0 {
        let rev = |a: int| f(n - 1 - a);
        let g = |k: int| f(k + 1);
        // the first n - 1 terms of the reversed sum are the reversed sum of g
        lemma_sum_reverse(n - 1, g);
        lemma_sum_congruent(n - 1, rev, |a: int| g(n - 1 - 1 - a));
        lemma_sum_shift(n, f);
    }
}

proof fn lemma_row_pos_count_sum(a: int, w: int, pred: spec_fn(int, int) -> bool)
    ensures
        row_pos_count(a, w, pred) == sum_to(w, |b: int| if pred(a, b) { 1nat } else { 0nat }),
    decreases w,
{
    if w > 0 {
        lemma_row_pos_count_sum(a, w - 1, pred);
    }
}

proof fn lemma_pos_count_sum(h: int, w: int, pred: spec_fn(int, int) -> bool)
    ensures
        pos_count(h, w, pred) == sum_to(h, |a: int| row_pos_count(a, w, pred)),
    decreases h,
{
    if h > 0 {
        lemma_pos_count_sum(h - 1, w, pred);
    }
}

proof fn lemma_pos_count_congruent(h: int, w: int, p: spec_fn(int, int) -> bool, q: spec_fn(int, int) -> bool)
    requires
        forall|a: int, b: int| 0 <= a < h && 0 <= b < w ==> #[trigger] p(a, b) == q(a, b),
    ensures
        pos_count(h, w, p) == pos_count(h, w, q),
    decreases h,
{
    if h > 0 {
        lemma_pos_count_congruent(h - 1, w, p, q);
        lemma_row_pos_count_sum(h - 1, w, p);
        lemma_row_pos_count_sum(h - 1, w, q);
        lemma_sum_congruent(w, |b: int| if p(h - 1, b) { 1nat } else { 0nat }, |b: int| if q(h - 1, b) { 1nat } else { 0nat });
    }
}

/// Counting over the transposed positions gives the same number.
proof fn lemma_pos_count_transpose(h: int, w: int, p: spec_fn(int, int) -> bool)
    requires
        h >= 0,
        w >= 0,
    ensures
        pos_count(w, h, |i: int, j: int| p(j, i)) == pos_count(h, w, p),
    decreases h,
{
    let t = |i: int, j: int| p(j, i);
    if h == 0 {
        lemma_pos_count_sum(w, 0, t);
        lemma_sum_congruent(w, |a: int| row_pos_count(a, 0, t), |a: int| 0nat);
        lemma_sum_zero(w);
    } else {
        let t1 = |i: int, j: int| p(j, i);
        lemma_pos_count_transpose(h - 1, w, p);
        // pos_count(w, h, t) = sum_i (row(i, h - 1) + [p(h - 1, i)])
        lemma_pos_count_sum(w, h, t);
        lemma_pos_count_sum(w, h - 1, t);
        let r_h = |i: int| row_pos_count(i, h, t);
        let r_h1 = |i: int| row_pos_count(i, h - 1, t);
        let last = |i: int| if p(h - 1, i) { 1nat } else { 0nat };
        lemma_sum_congruent(w, r_h, |i: int| r_h1(i) + last(i));
        lemma_sum_add(w, r_h1, last);
        lemma_row_pos_count_sum(h - 1, w, p);
        assert(pos_count(w, h - 1, t) == pos_count(w, h - 1, t1));
    }
}

proof fn lemma_sum_zero(n: int)
    ensures
        sum_to(n, |a: int| 0nat) == 0,
    decreases n,
{
    if n > 0 {
        lemma_sum_zero(n - 1);
    }
}

/// Counting over the positions with the rows in reverse order gives the same number.
proof fn lemma_pos_count_reflect(h: int, w: int, p: spec_fn(int, int) -> bool)
    requires
        h >= 0,
    ensures
        pos_count(h, w, |i: int, j: int| p(h - 1 - i, j)) == pos_count(h, w, p),
{
    let q = |i: int, j: int| p(h - 1 - i, j);
    lemma_pos_count_sum(h, w, q);
    lemma_pos_count_sum(h, w, p);
    let rp = |a: int| row_pos_count(a, w, p);
    assert forall|a: int| 0 <= a < h implies row_pos_count(a, w, q) == rp(h - 1 - a) by {
        lemma_row_pos_count_sum(a, w, q);
        lemma_row_pos_count_sum(h - 1 - a, w, p);
        lemma_sum_congruent(w, |b: int| if q(a, b) { 1nat } else { 0nat }, |b: int| if p(h - 1 - a, b) { 1nat } else { 0nat });
    }
    lemma_sum_congruent(h, |a: int| row_pos_count(a, w, q), |a: int| rp(h - 1 - a));
    lemma_sum_reverse(h, rp);
}

proof fn lemma_row_count_pos(r: Seq<CardSquareType>, g: Seq<Seq<CardSquareType>>, a: int, w: int)
    requires
        0 <= a < g.len(),
        0 <= w <= g[a].len(),
        r == g[a].take(w),
    ensures
        row_count(r, filled_pred()) == row_pos_count(a, w, |i: int, j: int| filled_at(g, i, j)),
    decreases w,
{
    if w > 0 {
        assert(r.drop_last() == g[a].take(w - 1));
        lemma_row_count_pos(r.drop_last(), g, a, w - 1);
    }
}

/// The number of filled squares of a grid, as a count over positions.
proof fn lemma_grid_count_pos(g: Seq<Seq<CardSquareType>>, n: int)
    requires
        is_grid(g),
        0 <= n <= g.len(),
    ensures
        grid_count(g.take(n), filled_pred()) == pos_count(n, g[0].len() as int, |i: int, j: int| filled_at(g, i, j)),
    decreases n,
{
    if n > 0 {
        lemma_grid_count_pos(g, n - 1);
        assert(g.take(n).drop_last() == g.take(n - 1));
        assert(g[n - 1].take(g[0].len() as int) == g[n - 1]);
        lemma_row_count_pos(g[n - 1], g, n - 1, g[0].len() as int);
    }
}

/// A quarter turn keeps the number of filled squares.
pub proof fn lemma_rotate_keeps_count(g: Seq<Seq<CardSquareType>>)
    requires
        is_grid(g),
    ensures
        grid_count(rotate_grid(g), filled_pred()) == grid_count(g, filled_pred()),
{
    let h = g.len() as int;
    let w = g[0].len() as int;
    let r = rotate_grid(g);
    assert(is_grid(r)) by {
        assert(h * w == w * h) by (nonlinear_arith);
    }
    lemma_grid_count_pos(g, h);
    lemma_grid_count_pos(r, w);
    assert(g.take(h) == g);
    assert(r.take(w) == r);
    let f = |i: int, j: int| filled_at(g, i, j);
    let fr = |i: int, j: int| filled_at(r, i, j);
    let refl = |i: int, j: int| f(h - 1 - i, j);
    // square (i, j) of the turned grid is square (h - 1 - j, i) of g
    lemma_pos_count_congruent(w, h, fr, |i: int, j: int| refl(j, i));
    lemma_pos_count_transpose(h, w, refl);
    lemma_pos_count_reflect(h, w, f);
}

} // verus!
