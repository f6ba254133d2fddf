//! Words and decimal numbers in text.
use vstd::prelude::*;

verus! {

/// The decimal digit character for `d < 10`.
pub open spec fn digit_char(d: nat) -> char {
    if d == 0 { '0' } else if d == 1 { '1' } else if d == 2 { '2' } else if d == 3 { '3' }
    else if d == 4 { '4' } else if d == 5 { '5' } else if d == 6 { '6' } else if d == 7 { '7' }
    else if d == 8 { '8' } else { '9' }
}

pub open spec fn is_digit(c: char) -> bool {
    '0' <= c <= '9'
}

pub open spec fn digit_value(c: char) -> nat {
    (c as int - '0' as int) as nat
}

/// The decimal text of `n`, without leading zeros.
pub open spec fn decimal(n: nat) -> Seq<char>
    decreases n,
{
    if n < 10 {
        seq![digit_char(n)]
    } else {
        decimal(n / 10).push(digit_char(n % 10))
    }
}

/// The number that a sequence of digits denotes.
pub open spec fn digits_value(s: Seq<char>) -> nat
    decreases s.len(),
{
    if s.len() == 0 {
        0
    } else {
        digits_value(s.drop_last()) * 10 + digit_value(s.last())
    }
}

/// A non-empty run of digits whose value fits in a `usize`.
pub open spec fn is_number(s: Seq<char>) -> bool {
    &&& s.len() > 0
    &&& forall|i: int| 0 <= i < s.len() ==> is_digit(#[trigger] s[i])
    &&& digits_value(s) <= usize::MAX
}

pub proof fn lemma_decimal_is_number(n: nat)
    ensures
        decimal(n).len() > 0,
        forall|i: int| 0 <= i < decimal(n).len() ==> is_digit(#[trigger] decimal(n)[i]),
        digits_value(decimal(n)) == n,
    decreases n,
{
    let d = decimal(n);
    assert(digit_value(digit_char(n % 10)) == n % 10);
    if n >= 10 {
        lemma_decimal_is_number(n / 10);
        assert(d.drop_last() == decimal(n / 10));
        assert(forall|i: int| 0 <= i < d.len() - 1 ==> d[i] == decimal(n / 10)[i]);
        assert(d.last() == digit_char(n % 10));
        assert(digits_value(d) == digits_value(d.drop_last()) * 10 + digit_value(d.last()));
        assert((n / 10) * 10 + n % 10 == n);
    } else {
        assert(d.drop_last() == Seq::<char>::empty());
        assert(digits_value(d) == digits_value(d.drop_last()) * 10 + digit_value(d.last()));
    }
}

/// A blank: a space, tab, carriage return or newline.
pub open spec fn is_sep(c: char) -> bool {
    c == ' ' || c == '\t' || c == '\r' || c == '\n'
}

/// Separates words: a space only when `spaces_only`, else any blank.
pub open spec fn is_sep_in(c: char, spaces_only: bool) -> bool {
    if spaces_only {
        c == ' '
    } else {
        is_sep(c)
    }
}

/// The maximal runs of non-separator characters of `s`, in order.
pub open spec fn words_in(s: Seq<char>, spaces_only: bool) -> Seq<Seq<char>>
    decreases s.len(),
{
    if s.len() == 0 {
        Seq::empty()
    } else {
        let prev = words_in(s.drop_last(), spaces_only);
        if is_sep_in(s.last(), spaces_only) {
            prev
        } else if s.len() >= 2 && !is_sep_in(s[s.len() - 2], spaces_only) {
            prev.update(prev.len() - 1, prev.last().push(s.last()))
        } else {
            prev.push(seq![s.last()])
        }
    }
}

/// The words of `s` between blanks.
pub open spec fn words(s: Seq<char>) -> Seq<Seq<char>> {
    words_in(s, false)
}

/// A non-empty word without blanks.
pub open spec fn is_word(t: Seq<char>) -> bool {
    t.len() > 0 && forall|i: int| 0 <= i < t.len() ==> !is_sep(#[trigger] t[i])
}

/// `s` without the blanks at its end.
pub open spec fn trim_end(s: Seq<char>) -> Seq<char>
    decreases s.len(),
{
    if s.len() > 0 && is_sep(s.last()) {
        trim_end(s.drop_last())
    } else {
        s
    }
}

/// `s` without the blanks at its start.
pub open spec fn trim_start(s: Seq<char>) -> Seq<char>
    decreases s.len(),
{
    if s.len() > 0 && is_sep(s[0]) {
        trim_start(s.drop_first())
    } else {
        s
    }
}

/// `s` without the blanks around it.
pub open spec fn trim_blanks(s: Seq<char>) -> Seq<char> {
    trim_start(trim_end(s))
}

/// Appending a word after a separator adds that word.
pub proof fn lemma_words_append(s: Seq<char>, t: Seq<char>, spaces_only: bool)
    requires
        is_word(t),
        s.len() == 0 || is_sep_in(s.last(), spaces_only),
    ensures
        words_in(s + t, spaces_only) == words_in(s, spaces_only).push(t),
    decreases t.len(),
{
    if t.len() == 1 {
        assert((s + t).drop_last() == s);
        assert(seq![t[0]] == t);
    } else {
        let t1 = t.drop_last();
        lemma_words_append(s, t1, spaces_only);
        assert((s + t).drop_last() == s + t1);
        assert((s + t)[(s + t).len() - 2] == t1.last());
        assert(t1.push(t.last()) == t);
    }
}

/// Words joined by single spaces.
pub open spec fn join_words(ws: Seq<Seq<char>>) -> Seq<char>
    decreases ws.len(),
{
    if ws.len() == 0 {
        Seq::empty()
    } else if ws.len() == 1 {
        ws[0]
    } else {
        join_words(ws.drop_last()) + seq![' '] + ws.last()
    }
}

/// Splitting words joined by spaces gives back the words.
pub proof fn lemma_words_of_join(ws: Seq<Seq<char>>, spaces_only: bool)
    requires
        forall|i: int| 0 <= i < ws.len() ==> is_word(#[trigger] ws[i]),
    ensures
        words_in(join_words(ws), spaces_only) == ws,
    decreases ws.len(),
{
    if ws.len() == 1 {
        lemma_words_append(Seq::empty(), ws[0], spaces_only);
        assert(Seq::<char>::empty() + ws[0] == ws[0]);
        assert(Seq::<Seq<char>>::empty().push(ws[0]) == ws);
    } else if ws.len() > 1 {
        let p = ws.drop_last();
        lemma_words_of_join(p, spaces_only);
        let s = join_words(p) + seq![' '];
        assert(s.drop_last() == join_words(p));
        lemma_words_append(s, ws.last(), spaces_only);
        assert(p.push(ws.last()) == ws);
    }
}

/// Words joined by spaces start with the first word's first character and end
/// with the last word's last character.
pub proof fn lemma_join_words_ends(ws: Seq<Seq<char>>)
    requires
        ws.len() >= 1,
        forall|i: int| 0 <= i < ws.len() ==> (#[trigger] ws[i]).len() > 0,
    ensures
        join_words(ws).len() > 0,
        join_words(ws)[0] == ws[0][0],
        join_words(ws).last() == ws.last().last(),
    decreases ws.len(),
{
    if ws.len() > 1 {
        lemma_join_words_ends(ws.drop_last());
    }
}

/// Text whose first and last characters are not blanks has no blanks to trim.
pub proof fn lemma_trim_blanks_id(s: Seq<char>)
    requires
        s.len() > 0,
        !is_sep(s[0]),
        !is_sep(s.last()),
    ensures
        trim_blanks(s) == s,
{
}

/// Whether `c` is a blank.
pub fn is_sep_exec(c: char) -> (r: bool)
    ensures
        r == is_sep(c),
{
    c == ' ' || c == '\t' || c == '\r' || c == '\n'
}

/// The characters without the blanks around them.
pub fn trim_blanks_exec(cs: &Vec<char>) -> (r: Vec<char>)
    ensures
        r@ == trim_blanks(cs@),
{
    let mut hi: usize = cs.len();
    assert(cs@.take(hi as int) == cs@);
    while hi > 0 && is_sep_exec(cs[hi - 1])
        invariant
            hi <= cs@.len(),
            trim_end(cs@) == trim_end(cs@.take(hi as int)),
        decreases hi,
    {
        assert(cs@.take(hi as int).drop_last() == cs@.take(hi - 1));
        hi = hi - 1;
    }
    let ghost u = cs@.take(hi as int);
    assert(trim_end(u) == u);
    let mut lo: usize = 0;
    assert(u.subrange(0, hi as int) == u);
    while lo < hi && is_sep_exec(cs[lo])
        invariant
            hi <= cs@.len(),
            u == cs@.take(hi as int),
            lo <= hi,
            trim_start(u) == trim_start(u.subrange(lo as int, hi as int)),
        decreases hi - lo,
    {
        assert(u.subrange(lo as int, hi as int).drop_first() == u.subrange(lo + 1, hi as int));
        lo = lo + 1;
    }
    let mut r: Vec<char> = Vec::new();
    let mut k: usize = lo;
    while k < hi
        invariant
            hi <= cs@.len(),
            lo <= k <= hi,
            r@ == cs@.subrange(lo as int, k as int),
        decreases hi - k,
    {
        r.push(cs[k]);
        assert(cs@.subrange(lo as int, k + 1) == cs@.subrange(lo as int, k as int).push(cs@[k as int]));
        k = k + 1;
    }
    assert(r@ == u.subrange(lo as int, hi as int));
    r
}

/// Splits a text into its words.
pub fn split_words(s: &str) -> (r: Vec<Vec<char>>)
    ensures
        r@.map_values(|w: Vec<char>| w@) == words(s@),
{
    let cs = crate::shape::chars_of(s);
    split_words_of(&cs)
}

/// Splits a sequence of characters into its words between blanks.
pub fn split_words_of(cs: &Vec<char>) -> (r: Vec<Vec<char>>)
    ensures
        r@.map_values(|w: Vec<char>| w@) == words(cs@),
{
    split_words_in(cs, false)
}

/// Splits a sequence of characters into its words: at spaces only when
/// `spaces_only`, else at any blank.
pub fn split_words_in(cs: &Vec<char>, spaces_only: bool) -> (r: Vec<Vec<char>>)
    ensures
        r@.map_values(|w: Vec<char>| w@) == words_in(cs@, spaces_only),
{
    let n = cs.len();
    let mut r: Vec<Vec<char>> = Vec::new();
    let mut cur: Vec<char> = Vec::new();
    let mut in_word = false;
    let mut i: usize = 0;
    while i < n
        invariant
            n == cs@.len(),
            i <= n,
            in_word == (i > 0 && !is_sep_in(cs@[i - 1], spaces_only)),
            in_word ==> cur@.len() > 0 && words_in(cs@.take(i as int), spaces_only) == r@.map_values(|w: Vec<char>| w@).push(cur@),
            !in_word ==> words_in(cs@.take(i as int), spaces_only) == r@.map_values(|w: Vec<char>| w@),
        decreases n - i,
    {
        let c = cs[i];
        let ghost t = cs@.take(i + 1);
        assert(t.drop_last() == cs@.take(i as int));
        assert(t.last() == c);
        let sep = if spaces_only { c == ' ' } else { is_sep_exec(c) };
        if sep {
            if in_word {
                r.push(cur);
                cur = Vec::new();
            }
            in_word = false;
        } else {
            if in_word {
                assert(t[t.len() - 2] == cs@[i - 1]);
                cur.push(c);
            } else {
                cur = Vec::new();
                cur.push(c);
                assert(cur@ == seq![c]);
            }
            in_word = true;
        }
        i = i + 1;
    }
    if in_word {
        r.push(cur);
    }
    assert(cs@.take(n as int) == cs@);
    r
}

/// Reads a run of digits as a number; `None` where it is not a number that fits.
pub fn parse_number(w: &Vec<char>) -> (r: Option<usize>)
    ensures
        match r {
            Some(v) => is_number(w@) && v == digits_value(w@),
            None => !is_number(w@),
        },
{
    if w.len() == 0 {
        return None;
    }
    let mut v: usize = 0;
    let mut i: usize = 0;
    while i < w.len()
        invariant
            i <= w.len(),
            v == digits_value(w@.take(i as int)),
            forall|k: int| 0 <= k < i ==> is_digit(#[trigger] w@[k]),
        decreases w.len() - i,
    {
        let c = w[i];
        assert(w@.take(i + 1).drop_last() == w@.take(i as int));
        if !('0' <= c && c <= '9') {
            return None;
        }
        let d = (c as u32 - '0' as u32) as usize;
        match v.checked_mul(10) {
            None => {
                proof { lemma_digits_value_prefix(w@, i + 1); }
                return None;
            },
            Some(m) => match m.checked_add(d) {
                None => {
                    proof { lemma_digits_value_prefix(w@, i + 1); }
                    return None;
                },
                Some(nv) => {
                    v = nv;
                },
            },
        }
        i = i + 1;
    }
    assert(w@.take(i as int) == w@);
    Some(v)
}

proof fn lemma_digits_value_prefix(s: Seq<char>, k: int)
    requires
        0 <= k <= s.len(),
    ensures
        digits_value(s.take(k)) <= digits_value(s),
    decreases s.len() - k,
{
    if k < s.len() {
        lemma_digits_value_prefix(s, k + 1);
        assert(s.take(k + 1).drop_last() == s.take(k));
    } else {
        assert(s.take(k) == s);
    }
}

/// The digit text for `d < 10`.
fn digit_str(d: usize) -> (r: &'static str)
    requires
        d < 10,
    ensures
        r@ == seq![digit_char(d as nat)],
{
    proof {
        reveal_strlit("0"); reveal_strlit("1"); reveal_strlit("2"); reveal_strlit("3");
        reveal_strlit("4"); reveal_strlit("5"); reveal_strlit("6"); reveal_strlit("7");
        reveal_strlit("8"); reveal_strlit("9");
    }
    if d == 0 { "0" } else if d == 1 { "1" } else if d == 2 { "2" } else if d == 3 { "3" }
    else if d == 4 { "4" } else if d == 5 { "5" } else if d == 6 { "6" } else if d == 7 { "7" }
    else if d == 8 { "8" } else { "9" }
}

/// Appends the decimal text of `n`.
pub fn push_decimal(s: &mut String, n: usize)
    ensures
        final(s)@ == old(s)@ + decimal(n as nat),
    decreases n,
{
    if n >= 10 {
        push_decimal(s, n / 10);
    }
    s.append(digit_str(n % 10));
    proof {
        if n >= 10 {
            assert(old(s)@ + decimal(n as nat) == old(s)@ + decimal((n / 10) as nat) + seq![digit_char((n % 10) as nat)]);
        }
    }
}

} // verus!
