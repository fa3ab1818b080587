//! Splits a GraphQL document into tokens.

use vstd::prelude::*;
use crate::text::{is_whitespace, spec_is_whitespace, to_chars};

verus! {

/// Characters that end the token before them and, but for `.`, form a token of their own.
pub open spec fn is_token_breaker(c: char) -> bool {
    c == '{' || c == '}' || c == '(' || c == ')' || c == '[' || c == ']' || c == ':' || c == '='
        || c == '$' || c == '.'
}

/// Whitespace and commas separate tokens and are otherwise ignored.
pub open spec fn is_insignificant(c: char) -> bool {
    spec_is_whitespace(c) || c == ','
}

/// Where the tokenizer stands between two tokens.
pub struct ScanState {
    pub escaping: bool,
    pub in_quotes: bool,
    pub completed: bool,
    pub pos: int,
}

/// The result of reading on from character `i`, the pending token starting at `start`:
/// the state after the token and the character range of the token, if there is one.
pub open spec fn scan(s: Seq<char>, escaping: bool, in_quotes: bool, start: int, i: int) -> (
    ScanState,
    Option<(int, int)>,
)
    decreases s.len() - i,
{
    if i < 0 || i >= s.len() {
        (ScanState { escaping, in_quotes, completed: true, pos: start }, None)
    } else {
        let c = s[i];
        if !in_quotes && (is_token_breaker(c) || is_insignificant(c)) {
            if i > start {
                (ScanState { escaping, in_quotes, completed: false, pos: i }, Some((start, i)))
            } else if c == '.' {
                if i + 1 < s.len() && s[i + 1] == '.' {
                    if i + 2 < s.len() && s[i + 2] == '.' {
                        (
                            ScanState { escaping, in_quotes, completed: false, pos: start + 3 },
                            Some((start, start + 3)),
                        )
                    } else {
                        (
                            ScanState { escaping, in_quotes, completed: false, pos: start + 2 },
                            Some((start, start + 2)),
                        )
                    }
                } else {
                    (
                        ScanState { escaping, in_quotes, completed: false, pos: start + 1 },
                        Some((start, start + 1)),
                    )
                }
            } else if !is_insignificant(c) {
                (ScanState { escaping, in_quotes, completed: false, pos: i + 1 }, Some((i, i + 1)))
            } else {
                scan(s, escaping, in_quotes, i + 1, i + 1)
            }
        } else if c == '\\' {
            scan(s, true, in_quotes, start, i + 1)
        } else if c == '"' && !escaping {
            scan(s, false, !in_quotes, start, i + 1)
        } else {
            scan(s, false, in_quotes, start, i + 1)
        }
    }
}

/// One call of `Tokenizer::next` from state `st`.
pub open spec fn step(s: Seq<char>, st: ScanState) -> (ScanState, Option<(int, int)>) {
    if st.completed {
        (st, None)
    } else {
        scan(s, st.escaping, st.in_quotes, st.pos, st.pos)
    }
}

/// The first position at or after `i` that holds a significant character, or the end.
pub open spec fn first_significant(s: Seq<char>, i: int) -> int
    decreases s.len() - i,
{
    if i < 0 || i >= s.len() {
        if i < 0 { 0 } else { s.len() as int }
    } else if is_insignificant(s[i]) {
        first_significant(s, i + 1)
    } else {
        i
    }
}

/// The state in which a new tokenizer starts.
pub open spec fn initial_state(s: Seq<char>) -> ScanState {
    ScanState { escaping: false, in_quotes: false, completed: false, pos: first_significant(s, 0) }
}

/// Every token that the tokenizer yields from state `st` on, in order.
pub open spec fn tokens_from(s: Seq<char>, st: ScanState) -> Seq<Seq<char>>
    decreases s.len() - st.pos,
    when 0 <= st.pos <= s.len()
    via tokens_from_decreases
{
    let (st2, r) = step(s, st);
    match r {
        Some((a, b)) => seq![s.subrange(a, b)] + tokens_from(s, st2),
        None => Seq::empty(),
    }
}

#[via_fn]
proof fn tokens_from_decreases(s: Seq<char>, st: ScanState) {
    if !st.completed {
        lemma_scan(s, st.escaping, st.in_quotes, st.pos, st.pos);
    }
}

/// The tokens of a whole document.
pub open spec fn spec_tokenize(s: Seq<char>) -> Seq<Seq<char>> {
    tokens_from(s, initial_state(s))
}

/// A token found by `scan` is a non-empty range after `start`, and the state moves to its end.
pub proof fn lemma_scan(s: Seq<char>, escaping: bool, in_quotes: bool, start: int, i: int)
    requires
        0 <= start <= i <= s.len(),
    ensures
        ({
            let (st, r) = scan(s, escaping, in_quotes, start, i);
            match r {
                Some((a, b)) => start <= a < b <= s.len() && st.pos == b && !st.completed,
                None => st.completed,
            }
        }),
    decreases s.len() - i,
{
    if i < s.len() {
        let c = s[i];
        if !in_quotes && (is_token_breaker(c) || is_insignificant(c)) {
            if i > start {
            } else if c == '.' {
            } else if !is_insignificant(c) {
            } else {
                lemma_scan(s, escaping, in_quotes, i + 1, i + 1);
            }
        } else if c == '\\' {
            lemma_scan(s, true, in_quotes, start, i + 1);
        } else if c == '"' && !escaping {
            lemma_scan(s, false, !in_quotes, start, i + 1);
        } else {
            lemma_scan(s, false, in_quotes, start, i + 1);
        }
    }
}

proof fn lemma_first_significant(s: Seq<char>, i: int)
    requires
        0 <= i <= s.len(),
    ensures
        i <= first_significant(s, i) <= s.len(),
    decreases s.len() - i,
{
    if i < s.len() && is_insignificant(s[i]) {
        lemma_first_significant(s, i + 1);
    }
}

/// A scan state moved `d` characters on.
pub open spec fn shift_state(st: ScanState, d: int) -> ScanState {
    ScanState { pos: st.pos + d, ..st }
}

/// A token range moved `d` characters on.
pub open spec fn shift_range(r: Option<(int, int)>, d: int) -> Option<(int, int)> {
    match r {
        Some((a, b)) => Some((a + d, b + d)),
        None => None,
    }
}

proof fn lemma_scan_shift(p: Seq<char>, s: Seq<char>, escaping: bool, in_quotes: bool, start: int, i: int)
    requires
        0 <= start <= i <= s.len(),
    ensures
        scan(p + s, escaping, in_quotes, start + p.len(), i + p.len()).0 == shift_state(
            scan(s, escaping, in_quotes, start, i).0,
            p.len() as int,
        ),
        scan(p + s, escaping, in_quotes, start + p.len(), i + p.len()).1 == shift_range(
            scan(s, escaping, in_quotes, start, i).1,
            p.len() as int,
        ),
    decreases s.len() - i,
{
    let d = p.len() as int;
    let t = p + s;
    if i < s.len() {
        assert(t[i + d] == s[i]);
        if i + 1 < s.len() {
            assert(t[i + 1 + d] == s[i + 1]);
        }
        if i + 2 < s.len() {
            assert(t[i + 2 + d] == s[i + 2]);
        }
        let c = s[i];
        if !in_quotes && (is_token_breaker(c) || is_insignificant(c)) {
            if i > start {
            } else if c == '.' {
            } else if !is_insignificant(c) {
            } else {
                lemma_scan_shift(p, s, escaping, in_quotes, i + 1, i + 1);
            }
        } else if c == '\\' {
            lemma_scan_shift(p, s, true, in_quotes, start, i + 1);
        } else if c == '"' && !escaping {
            lemma_scan_shift(p, s, false, !in_quotes, start, i + 1);
        } else {
            lemma_scan_shift(p, s, false, in_quotes, start, i + 1);
        }
    }
}

proof fn lemma_tokens_shift(p: Seq<char>, s: Seq<char>, st: ScanState)
    requires
        0 <= st.pos <= s.len(),
    ensures
        tokens_from(p + s, shift_state(st, p.len() as int)) == tokens_from(s, st),
    decreases s.len() - st.pos,
{
    let d = p.len() as int;
    let t = p + s;
    let st2 = shift_state(st, d);
    if !st.completed {
        lemma_scan_shift(p, s, st.escaping, st.in_quotes, st.pos, st.pos);
        lemma_scan(s, st.escaping, st.in_quotes, st.pos, st.pos);
        let (n, r) = step(s, st);
        if let Some((a, b)) = r {
            lemma_tokens_shift(p, s, n);
            assert(t.subrange(a + d, b + d) =~= s.subrange(a, b));
        }
    }
}

proof fn lemma_first_significant_shift(p: Seq<char>, s: Seq<char>, i: int)
    requires
        0 <= i <= p.len(),
        forall|j: int| 0 <= j < p.len() ==> is_insignificant(#[trigger] p[j]),
    ensures
        first_significant(p + s, i) == first_significant(s, 0) + p.len(),
    decreases p.len() + s.len() - i,
{
    let t = p + s;
    if i < p.len() {
        assert(t[i] == p[i]);
        lemma_first_significant_shift(p, s, i + 1);
    } else {
        lemma_first_significant_tail(p, s, 0);
    }
}

proof fn lemma_first_significant_tail(p: Seq<char>, s: Seq<char>, k: int)
    requires
        0 <= k <= s.len(),
    ensures
        first_significant(p + s, k + p.len()) == first_significant(s, k) + p.len(),
    decreases s.len() - k,
{
    let t = p + s;
    if k < s.len() {
        assert(t[k + p.len()] == s[k]);
        lemma_first_significant_tail(p, s, k + 1);
    }
}

/// Whitespace and commas before a document change none of its tokens.
pub proof fn law_leading_separators_ignored(p: Seq<char>, s: Seq<char>)
    requires
        forall|j: int| 0 <= j < p.len() ==> is_insignificant(#[trigger] p[j]),
    ensures
        spec_tokenize(p + s) == spec_tokenize(s),
{
    lemma_first_significant_shift(p, s, 0);
    lemma_first_significant(s, 0);
    assert(initial_state(p + s) == shift_state(initial_state(s), p.len() as int));
    lemma_tokens_shift(p, s, initial_state(s));
}

/// Splits a GraphQL document into tokens: names, punctuators and quoted strings.
pub struct Tokenizer<'a> {
    escaping: bool,
    in_quotes: bool,
    completed: bool,
    source: &'a str,
    chars: Vec<char>,
    pos: usize,
}

impl<'a> Tokenizer<'a> {
    /// The state that the tokenizer is in.
    pub closed spec fn state(&self) -> ScanState {
        ScanState {
            escaping: self.escaping,
            in_quotes: self.in_quotes,
            completed: self.completed,
            pos: self.pos as int,
        }
    }

    /// The document being split.
    pub closed spec fn text(&self) -> Seq<char> {
        self.source@
    }

    /// The internal invariant of the tokenizer.
    pub closed spec fn wf(&self) -> bool {
        &&& self.chars@ == self.source@
        &&& self.pos <= self.chars@.len()
    }

    /// The tokens that the tokenizer has still to yield.
    pub closed spec fn remaining(&self) -> Seq<Seq<char>> {
        tokens_from(self.source@, self.state())
    }

    pub fn new(string: &'a str) -> (r: Tokenizer<'a>)
        ensures
            r.wf(),
            r.text() == string@,
            r.remaining() == spec_tokenize(string@),
    {
        let chars = to_chars(string);
        let pos = skip_insignificant_characters(&chars);
        Tokenizer { escaping: false, in_quotes: false, completed: false, source: string, chars, pos }
    }

    /// Yields the next token, or `None` once the document is used up.
    pub fn next(&mut self) -> (r: Option<&'a str>)
        requires
            old(self).wf(),
        ensures
            final(self).wf(),
            final(self).text() == old(self).text(),
            old(self).remaining().len() > 0 ==> {
                &&& r is Some
                &&& r.unwrap()@ == old(self).remaining()[0]
                &&& final(self).remaining() == old(self).remaining().drop_first()
            },
            old(self).remaining().len() == 0 ==> r is None && final(self).remaining().len() == 0,
    {
        let ghost s = self.chars@;
        let ghost st0 = self.state();
        proof {
            reveal_with_fuel(tokens_from, 2);
        }
        if self.completed {
            return None;
        }
        let n = self.chars.len();
        let mut start = self.pos;
        let mut i = self.pos;
        proof {
            lemma_scan(s, st0.escaping, st0.in_quotes, st0.pos, st0.pos);
        }
        while i < n
            invariant
                s == self.chars@,
                s == self.source@,
                n == s.len(),
                st0.pos <= start <= i <= n,
                !self.completed,
                self.pos == st0.pos,
                self.source == old(self).source,
                st0 == old(self).state(),
                scan(s, self.escaping, self.in_quotes, start as int, i as int) == step(s, st0),
            decreases n - i,
        {
            let c = self.chars[i];
            let insignificant = is_insignificant_character(c);
            if !self.in_quotes && (is_token_breaker_char(c) || insignificant) {
                if i > start {
                    let result = self.source.substring_char(start, i);
                    self.pos = i;
                    return Some(result);
                } else if c == '.' {
                    if i + 1 < n && self.chars[i + 1] == '.' {
                        if i + 2 < n && self.chars[i + 2] == '.' {
                            let result = self.source.substring_char(start, start + 3);
                            self.pos = start + 3;
                            return Some(result);
                        } else {
                            let result = self.source.substring_char(start, start + 2);
                            self.pos = start + 2;
                            return Some(result);
                        }
                    } else {
                        let result = self.source.substring_char(start, start + 1);
                        self.pos = start + 1;
                        return Some(result);
                    }
                } else if !insignificant && i == start {
                    let result = self.source.substring_char(start, i + 1);
                    self.pos = i + 1;
                    return Some(result);
                } else {
                    start = i + 1;
                }
            } else if c == '\\' {
                self.escaping = true;
            } else if c == '"' && !self.escaping {
                self.escaping = false;
                self.in_quotes = !self.in_quotes;
            } else {
                self.escaping = false;
            }
            i = i + 1;
        }
        self.completed = true;
        None
    }

    /// All the tokens that the tokenizer has still to yield, in order.
    pub fn collect(self) -> (r: Vec<&'a str>)
        requires
            self.wf(),
        ensures
            r@.len() == self.remaining().len(),
            forall|k: int| 0 <= k < r@.len() ==> r@[k]@ == #[trigger] self.remaining()[k],
    {
        let ghost all = self.remaining();
        let mut t = self;
        let mut r: Vec<&'a str> = Vec::new();
        loop
            invariant
                t.wf(),
                all == self.remaining(),
                r@.len() + t.remaining().len() == all.len(),
                forall|k: int| 0 <= k < r@.len() ==> r@[k]@ == #[trigger] all[k],
                t.remaining() == all.subrange(r@.len() as int, all.len() as int),
            decreases t.remaining().len(),
        {
            let ghost before = t.remaining();
            match t.next() {
                Some(tok) => {
                    r.push(tok);
                }
                None => {
                    return r;
                }
            }
        }
    }
}

fn is_token_breaker_char(c: char) -> (r: bool)
    ensures
        r == is_token_breaker(c),
{
    c == '{' || c == '}' || c == '(' || c == ')' || c == '[' || c == ']' || c == ':' || c == '='
        || c == '$' || c == '.'
}

fn is_insignificant_character(c: char) -> (r: bool)
    ensures
        r == is_insignificant(c),
{
    is_whitespace(c) || c == ','
}

/// The position of the first significant character, or the length when there is none.
fn skip_insignificant_characters(chars: &Vec<char>) -> (r: usize)
    ensures
        r == first_significant(chars@, 0),
        r <= chars@.len(),
{
    let mut i: usize = 0;
    proof {
        lemma_first_significant(chars@, 0);
    }
    while i < chars.len()
        invariant
            i <= chars@.len(),
            first_significant(chars@, i as int) == first_significant(chars@, 0),
        decreases chars@.len() - i,
    {
        if !is_insignificant_character(chars[i]) {
            return i;
        }
        i = i + 1;
    }
    i
}

} // verus!
