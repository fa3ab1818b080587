//! A tokenizer that yields each token as an owned string, holding back the character that ended
//! a token for the next call.

use vstd::prelude::*;
use crate::text::{is_whitespace, to_chars, push_char, owned, strings_view};
use crate::graphql::parser::tokenizer::{is_token_breaker, is_insignificant, first_significant};

verus! {

/// Where the tokenizer stands: the character held back, if any, and the next one to read.
pub struct PsState {
    pub escaping: bool,
    pub in_quotes: bool,
    pub completed: bool,
    pub skipped: Option<char>,
    pub next: int,
}

/// The character at `i`, if there is one.
pub open spec fn char_at(s: Seq<char>, i: int) -> Option<char> {
    if 0 <= i < s.len() {
        Some(s[i])
    } else {
        None
    }
}

/// One past `i`, but not past the end.
pub open spec fn advance(s: Seq<char>, i: int) -> int {
    if i < s.len() {
        i + 1
    } else {
        i
    }
}

/// After a `.`, reading from `next`: `...`, `..` or `.`, the character that ends it held back.
pub open spec fn ps_dots(s: Seq<char>, st: PsState, next: int) -> (PsState, Option<Seq<char>>) {
    if char_at(s, next) == Some('.') {
        if char_at(s, next + 1) == Some('.') {
            (PsState { skipped: None, next: next + 2, ..st }, Some(seq!['.', '.', '.']))
        } else {
            (PsState { skipped: char_at(s, next + 1), next: advance(s, next + 1), ..st }, Some(seq!['.', '.']))
        }
    } else {
        (PsState { skipped: char_at(s, next), next: advance(s, next), ..st }, Some(seq!['.']))
    }
}

/// Reading on from `st.next` with `token` begun: the token ends at a separator outside quotes
/// (held back), a separator right at the start is a token of its own (whitespace and commas
/// are skipped, and a `.` starts `...`, `..` or `.`), and the end of the text completes the
/// tokenizer, giving what was begun if anything.
pub open spec fn ps_loop(s: Seq<char>, st: PsState, token: Seq<char>) -> (PsState, Option<Seq<char>>)
    decreases s.len() - st.next,
{
    if st.next < 0 || st.next >= s.len() {
        (PsState { completed: true, ..st }, if token.len() > 0 { Some(token) } else { None })
    } else {
        let c = s[st.next];
        let st1 = PsState { next: st.next + 1, ..st };
        if !st.in_quotes && (is_token_breaker(c) || is_insignificant(c)) {
            if token.len() > 0 {
                (PsState { skipped: Some(c), ..st1 }, Some(token))
            } else if is_insignificant(c) {
                ps_loop(s, st1, token)
            } else if c == '.' {
                ps_dots(s, st1, st1.next)
            } else {
                (st1, Some(seq![c]))
            }
        } else if c == '\\' {
            ps_loop(s, PsState { escaping: true, ..st1 }, token.push('\\'))
        } else if c == '"' && !st.escaping {
            ps_loop(s, PsState { escaping: false, in_quotes: !st.in_quotes, ..st1 }, token.push('"'))
        } else {
            ps_loop(s, PsState { escaping: false, ..st1 }, token.push(c))
        }
    }
}

/// One call of `ProcessedString::next` from state `st`: the character held back is looked at
/// first (a `.` starts `...`, `..` or `.`; another separator outside whitespace is a token of
/// its own; a quote opens a quoted string), then reading goes on as `ps_loop` says.
pub open spec fn ps_step(s: Seq<char>, st: PsState) -> (PsState, Option<Seq<char>>) {
    if st.completed {
        (st, None)
    } else {
        match st.skipped {
            Some(c) => if c == '.' {
                ps_dots(s, st, st.next)
            } else if is_token_breaker(c) {
                (PsState { skipped: None, ..st }, Some(seq![c]))
            } else if is_insignificant(c) {
                ps_loop(s, PsState { skipped: None, ..st }, Seq::empty())
            } else if c == '"' {
                ps_loop(s, PsState { skipped: None, in_quotes: true, ..st }, seq!['"'])
            } else {
                ps_loop(s, PsState { skipped: None, ..st }, seq![c])
            },
            None => ps_loop(s, st, Seq::empty()),
        }
    }
}

/// What decreases with each token that the tokenizer yields.
pub open spec fn ps_measure(s: Seq<char>, st: PsState) -> int {
    if st.completed {
        0
    } else {
        2 * (s.len() - st.next) + (if st.skipped is Some { 2int } else { 1int })
    }
}

/// Where the state stays: the next character within the text.
pub open spec fn ps_state_ok(s: Seq<char>, st: PsState) -> bool {
    0 <= st.next <= s.len()
}

proof fn lemma_ps_loop(s: Seq<char>, st: PsState, token: Seq<char>)
    requires
        ps_state_ok(s, st),
    ensures
        ps_state_ok(s, ps_loop(s, st, token).0),
        ps_loop(s, st, token).1 is None ==> ps_loop(s, st, token).0.completed,
        ps_loop(s, st, token).1 is Some ==> !ps_loop(s, st, token).0.completed && ps_measure(
            s,
            ps_loop(s, st, token).0,
        ) < 2 * (s.len() - st.next) + 1 || ps_loop(s, st, token).0.completed,
        ps_loop(s, st, token).0.next >= st.next,
    decreases s.len() - st.next,
{
    if 0 <= st.next < s.len() {
        let c = s[st.next];
        let st1 = PsState { next: st.next + 1, ..st };
        if !st.in_quotes && (is_token_breaker(c) || is_insignificant(c)) {
            if token.len() > 0 {
            } else if is_insignificant(c) {
                lemma_ps_loop(s, st1, token);
            } else if c == '.' {
            } else {
            }
        } else if c == '\\' {
            lemma_ps_loop(s, PsState { escaping: true, ..st1 }, token.push('\\'));
        } else if c == '"' && !st.escaping {
            lemma_ps_loop(s, PsState { escaping: false, in_quotes: !st.in_quotes, ..st1 }, token.push('"'));
        } else {
            lemma_ps_loop(s, PsState { escaping: false, ..st1 }, token.push(c));
        }
    }
}

/// Each call of `next` keeps the state within the text, and a call that yields a token brings
/// the measure down; one that yields none completes the tokenizer.
pub proof fn lemma_ps_step(s: Seq<char>, st: PsState)
    requires
        ps_state_ok(s, st),
    ensures
        ps_state_ok(s, ps_step(s, st).0),
        !st.completed && ps_step(s, st).1 is Some ==> ps_measure(s, ps_step(s, st).0) < ps_measure(s, st),
        !st.completed && ps_step(s, st).1 is None ==> ps_step(s, st).0.completed,
{
    if !st.completed {
        match st.skipped {
            Some(c) => if c == '.' {
            } else if is_token_breaker(c) {
            } else if is_insignificant(c) {
                lemma_ps_loop(s, PsState { skipped: None, ..st }, Seq::empty());
            } else if c == '"' {
                lemma_ps_loop(s, PsState { skipped: None, in_quotes: true, ..st }, seq!['"']);
            } else {
                lemma_ps_loop(s, PsState { skipped: None, ..st }, seq![c]);
            },
            None => lemma_ps_loop(s, st, Seq::empty()),
        }
    }
}

/// Every token that the tokenizer yields from state `st` on, in order.
pub open spec fn ps_tokens_from(s: Seq<char>, st: PsState) -> Seq<Seq<char>>
    decreases ps_measure(s, st),
    when ps_state_ok(s, st) && ps_measure(s, st) >= 0
    via ps_tokens_from_decreases
{
    if st.completed {
        Seq::empty()
    } else {
        let (st2, r) = ps_step(s, st);
        match r {
            Some(t) => seq![t] + ps_tokens_from(s, st2),
            None => Seq::empty(),
        }
    }
}

#[via_fn]
proof fn ps_tokens_from_decreases(s: Seq<char>, st: PsState) {
    lemma_ps_step(s, st);
}

/// The state in which a tokenizer for `s` starts.
pub open spec fn ps_initial(s: Seq<char>) -> PsState {
    PsState {
        escaping: false,
        in_quotes: false,
        completed: false,
        skipped: char_at(s, first_significant(s, 0)),
        next: advance(s, first_significant(s, 0)),
    }
}

/// The tokens of a whole document.
pub open spec fn ps_tokenize(s: Seq<char>) -> Seq<Seq<char>> {
    ps_tokens_from(s, ps_initial(s))
}

/// Splits a document into tokens, each an owned string.
pub struct ProcessedString<'a> {
    escaping: bool,
    in_quotes: bool,
    completed: bool,
    skipped_char: Option<char>,
    source: &'a String,
    chars: Vec<char>,
    next: usize,
}

impl<'a> ProcessedString<'a> {
    /// The state the tokenizer is in.
    pub closed spec fn state(&self) -> PsState {
        PsState {
            escaping: self.escaping,
            in_quotes: self.in_quotes,
            completed: self.completed,
            skipped: self.skipped_char,
            next: self.next as int,
        }
    }

    /// The document being split.
    pub closed spec fn text(&self) -> Seq<char> {
        self.source@
    }

    /// The internal invariant of the tokenizer.
    pub closed spec fn wf(&self) -> bool {
        &&& self.chars@ == self.source@
        &&& 0 <= self.next <= self.chars@.len()
    }

    /// The tokens that the tokenizer has still to yield.
    pub closed spec fn remaining(&self) -> Seq<Seq<char>> {
        ps_tokens_from(self.source@, self.state())
    }

    /// A tokenizer for `string`: its first significant character is held back, and reading goes
    /// on after it.
    pub fn new(string: &'a String) -> (r: ProcessedString<'a>)
        ensures
            r.wf(),
            r.text() == string@,
            r.remaining() == ps_tokenize(string@),
            r.state() == (PsState {
                escaping: false,
                in_quotes: false,
                completed: false,
                skipped: char_at(string@, first_significant(string@, 0)),
                next: advance(string@, first_significant(string@, 0)),
            }),
    {
        let chars = to_chars(string.as_str());
        let (skipped_char, next) = skip_insignificant_characters(&chars);
        ProcessedString {
            escaping: false,
            in_quotes: false,
            completed: false,
            skipped_char: skipped_char,
            source: string,
            chars: chars,
            next: next,
        }
    }
}

impl<'a> ProcessedString<'a> {
    /// All the tokens that the tokenizer has still to yield, in order.
    pub fn collect(self) -> (r: Vec<String>)
        requires
            self.wf(),
        ensures
            strings_view(r@) == self.remaining(),
    {
        let ghost all = self.remaining();
        let mut t = self;
        let mut r: Vec<String> = Vec::new();
        assert(strings_view(r@) + t.remaining() =~= all);
        loop
            invariant
                t.wf(),
                all == self.remaining(),
                strings_view(r@) + t.remaining() == all,
            decreases ps_measure(t.text(), t.state()),
        {
            let ghost s = t.text();
            let ghost st = t.state();
            proof {
                lemma_ps_step(s, st);
            }
            let ghost before = strings_view(r@);
            match t.next() {
                Some(tok) => {
                    let ghost tv = tok@;
                    r.push(tok);
                    assert(strings_view(r@) =~= before.push(tv));
                    assert(ps_tokens_from(s, st) == seq![tv] + ps_tokens_from(s, t.state()));
                    assert(strings_view(r@) + t.remaining() =~= before + (seq![tv] + t.remaining()));
                },
                None => {
                    assert(t.remaining() =~= Seq::<Seq<char>>::empty()) by {
                        if !st.completed {
                            assert(ps_step(s, st).0.completed);
                        }
                    }
                    assert(strings_view(r@) + Seq::<Seq<char>>::empty() =~= strings_view(r@));
                    return r;
                },
            }
        }
    }

    /// Reads `...`, `..` or `.` after a `.` (see `ps_dots`).
    fn dots(&mut self) -> (r: String)
        requires
            old(self).wf(),
        ensures
            final(self).wf(),
            final(self).text() == old(self).text(),
            (final(self).state(), Some(r@)) == ps_dots(old(self).text(), old(self).state(), old(self).state().next),
    {
        let n = self.chars.len();
        let next = self.next;
        if next < n && self.chars[next] == '.' {
            if next + 1 < n && self.chars[next + 1] == '.' {
                self.skipped_char = None;
                self.next = next + 2;
                let r = owned("...");
                proof {
                    reveal_strlit("...");
                }
                assert(r@ =~= seq!['.', '.', '.']);
                r
            } else {
                self.skipped_char = if next + 1 < n { Some(self.chars[next + 1]) } else { None };
                self.next = if next + 1 < n { next + 2 } else { next + 1 };
                let r = owned("..");
                proof {
                    reveal_strlit("..");
                }
                assert(r@ =~= seq!['.', '.']);
                r
            }
        } else {
            self.skipped_char = if next < n { Some(self.chars[next]) } else { None };
            self.next = if next < n { next + 1 } else { next };
            let r = owned(".");
            proof {
                reveal_strlit(".");
            }
            assert(r@ =~= seq!['.']);
            r
        }
    }

    /// The next token (see `ps_step`), or `None` once the text runs out.
    pub fn next(&mut self) -> (r: Option<String>)
        requires
            old(self).wf(),
        ensures
            final(self).wf(),
            final(self).text() == old(self).text(),
            final(self).state() == ps_step(old(self).text(), old(self).state()).0,
            match ps_step(old(self).text(), old(self).state()).1 {
                Some(t) => r matches Some(x) && x@ == t,
                None => r is None,
            },
    {
        let ghost s = self.chars@;
        let ghost st0 = self.state();
        if self.completed {
            return None;
        }
        let mut token = String::new();
        match self.skipped_char {
            Some(c) => {
                if c == '.' {
                    return Some(self.dots());
                } else if is_token_breaker_char(c) {
                    self.skipped_char = None;
                    let mut t = String::new();
                    push_char(&mut t, c);
                    assert(t@ =~= seq![c]);
                    return Some(t);
                } else if is_insignificant_character(c) {
                } else if c == '"' {
                    self.in_quotes = true;
                    push_char(&mut token, '"');
                } else {
                    push_char(&mut token, c);
                }
            },
            None => {},
        }
        self.skipped_char = None;
        assert(token@ =~= Seq::<char>::empty() || token@.len() == 1);
        let n = self.chars.len();
        loop
            invariant
                s == self.chars@,
                s == self.source@,
                n == s.len(),
                0 <= self.next <= n,
                self.source == old(self).source,
                st0 == old(self).state(),
                !self.completed,
                ps_loop(s, self.state(), token@) == ps_step(s, st0),
            decreases n - self.next,
        {
            if self.next >= n {
                self.completed = true;
                if token.as_str().unicode_len() > 0 {
                    return Some(token);
                } else {
                    return None;
                }
            }
            let c = self.chars[self.next];
            self.next = self.next + 1;
            let insignificant = is_insignificant_character(c);
            if !self.in_quotes && (is_token_breaker_char(c) || insignificant) {
                if token.as_str().unicode_len() > 0 {
                    self.skipped_char = Some(c);
                    return Some(token);
                } else if insignificant {
                } else if c == '.' {
                    return Some(self.dots());
                } else {
                    let mut t = String::new();
                    push_char(&mut t, c);
                    assert(t@ =~= seq![c]);
                    return Some(t);
                }
            } else if c == '\\' {
                self.escaping = true;
                push_char(&mut token, '\\');
            } else if c == '"' && !self.escaping {
                self.escaping = false;
                self.in_quotes = !self.in_quotes;
                push_char(&mut token, '"');
            } else {
                self.escaping = false;
                push_char(&mut token, c);
            }
        }
    }
}

fn is_token_breaker_char(c: char) -> (r: bool)
    ensures
        r == is_token_breaker(c),
{
    c == '{' || c == '}' || c == '(' || c == ')' || c == '[' || c == ']' || c == ':' || c == '='
        || c == '$' || c == '.'
}

fn is_insignificant_character(c: char) -> (r: bool)
    ensures
        r == is_insignificant(c),
{
    is_whitespace(c) || c == ','
}

/// The first significant character, if any, and the position after it.
fn skip_insignificant_characters(chars: &Vec<char>) -> (r: (Option<char>, usize))
    ensures
        r.0 == char_at(chars@, first_significant(chars@, 0)),
        r.1 == advance(chars@, first_significant(chars@, 0)),
        r.1 <= chars@.len(),
{
    let mut i: usize = 0;
    while i < chars.len()
        invariant
            i <= chars@.len(),
            first_significant(chars@, i as int) == first_significant(chars@, 0),
        decreases chars@.len() - i,
    {
        if !is_insignificant_character(chars[i]) {
            return (Some(chars[i]), i + 1);
        }
        i = i + 1;
    }
    (None, i)
}

} // verus!
