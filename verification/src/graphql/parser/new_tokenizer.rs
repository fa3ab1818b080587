//! A tokenizer that keeps its place in the document between tokens: after a token that ends at
//! a separator, the separator is read again by the next call.

use vstd::prelude::*;
use crate::text::{is_whitespace, to_chars};
use super::tokenizer::{
    is_token_breaker, is_insignificant, first_significant, scan, step, tokens_from, ScanState,
    initial_state, spec_tokenize, lemma_scan, law_leading_separators_ignored,
};

verus! {

/// Where the tokenizer stands: the start of the pending token, the next character to read, and
/// whether the character before it is to be read again.
pub struct NtState {
    pub escaping: bool,
    pub in_quotes: bool,
    pub completed: bool,
    pub start: int,
    pub next: int,
    pub pending: bool,
}

/// Reading on from state `st`: the state after the next token and the token's character range,
/// or the completed state and nothing once the characters run out. A separator that ends a
/// token is read again by the next call; one that follows a `.` or `..` is skipped.
pub open spec fn nt_scan(s: Seq<char>, st: NtState) -> (NtState, Option<(int, int)>)
    decreases s.len() - st.next, if st.pending { 1int } else { 0int },
{
    if st.next < 0 || st.next > s.len() || (st.pending && st.next == 0) {
        (NtState { completed: true, pending: false, ..st }, None)
    } else if !st.pending && st.next == s.len() {
        (NtState { completed: true, ..st }, None)
    } else {
        let pos = if st.pending { st.next - 1 } else { st.next };
        let nxt = if st.pending { st.next } else { st.next + 1 };
        let c = s[pos];
        let st1 = NtState { pending: false, next: nxt, ..st };
        if !st.in_quotes && (is_token_breaker(c) || is_insignificant(c)) {
            if pos > st.start {
                (NtState { start: pos, pending: true, ..st1 }, Some((st.start, pos)))
            } else if c == '.' {
                if nxt < s.len() && s[nxt] == '.' {
                    if nxt + 1 < s.len() && s[nxt + 1] == '.' {
                        (NtState { next: nxt + 2, start: st.start + 3, ..st1 }, Some((st.start, st.start + 3)))
                    } else {
                        (
                            NtState {
                                next: if nxt + 1 < s.len() { nxt + 2 } else { nxt + 1 },
                                start: st.start + 2,
                                ..st1
                            },
                            Some((st.start, st.start + 2)),
                        )
                    }
                } else {
                    (
                        NtState { next: if nxt < s.len() { nxt + 1 } else { nxt }, start: st.start + 1, ..st1 },
                        Some((st.start, st.start + 1)),
                    )
                }
            } else if !is_insignificant(c) && pos == st.start {
                (NtState { start: pos + 1, ..st1 }, Some((pos, pos + 1)))
            } else {
                nt_scan(s, NtState { start: pos + 1, ..st1 })
            }
        } else if c == '\\' {
            nt_scan(s, NtState { escaping: true, ..st1 })
        } else if c == '"' && !st.escaping {
            nt_scan(s, NtState { escaping: false, in_quotes: !st.in_quotes, ..st1 })
        } else {
            nt_scan(s, NtState { escaping: false, ..st1 })
        }
    }
}

/// One call of `NewTokenizer::next` from state `st`.
pub open spec fn nt_step(s: Seq<char>, st: NtState) -> (NtState, Option<(int, int)>) {
    if st.completed {
        (st, None)
    } else {
        nt_scan(s, st)
    }
}

/// Where the state stays: the start no further than the next character, and a pending character
/// only after one was read.
pub open spec fn nt_state_ok(s: Seq<char>, st: NtState) -> bool {
    &&& 0 <= st.start
    &&& 0 <= st.next <= s.len()
    &&& st.start <= st.next
    &&& st.pending ==> st.next > 0 && st.start == st.next - 1
}

/// A token found is a range of the characters, and the state stays as `nt_state_ok` says.
pub proof fn lemma_nt_scan(s: Seq<char>, st: NtState)
    requires
        nt_state_ok(s, st),
    ensures
        nt_state_ok(s, nt_scan(s, st).0),
        nt_scan(s, st).1 matches Some((a, b)) ==> 0 <= a < b <= s.len(),
    decreases s.len() - st.next, if st.pending { 1int } else { 0int },
{
    if !(!st.pending && st.next == s.len()) {
        let pos = if st.pending { st.next - 1 } else { st.next };
        let nxt = if st.pending { st.next } else { st.next + 1 };
        let c = s[pos];
        let st1 = NtState { pending: false, next: nxt, ..st };
        if !st.in_quotes && (is_token_breaker(c) || is_insignificant(c)) {
            if pos > st.start {
            } else if c == '.' {
            } else if !is_insignificant(c) && pos == st.start {
            } else {
                lemma_nt_scan(s, NtState { start: pos + 1, ..st1 });
            }
        } else if c == '\\' {
            lemma_nt_scan(s, NtState { escaping: true, ..st1 });
        } else if c == '"' && !st.escaping {
            lemma_nt_scan(s, NtState { escaping: false, in_quotes: !st.in_quotes, ..st1 });
        } else {
            lemma_nt_scan(s, NtState { escaping: false, ..st1 });
        }
    }
}

/// Splits a document into tokens, keeping its place between calls.
pub struct NewTokenizer<'a> {
    escaping: bool,
    in_quotes: bool,
    completed: bool,
    slice: &'a str,
    chars: Vec<char>,
    start: usize,
    next: usize,
    pending: bool,
}

impl<'a> NewTokenizer<'a> {
    /// The state the tokenizer is in.
    pub closed spec fn state(&self) -> NtState {
        NtState {
            escaping: self.escaping,
            in_quotes: self.in_quotes,
            completed: self.completed,
            start: self.start as int,
            next: self.next as int,
            pending: self.pending,
        }
    }

    /// The characters being split: the document from its first significant character on.
    pub closed spec fn text(&self) -> Seq<char> {
        self.slice@
    }

    /// The internal invariant of the tokenizer.
    pub closed spec fn wf(&self) -> bool {
        &&& self.chars@ == self.slice@
        &&& nt_state_ok(self.slice@, self.state())
    }

    /// The tokens that the tokenizer has still to yield.
    pub closed spec fn remaining(&self) -> Seq<Seq<char>> {
        nt_tokens_from(self.slice@, self.state())
    }

    /// A tokenizer for `string`, which skips its leading whitespace and commas.
    pub fn new(string: &'a str) -> (r: NewTokenizer<'a>)
        ensures
            r.wf(),
            r.remaining() == nt_tokenize(string@),
            r.text() == string@.subrange(first_significant(string@, 0), string@.len() as int),
            r.state() == (NtState { escaping: false, in_quotes: false, completed: false, start: 0, next: 0, pending: false }),
    {
        let slice = skip_insignificant_characters(string);
        let chars = to_chars(slice);
        NewTokenizer {
            escaping: false,
            in_quotes: false,
            completed: false,
            slice: slice,
            chars: chars,
            start: 0,
            next: 0,
            pending: false,
        }
    }

    /// The next token (see `nt_step`), or `None` once the characters run out.
    pub fn next(&mut self) -> (r: Option<&'a str>)
        requires
            old(self).wf(),
        ensures
            final(self).wf(),
            final(self).text() == old(self).text(),
            final(self).state() == nt_step(old(self).text(), old(self).state()).0,
            match nt_step(old(self).text(), old(self).state()).1 {
                Some((a, b)) => r matches Some(t) && t@ == old(self).text().subrange(a, b),
                None => r is None,
            },
            old(self).remaining().len() > 0 ==> {
                &&& r is Some
                &&& r.unwrap()@ == old(self).remaining()[0]
                &&& final(self).remaining() == old(self).remaining().drop_first()
            },
            old(self).remaining().len() == 0 ==> r is None && final(self).remaining().len() == 0,
    {
        let ghost s = self.chars@;
        let ghost st0 = self.state();
        proof {
            lemma_nt_tokens_unfold(s, st0);
        }
        if self.completed {
            return None;
        }
        proof {
            lemma_nt_scan(s, st0);
        }
        let n = self.chars.len();
        loop
            invariant
                s == self.chars@,
                s == self.slice@,
                n == s.len(),
                !self.completed,
                self.slice == old(self).slice,
                st0 == old(self).state(),
                !st0.completed,
                nt_state_ok(s, self.state()),
                nt_scan(s, self.state()) == nt_scan(s, st0),
                nt_unfolds(s, st0),
            decreases n - self.next, if self.pending { 1int } else { 0int },
        {
            if !self.pending && self.next == n {
                self.completed = true;
                return None;
            }
            let pos = if self.pending { self.next - 1 } else { self.next };
            let nxt = if self.pending { self.next } else { self.next + 1 };
            self.pending = false;
            self.next = nxt;
            let c = self.chars[pos];
            let insignificant = is_insignificant_character(c);
            if !self.in_quotes && (is_token_breaker_char(c) || insignificant) {
                if pos > self.start {
                    let result = self.slice.substring_char(self.start, pos);
                    self.start = pos;
                    self.pending = true;
                    return Some(result);
                } else if c == '.' {
                    let start = self.start;
                    if nxt < n && self.chars[nxt] == '.' {
                        if nxt + 1 < n && self.chars[nxt + 1] == '.' {
                            self.next = nxt + 2;
                            self.start = start + 3;
                            return Some(self.slice.substring_char(start, start + 3));
                        } else {
                            self.next = if nxt + 1 < n { nxt + 2 } else { nxt + 1 };
                            self.start = start + 2;
                            return Some(self.slice.substring_char(start, start + 2));
                        }
                    } else {
                        self.next = if nxt < n { nxt + 1 } else { nxt };
                        self.start = start + 1;
                        return Some(self.slice.substring_char(start, start + 1));
                    }
                } else if !insignificant && pos == self.start {
                    let result = self.slice.substring_char(pos, pos + 1);
                    self.start = pos + 1;
                    return Some(result);
                } else {
                    self.start = pos + 1;
                }
            } else if c == '\\' {
                self.escaping = true;
            } else if c == '"' && !self.escaping {
                self.escaping = false;
                self.in_quotes = !self.in_quotes;
            } else {
                self.escaping = false;
            }
        }
    }
}

fn is_token_breaker_char(c: char) -> (r: bool)
    ensures
        r == is_token_breaker(c),
{
    c == '{' || c == '}' || c == '(' || c == ')' || c == '[' || c == ']' || c == ':' || c == '='
        || c == '$' || c == '.'
}

fn is_insignificant_character(c: char) -> (r: bool)
    ensures
        r == is_insignificant(c),
{
    is_whitespace(c) || c == ','
}

/// The document from its first significant character on.
fn skip_insignificant_characters<'a>(string: &'a str) -> (r: &'a str)
    ensures
        r@ == string@.subrange(first_significant(string@, 0), string@.len() as int),
{
    let n = string.unicode_len();
    let mut i: usize = 0;
    while i < n
        invariant
            n == string@.len(),
            i <= n,
            first_significant(string@, i as int) == first_significant(string@, 0),
        decreases n - i,
    {
        if !is_insignificant_character(string.get_char(i)) {
            return string.substring_char(i, n);
        }
        i = i + 1;
    }
    string.substring_char(n, n)
}

/// How far the tokenizer still has to go from state `st`: two for each character left, one
/// for a character to be read again.
pub open spec fn nt_measure(s: Seq<char>, st: NtState) -> int {
    2 * (s.len() - st.next) + if st.pending { 1int } else { 0int }
}

proof fn lemma_nt_scan_progress(s: Seq<char>, st: NtState)
    requires
        nt_state_ok(s, st),
    ensures
        nt_scan(s, st).1 is Some ==> nt_measure(s, nt_scan(s, st).0) < nt_measure(s, st),
    decreases s.len() - st.next, if st.pending { 1int } else { 0int },
{
    if !(!st.pending && st.next == s.len()) {
        let pos = if st.pending { st.next - 1 } else { st.next };
        let nxt = if st.pending { st.next } else { st.next + 1 };
        let c = s[pos];
        let st1 = NtState { pending: false, next: nxt, ..st };
        if !st.in_quotes && (is_token_breaker(c) || is_insignificant(c)) {
            if pos > st.start {
            } else if c == '.' {
            } else if !is_insignificant(c) && pos == st.start {
            } else {
                lemma_nt_scan_progress(s, NtState { start: pos + 1, ..st1 });
            }
        } else if c == '\\' {
            lemma_nt_scan_progress(s, NtState { escaping: true, ..st1 });
        } else if c == '"' && !st.escaping {
            lemma_nt_scan_progress(s, NtState { escaping: false, in_quotes: !st.in_quotes, ..st1 });
        } else {
            lemma_nt_scan_progress(s, NtState { escaping: false, ..st1 });
        }
    }
}

/// Every token that the tokenizer yields from state `st` on, in order.
pub open spec fn nt_tokens_from(s: Seq<char>, st: NtState) -> Seq<Seq<char>>
    decreases nt_measure(s, st),
    when nt_state_ok(s, st)
    via nt_tokens_from_decreases
{
    let (st2, r) = nt_step(s, st);
    match r {
        Some((a, b)) => seq![s.subrange(a, b)] + nt_tokens_from(s, st2),
        None => Seq::empty(),
    }
}

#[via_fn]
proof fn nt_tokens_from_decreases(s: Seq<char>, st: NtState) {
    if !st.completed {
        lemma_nt_scan(s, st);
        lemma_nt_scan_progress(s, st);
    }
}

/// The tokens from `st` on are the one that the next step yields, then those from the state
/// that it leaves.
spec fn nt_unfolds(s: Seq<char>, st: NtState) -> bool {
    &&& nt_step(s, st).1 matches Some((a, b)) ==> nt_tokens_from(s, st) == seq![s.subrange(a, b)]
        + nt_tokens_from(s, nt_step(s, st).0) && 0 <= a < b <= s.len()
    &&& nt_step(s, st).1 is None ==> nt_tokens_from(s, st) == Seq::<Seq<char>>::empty()
        && nt_tokens_from(s, nt_step(s, st).0) == Seq::<Seq<char>>::empty()
    &&& nt_state_ok(s, nt_step(s, st).0)
}

proof fn lemma_nt_tokens_unfold(s: Seq<char>, st: NtState)
    requires
        nt_state_ok(s, st),
    ensures
        nt_unfolds(s, st),
{
    if !st.completed {
        lemma_nt_scan(s, st);
        lemma_nt_scan_progress(s, st);
    }
    let st2 = nt_step(s, st).0;
    if nt_step(s, st).1 is None {
        if !st.completed {
            assert(nt_scan(s, st).0.completed) by {
                lemma_nt_scan_completes(s, st);
            }
        }
        assert(nt_step(s, st2).1 is None);
    }
}

proof fn lemma_nt_scan_completes(s: Seq<char>, st: NtState)
    requires
        nt_state_ok(s, st),
    ensures
        nt_scan(s, st).1 is None ==> nt_scan(s, st).0.completed,
    decreases s.len() - st.next, if st.pending { 1int } else { 0int },
{
    if !(!st.pending && st.next == s.len()) {
        let pos = if st.pending { st.next - 1 } else { st.next };
        let nxt = if st.pending { st.next } else { st.next + 1 };
        let c = s[pos];
        let st1 = NtState { pending: false, next: nxt, ..st };
        if !st.in_quotes && (is_token_breaker(c) || is_insignificant(c)) {
            if pos > st.start {
            } else if c == '.' {
            } else if !is_insignificant(c) && pos == st.start {
            } else {
                lemma_nt_scan_completes(s, NtState { start: pos + 1, ..st1 });
            }
        } else if c == '\\' {
            lemma_nt_scan_completes(s, NtState { escaping: true, ..st1 });
        } else if c == '"' && !st.escaping {
            lemma_nt_scan_completes(s, NtState { escaping: false, in_quotes: !st.in_quotes, ..st1 });
        } else {
            lemma_nt_scan_completes(s, NtState { escaping: false, ..st1 });
        }
    }
}

/// The state in which a new tokenizer starts.
pub open spec fn nt_initial_state() -> NtState {
    NtState { escaping: false, in_quotes: false, completed: false, start: 0, next: 0, pending: false }
}

/// The characters that a tokenizer for `s` splits: `s` from its first significant character on.
pub open spec fn nt_text(s: Seq<char>) -> Seq<char> {
    s.subrange(first_significant(s, 0), s.len() as int)
}

/// The tokens that a new tokenizer yields for the document `s`.
pub open spec fn nt_tokenize(s: Seq<char>) -> Seq<Seq<char>> {
    nt_tokens_from(nt_text(s), nt_initial_state())
}

/// Position `i` starts a run of dots.
pub open spec fn dot_run_start(s: Seq<char>, i: int) -> bool {
    0 <= i < s.len() && s[i] == '.' && (i == 0 || s[i - 1] != '.')
}

/// Every run of dots in `s` is exactly three long.
pub open spec fn dot_runs_of_three(s: Seq<char>) -> bool {
    forall|i: int|
        #[trigger] dot_run_start(s, i) ==> {
            &&& i + 2 < s.len()
            &&& s[i + 1] == '.'
            &&& s[i + 2] == '.'
            &&& (i + 3 == s.len() || s[i + 3] != '.')
        }
}

/// Reading position `i`, the scan is not in the middle of a run of dots outside quotes.
spec fn dot_ok(s: Seq<char>, i: int, in_quotes: bool) -> bool {
    0 < i < s.len() && s[i - 1] == '.' && s[i] == '.' ==> in_quotes
}

/// The new tokenizer's state `n` stands where the first tokenizer's state `o` does.
spec fn states_agree(s: Seq<char>, o: ScanState, n: NtState) -> bool {
    &&& n.escaping == o.escaping
    &&& n.in_quotes == o.in_quotes
    &&& n.completed == o.completed
    &&& n.start == o.pos
    &&& n.next == o.pos + if n.pending { 1int } else { 0int }
    &&& n.pending ==> o.pos < s.len()
}

proof fn lemma_scans_agree(
    s: Seq<char>,
    escaping: bool,
    in_quotes: bool,
    start: int,
    i: int,
    pending: bool,
)
    requires
        dot_runs_of_three(s),
        0 <= start <= i <= s.len(),
        pending ==> start == i && i < s.len(),
        dot_ok(s, i, in_quotes),
    ensures
        ({
            let (o, r) = scan(s, escaping, in_quotes, start, i);
            let (n, r2) = nt_scan(
                s,
                NtState {
                    escaping,
                    in_quotes,
                    completed: false,
                    start,
                    next: if pending { i + 1 } else { i },
                    pending,
                },
            );
            &&& r2 == r
            &&& n.completed == o.completed
            &&& !o.completed ==> states_agree(s, o, n) && dot_ok(s, o.pos, o.in_quotes)
        }),
    decreases s.len() - i,
{
    if i < s.len() {
        let c = s[i];
        if !in_quotes && (is_token_breaker(c) || is_insignificant(c)) {
            if i > start {
            } else if c == '.' {
                assert(dot_run_start(s, i));
            } else if !is_insignificant(c) {
            } else {
                lemma_scans_agree(s, escaping, in_quotes, i + 1, i + 1, false);
            }
        } else if c == '\\' {
            lemma_scans_agree(s, true, in_quotes, start, i + 1, false);
        } else if c == '"' && !escaping {
            lemma_scans_agree(s, false, !in_quotes, start, i + 1, false);
        } else {
            lemma_scans_agree(s, false, in_quotes, start, i + 1, false);
        }
    }
}

proof fn lemma_tokens_agree(s: Seq<char>, o: ScanState, n: NtState)
    requires
        dot_runs_of_three(s),
        0 <= o.pos <= s.len(),
        n.completed == o.completed,
        !o.completed ==> states_agree(s, o, n) && dot_ok(s, o.pos, o.in_quotes),
        nt_state_ok(s, n),
    ensures
        nt_tokens_from(s, n) == tokens_from(s, o),
    decreases s.len() - o.pos,
{
    if !o.completed {
        lemma_scan(s, o.escaping, o.in_quotes, o.pos, o.pos);
        lemma_scans_agree(s, o.escaping, o.in_quotes, o.pos, o.pos, n.pending);
        lemma_nt_scan(s, n);
        let (o2, r) = step(s, o);
        let (n2, r2) = nt_step(s, n);
        if r is Some {
            lemma_tokens_agree(s, o2, n2);
        }
    }
}

proof fn lemma_first_significant_prefix(s: Seq<char>, i: int)
    requires
        0 <= i <= s.len(),
    ensures
        i <= first_significant(s, i) <= s.len(),
        forall|j: int| i <= j < first_significant(s, i) ==> is_insignificant(#[trigger] s[j]),
        first_significant(s, i) < s.len() ==> !is_insignificant(s[first_significant(s, i)]),
    decreases s.len() - i,
{
    if i < s.len() && is_insignificant(s[i]) {
        lemma_first_significant_prefix(s, i + 1);
    }
}

/// Where every run of dots is exactly three long, the tokenizer that keeps its place yields
/// the same tokens as the first one.
pub proof fn law_tokenizers_agree(s: Seq<char>)
    requires
        dot_runs_of_three(s),
    ensures
        nt_tokenize(s) == spec_tokenize(s),
{
    lemma_first_significant_prefix(s, 0);
    let f = first_significant(s, 0);
    let p = s.subrange(0, f);
    let t = nt_text(s);
    assert(s =~= p + t);
    law_leading_separators_ignored(p, t);
    assert forall|i: int| #[trigger] dot_run_start(t, i) implies {
        &&& i + 2 < t.len()
        &&& t[i + 1] == '.'
        &&& t[i + 2] == '.'
        &&& (i + 3 == t.len() || t[i + 3] != '.')
    } by {
        assert(dot_run_start(s, i + f));
    }
    assert(first_significant(t, 0) == 0) by {
        if t.len() > 0 {
            assert(t[0] == s[f]);
        }
    }
    assert(initial_state(t).pos == 0);
    lemma_tokens_agree(t, initial_state(t), nt_initial_state());
}

} // verus!
