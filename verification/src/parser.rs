//! Parsing pattern text into a token sequence.
//!
//! [`spec_parse`] gives the grammar as a left-to-right scan with two
//! states, literal accumulation ([`parse_from`]) and bracket expression
//! ([`parse_bracket`]); `Wildcard::parse` is proved to decide exactly it.

use vstd::prelude::*;
use crate::ast::{Choice, ChoiceModel, Token, TokenModel, Wildcard, choice_models, token_models};

verus! {

broadcast use
    vstd::seq::group_seq_axioms,
    crate::ast::lemma_choice_models_len,
    crate::ast::lemma_choice_models_index,
    crate::ast::lemma_token_models_len,
    crate::ast::lemma_token_models_index,
;

/// Errors which can occur during parsing a string as a wildcard.
#[derive(Debug, PartialEq, Eq, Structural, Clone, Copy)]
pub enum WildcardParseError {
    /// The text ends before a bracket expression is syntactically closed.
    Incomplete,
    /// A bracket range's low endpoint sorts after its high endpoint.
    InvalidCharRange(char, char),
}

/// The pending literal capture, flushed onto the token sequence:
/// an empty capture emits nothing.
pub open spec fn flush_lit(acc: Seq<TokenModel>, lit: Seq<char>) -> Seq<TokenModel> {
    if lit.len() == 0 {
        acc
    } else {
        acc.push(TokenModel::Literal(lit))
    }
}

/// The scan in the literal-accumulating state, at offset `i`, with the
/// tokens emitted so far in `acc` and the pending literal capture in `lit`.
#[verifier::opaque]
pub open spec fn parse_from(
    s: Seq<char>,
    i: int,
    acc: Seq<TokenModel>,
    lit: Seq<char>,
) -> Result<Seq<TokenModel>, WildcardParseError>
    decreases s.len() - i,
{
    if i >= s.len() {
        Ok(flush_lit(acc, lit))
    } else if s[i] == '*' {
        parse_from(s, i + 1, flush_lit(acc, lit).push(TokenModel::Star), Seq::empty())
    } else if s[i] == '?' {
        parse_from(s, i + 1, flush_lit(acc, lit).push(TokenModel::AnyChar), Seq::empty())
    } else if s[i] == '[' {
        if i + 1 >= s.len() {
            Err(WildcardParseError::Incomplete)
        } else if s[i + 1] == '!' {
            parse_bracket(s, i + 2, flush_lit(acc, lit), Seq::empty(), Seq::empty(), '!', true)
        } else {
            parse_bracket(
                s,
                i + 2,
                flush_lit(acc, lit),
                Seq::empty(),
                seq![s[i + 1]],
                s[i + 1],
                false,
            )
        }
    } else {
        parse_from(s, i + 1, acc, lit.push(s[i]))
    }
}

/// The scan inside a bracket expression, at offset `i`: `choices` holds the
/// finished choices, `cap` the pending member capture, `prev` the character
/// consumed immediately before offset `i`, and `negated` the pending
/// negation mark.
#[verifier::opaque]
pub open spec fn parse_bracket(
    s: Seq<char>,
    i: int,
    acc: Seq<TokenModel>,
    choices: Seq<ChoiceModel>,
    cap: Seq<char>,
    prev: char,
    negated: bool,
) -> Result<Seq<TokenModel>, WildcardParseError>
    decreases s.len() - i,
{
    if i >= s.len() {
        Err(WildcardParseError::Incomplete)
    } else if s[i] == '-' {
        let lo = if cap.len() > 0 {
            cap.last()
        } else {
            prev
        };
        let flushed = if cap.len() > 1 {
            choices.push(ChoiceModel::Members(cap.drop_last()))
        } else {
            choices
        };
        if i + 1 >= s.len() {
            Err(WildcardParseError::Incomplete)
        } else if (s[i + 1] as u32) < (lo as u32) {
            Err(WildcardParseError::InvalidCharRange(lo, s[i + 1]))
        } else {
            parse_bracket(
                s,
                i + 2,
                acc,
                flushed.push(ChoiceModel::Range(lo, s[i + 1])),
                Seq::empty(),
                s[i + 1],
                negated,
            )
        }
    } else if s[i] == ']' {
        let all = if cap.len() > 0 {
            choices.push(ChoiceModel::Members(cap))
        } else {
            choices
        };
        if all.len() == 0 {
            Err(WildcardParseError::Incomplete)
        } else {
            parse_from(s, i + 1, acc.push(TokenModel::CharClass(all, negated)), Seq::empty())
        }
    } else {
        parse_bracket(s, i + 1, acc, choices, cap.push(s[i]), s[i], negated)
    }
}

/// Returns its argument unchanged; anchors the character's value for the
/// proofs around bracket ranges.
fn anchor_char(c: char) -> (r: char)
    ensures
        r == c,
{
    c
}

/// Appends a range choice to a choice buffer, keeping its model sequence
/// in step.
fn push_range_choice(choices: Vec<Choice>, lo: char, hi: char) -> (r: Vec<Choice>)
    ensures
        choice_models(r@) == choice_models(choices@).push(ChoiceModel::Range(lo, hi)),
{
    let mut out = choices;
    let ghost before = out@;
    let rv = Choice::Range(lo, hi);
    let ghost rval = rv;
    out.push(rv);
    proof {
        crate::ast::lemma_choice_models_push(before, rval);
        assert(rval@ == ChoiceModel::Range(lo, hi));
    }
    out
}

/// Appends a members choice to a choice buffer, keeping its model sequence
/// in step.
fn push_members_choice(choices: Vec<Choice>, m: Vec<char>) -> (r: Vec<Choice>)
    ensures
        choice_models(r@) == choice_models(choices@).push(ChoiceModel::Members(m@)),
{
    let mut out = choices;
    let ghost before = out@;
    let ghost mseq = m@;
    let cv = Choice::Members(m);
    let ghost cval = cv;
    out.push(cv);
    proof {
        crate::ast::lemma_choice_models_push(before, cval);
        assert(cval@ == ChoiceModel::Members(mseq));
    }
    out
}

/// What parsing the whole text yields: the scan from the start, in the
/// literal-accumulating state, with nothing captured yet.
pub open spec fn spec_parse(s: Seq<char>) -> Result<Seq<TokenModel>, WildcardParseError> {
    parse_from(s, 0, Seq::empty(), Seq::empty())
}

/// Transient parser state: the scanned text, the tokens emitted so far,
/// the offset where the active capture started, and the pending negation
/// mark. Constructed at the start of a parse and discarded at its end.
pub struct WildcardParser {
    pub source: Vec<char>,
    pub result: Vec<Token>,
    /// Where has a capture started?
    pub start: Option<usize>,
    /// Should the next character class be negated?
    pub negate: bool,
}

impl WildcardParser {
    /// The active capture, cut off at `index`: empty when no capture has
    /// started or none of its characters lie before `index`.
    pub open spec fn cap(self, index: int) -> Seq<char> {
        match self.start {
            Some(st) => if st < index {
                self.source@.subrange(st as int, index)
            } else {
                Seq::empty()
            },
            None => Seq::empty(),
        }
    }

    pub fn new(source: Vec<char>) -> (r: Self)
        ensures
            r.source == source,
            r.result@ == Seq::<Token>::empty(),
            r.start is None,
            r.negate == false,
    {
        WildcardParser { source, result: Vec::new(), start: None, negate: false }
    }

    /// Cuts a vector with the active capture if it is non-empty.
    #[verifier::loop_isolation(false)]
    pub fn capture(&self, index: usize) -> (r: Option<Vec<char>>)
        requires
            index <= self.source@.len(),
        ensures
            match r {
                Some(v) => v@ == self.cap(index as int) && v@.len() > 0,
                None => self.cap(index as int).len() == 0,
            },
    {
        match self.start {
            Some(st) => {
                if st < index {
                    let mut v: Vec<char> = Vec::new();
                    let mut j = st;
                    while j < index
                        invariant
                            st <= j <= index,
                            v@ == self.source@.subrange(st as int, j as int),
                        decreases index - j,
                    {
                        v.push(self.source[j]);
                        proof {
                            assert(v@ =~= self.source@.subrange(st as int, j + 1));
                        }
                        j = j + 1;
                    }
                    Some(v)
                } else {
                    None
                }
            },
            None => None,
        }
    }

    /// Pushes a given token onto the result buffer.
    pub fn push(&mut self, t: Token)
        ensures
            token_models(final(self).result@) == token_models(old(self).result@).push(t@),
            final(self).source == old(self).source,
            final(self).start == old(self).start,
            final(self).negate == old(self).negate,
    {
        let ghost before = self.result@;
        let ghost tval = t;
        self.result.push(t);
        proof {
            crate::ast::lemma_token_models_push(before, tval);
        }
    }

    /// Pushes a literal token for the active capture if it is non-empty.
    pub fn flush(&mut self, index: usize)
        requires
            index <= old(self).source@.len(),
        ensures
            token_models(final(self).result@) == flush_lit(
                token_models(old(self).result@),
                old(self).cap(index as int),
            ),
            final(self).source == old(self).source,
            final(self).start == old(self).start,
            final(self).negate == old(self).negate,
    {
        if let Some(chars) = self.capture(index) {
            self.push(Token::Literal(chars));
        }
    }

    /// Clears the active capture.
    pub fn reset_capture(&mut self)
        ensures
            *final(self) == (WildcardParser { start: None, ..*old(self) }),
    {
        self.start = None;
    }

    /// Starts an active capture at `index`.
    pub fn start_capture(&mut self, index: usize)
        ensures
            *final(self) == (WildcardParser { start: Some(index), ..*old(self) }),
    {
        self.start = Some(index);
    }

    /// Scans one bracket expression whose `[` stands at `open_at`:
    /// consumes it wholly and pushes the character-class token, or returns
    /// the first error. On success the returned offset is the one just
    /// past the closing `]`.
    #[verifier::loop_isolation(false)]
    #[verifier::rlimit(100)]
    fn scan_class(&mut self, open_at: usize) -> (r: Result<usize, WildcardParseError>)
        requires
            old(self).negate == false,
            old(self).start is None,
            open_at < old(self).source@.len(),
            old(self).source@[open_at as int] == '[',
        ensures
            final(self).source@ == old(self).source@,
            match r {
                Ok(next) => {
                    &&& open_at + 2 <= next <= old(self).source@.len()
                    &&& final(self).start is None
                    &&& final(self).negate == false
                    &&& parse_from(
                        old(self).source@,
                        open_at as int,
                        token_models(old(self).result@),
                        Seq::empty(),
                    ) == parse_from(
                        old(self).source@,
                        next as int,
                        token_models(final(self).result@),
                        Seq::empty(),
                    )
                },
                Err(e) => parse_from(
                    old(self).source@,
                    open_at as int,
                    token_models(old(self).result@),
                    Seq::empty(),
                ) == Err::<Seq<TokenModel>, WildcardParseError>(e),
            },
    {
        let ghost s = old(self).source@;
        let ghost acc = token_models(old(self).result@);
        let ghost start_state = parse_from(s, open_at as int, acc, Seq::empty());
        let n = self.source.len();
        let i = open_at;
        if i + 1 >= n {
            proof {
                reveal_with_fuel(parse_from, 1);
                assert(start_state == Err::<Seq<TokenModel>, WildcardParseError>(
                    WildcardParseError::Incomplete,
                ));
            }
            return Err(WildcardParseError::Incomplete);
        }
        let c2 = self.source[i + 1];
        let mut prev: char = c2;
        if c2 == '!' {
            self.negate = true;
            self.reset_capture();
        } else {
            self.start_capture(i + 1);
        }
        let mut choices: Vec<Choice> = Vec::new();
        let mut j: usize = i + 2;
        let mut closed = false;
        proof {
            reveal_with_fuel(parse_from, 1);
            reveal_with_fuel(parse_bracket, 1);
            assert(choice_models(choices@) =~= Seq::<ChoiceModel>::empty());
            if c2 == '!' {
                assert(self.cap(j as int) =~= Seq::<char>::empty());
                assert(start_state == parse_bracket(
                    s,
                    i + 2,
                    acc,
                    Seq::empty(),
                    Seq::empty(),
                    '!',
                    true,
                ));
            } else {
                assert(self.cap(j as int) =~= seq![s[i + 1]]);
                assert(start_state == parse_bracket(
                    s,
                    i + 2,
                    acc,
                    Seq::empty(),
                    seq![s[i + 1]],
                    s[i + 1],
                    false,
                ));
            }
        }
        while j < n && !closed
            invariant
                s == old(self).source@,
                acc == token_models(old(self).result@),
                start_state == parse_from(s, open_at as int, acc, Seq::empty()),
                self.source@ == s,
                n == s.len(),
                open_at + 2 <= j <= n,
                !closed ==> self.negate == (c2 == '!'),
                !closed ==> (match self.start {
                    Some(st) => st <= j,
                    None => true,
                }),
                !closed ==> (self.cap(j as int).len() > 0 ==> self.cap(j as int).last() == s[j
                    - 1]),
                !closed ==> start_state == parse_bracket(
                    s,
                    j as int,
                    acc,
                    choice_models(choices@),
                    self.cap(j as int),
                    prev,
                    self.negate,
                ),
                closed ==> start_state == parse_from(
                    s,
                    j as int,
                    token_models(self.result@),
                    Seq::<char>::empty(),
                ),
                !closed ==> token_models(self.result@) == acc,
                closed ==> self.start is None && self.negate == false,
            decreases n - j,
        {
            let c3 = self.source[j];
            let ghost doneb = choice_models(choices@);
            let ghost capb = self.cap(j as int);
            let ghost prev0 = prev;
            let ghost neg = self.negate;
            if c3 == '-' {
                let has_cap = match self.start {
                    Some(st) => st < j,
                    None => false,
                };
                proof {
                    assert(has_cap == (capb.len() > 0));
                }
                let lo = anchor_char(if has_cap {
                    self.source[j - 1]
                } else {
                    prev
                });
                proof {
                    assert(lo == (if capb.len() > 0 {
                        capb.last()
                    } else {
                        prev0
                    }));
                }
                if j + 1 >= n {
                    proof {
                        reveal_with_fuel(parse_bracket, 1);
                        assert(parse_bracket(s, j as int, acc, doneb, capb, prev0, neg) == Err::<
                            Seq<TokenModel>,
                            WildcardParseError,
                        >(WildcardParseError::Incomplete));
                    }
                    return Err(WildcardParseError::Incomplete);
                }
                let hi = anchor_char(self.source[j + 1]);
                if (hi as u32) < (lo as u32) {
                    proof {
                        reveal_with_fuel(parse_bracket, 1);
                        assert(parse_bracket(s, j as int, acc, doneb, capb, prev0, neg) == Err::<
                            Seq<TokenModel>,
                            WildcardParseError,
                        >(WildcardParseError::InvalidCharRange(lo, hi)));
                    }
                    return Err(WildcardParseError::InvalidCharRange(lo, hi));
                }
                let ghost flushed = if capb.len() > 1 {
                    doneb.push(ChoiceModel::Members(capb.drop_last()))
                } else {
                    doneb
                };
                if let Some(m) = self.capture(j - 1) {
                    proof {
                        assert(self.cap(j - 1) =~= capb.drop_last());
                        assert(capb.len() > 1);
                    }
                    let ghost mseq = m@;
                    choices = push_members_choice(choices, m);
                    proof {
                        assert(mseq == capb.drop_last());
                        assert(choice_models(choices@) == doneb.push(ChoiceModel::Members(mseq)));
                        assert(choice_models(choices@) == flushed);
                    }
                } else {
                    proof {
                        assert(self.cap(j - 1) =~= (if capb.len() > 1 {
                            capb.drop_last()
                        } else {
                            Seq::<char>::empty()
                        }));
                        assert(capb.len() <= 1);
                    }
                }
                proof {
                    assert(choice_models(choices@) =~~= flushed);
                }
                let ghost mid_models = choice_models(choices@);
                choices = push_range_choice(choices, lo, hi);
                self.reset_capture();
                prev = hi;
                proof {
                    assert(mid_models == flushed);
                    assert(choice_models(choices@) == mid_models.push(ChoiceModel::Range(lo, hi)));
                    assert(choice_models(choices@) == flushed.push(ChoiceModel::Range(lo, hi)));
                }
                proof {
                    reveal_with_fuel(parse_bracket, 1);
                    assert(parse_bracket(s, j as int, acc, doneb, capb, prev0, neg)
                        == parse_bracket(
                        s,
                        j + 2,
                        acc,
                        flushed.push(ChoiceModel::Range(lo, hi)),
                        Seq::empty(),
                        hi,
                        neg,
                    ));
                    assert(self.cap(j + 2) =~= Seq::<char>::empty());
                }
                j = j + 2;
            } else if c3 == ']' {
                let ghost all = if capb.len() > 0 {
                    doneb.push(ChoiceModel::Members(capb))
                } else {
                    doneb
                };
                if let Some(m) = self.capture(j) {
                    let ghost mseq = m@;
                    choices = push_members_choice(choices, m);
                    proof {
                        assert(mseq == capb);
                        assert(choice_models(choices@) == doneb.push(ChoiceModel::Members(mseq)));
                    }
                }
                self.reset_capture();
                proof {
                    assert(choice_models(choices@) =~~= all);
                }
                if choices.len() == 0 {
                    proof {
                        reveal_with_fuel(parse_bracket, 1);
                        assert(all.len() == 0);
                        assert(parse_bracket(s, j as int, acc, doneb, capb, prev0, neg) == Err::<
                            Seq<TokenModel>,
                            WildcardParseError,
                        >(WildcardParseError::Incomplete));
                    }
                    return Err(WildcardParseError::Incomplete);
                }
                let negated = self.negate;
                self.negate = false;
                let mut taken: Vec<Choice> = Vec::new();
                core::mem::swap(&mut taken, &mut choices);
                self.push(Token::CharClass { choices: taken, negated });
                proof {
                    reveal_with_fuel(parse_from, 1);
                    reveal_with_fuel(parse_bracket, 1);
                    assert(parse_bracket(s, j as int, acc, doneb, capb, prev0, neg) == parse_from(
                        s,
                        j + 1,
                        acc.push(TokenModel::CharClass(all, negated)),
                        Seq::empty(),
                    ));
                    assert(token_models(self.result@) == acc.push(
                        TokenModel::CharClass(all, negated),
                    ));
                }
                closed = true;
                j = j + 1;
            } else {
                if self.start.is_none() {
                    self.start_capture(j);
                }
                prev = c3;
                proof {
                    reveal_with_fuel(parse_bracket, 1);
                    assert(self.cap(j + 1) =~= capb.push(s[j as int]));
                    assert(parse_bracket(s, j as int, acc, doneb, capb, prev0, neg)
                        == parse_bracket(
                        s,
                        j + 1,
                        acc,
                        doneb,
                        capb.push(s[j as int]),
                        s[j as int],
                        neg,
                    ));
                }
                j = j + 1;
            }
        }
        if !closed {
            proof {
                reveal_with_fuel(parse_bracket, 1);
                assert(j == n);
                assert(parse_bracket(
                    s,
                    j as int,
                    acc,
                    choice_models(choices@),
                    self.cap(j as int),
                    prev,
                    self.negate,
                ) == Err::<Seq<TokenModel>, WildcardParseError>(WildcardParseError::Incomplete));
            }
            return Err(WildcardParseError::Incomplete);
        }
        Ok(j)
    }

    /// Proceeds with parsing: yields the pattern when the text is a valid
    /// wildcard, or the first parse error otherwise.
    #[verifier::loop_isolation(false)]
    #[verifier::rlimit(100)]
    pub fn run(&mut self) -> (r: Result<Wildcard, WildcardParseError>)
        requires
            old(self).result@ == Seq::<Token>::empty(),
            old(self).start is None,
            old(self).negate == false,
        ensures
            match r {
                Ok(w) => spec_parse(old(self).source@) == Ok::<
                    Seq<TokenModel>,
                    WildcardParseError,
                >(w@),
                Err(e) => spec_parse(old(self).source@) == Err::<
                    Seq<TokenModel>,
                    WildcardParseError,
                >(e),
            },
    {
        let ghost s = old(self).source@;
        let n = self.source.len();
        let mut i: usize = 0;
        proof {
            assert(token_models(self.result@) =~= Seq::<TokenModel>::empty());
        }
        while i < n
            invariant
                self.source@ == s,
                n == s.len(),
                i <= n,
                self.negate == false,
                (match self.start {
                    Some(st) => st <= i,
                    None => true,
                }),
                parse_from(s, i as int, token_models(self.result@), self.cap(i as int))
                    == spec_parse(s),
            decreases n - i,
        {
            let c = self.source[i];
            let ghost acc0 = token_models(self.result@);
            let ghost lit0 = self.cap(i as int);
            if c == '*' {
                proof {
                    reveal_with_fuel(parse_from, 1);
                    assert(parse_from(s, i as int, acc0, lit0) == parse_from(
                        s,
                        i + 1,
                        flush_lit(acc0, lit0).push(TokenModel::Star),
                        Seq::empty(),
                    ));
                }
                self.flush(i);
                self.reset_capture();
                self.push(Token::Star);
                proof {
                    assert(self.cap(i + 1) =~= Seq::<char>::empty());
                }
                i = i + 1;
            } else if c == '?' {
                proof {
                    reveal_with_fuel(parse_from, 1);
                    assert(parse_from(s, i as int, acc0, lit0) == parse_from(
                        s,
                        i + 1,
                        flush_lit(acc0, lit0).push(TokenModel::AnyChar),
                        Seq::empty(),
                    ));
                }
                self.flush(i);
                self.reset_capture();
                self.push(Token::AnyChar);
                proof {
                    assert(self.cap(i + 1) =~= Seq::<char>::empty());
                }
                i = i + 1;
            } else if c == '[' {
                self.flush(i);
                self.reset_capture();
                proof {
                    reveal_with_fuel(parse_from, 1);
                    assert(parse_from(s, i as int, acc0, lit0) == parse_from(
                        s,
                        i as int,
                        token_models(self.result@),
                        Seq::empty(),
                    ));
                }
                match self.scan_class(i) {
                    Ok(next) => {
                        proof {
                            assert(self.cap(next as int) =~= Seq::<char>::empty());
                        }
                        i = next;
                    },
                    Err(e) => {
                        return Err(e);
                    },
                }
            } else {
                if self.start.is_none() {
                    self.start_capture(i);
                }
                proof {
                    reveal_with_fuel(parse_from, 1);
                    assert(self.cap(i + 1) =~= lit0.push(s[i as int]));
                    assert(parse_from(s, i as int, acc0, lit0) == parse_from(
                        s,
                        i + 1,
                        acc0,
                        lit0.push(s[i as int]),
                    ));
                }
                i = i + 1;
            }
        }
        let ghost accf = token_models(self.result@);
        let ghost litf = self.cap(n as int);
        self.flush(n);
        let mut tokens: Vec<Token> = Vec::new();
        core::mem::swap(&mut tokens, &mut self.result);
        let w = Wildcard { tokens };
        proof {
            reveal_with_fuel(parse_from, 1);
            assert(parse_from(s, n as int, accf, litf) == Ok::<
                Seq<TokenModel>,
                WildcardParseError,
            >(flush_lit(accf, litf)));
            assert(w@ == flush_lit(accf, litf));
        }
        Ok(w)
    }
}

impl Wildcard {
    /// Parses pattern text: the sole construction path for a pattern.
    pub fn parse(source: &str) -> (r: Result<Wildcard, WildcardParseError>)
        ensures
            match r {
                Ok(w) => spec_parse(source@) == Ok::<Seq<TokenModel>, WildcardParseError>(w@),
                Err(e) => spec_parse(source@) == Err::<Seq<TokenModel>, WildcardParseError>(e),
            },
            r matches Ok(w) ==> crate::ast::wf_tokens(w@),
    {
        let chars = crate::text::chars_of(source);
        let mut parser = WildcardParser::new(chars);
        let r = parser.run();
        proof {
            crate::laws::lemma_parse_well_formed(source@);
        }
        r
    }
}

} // verus!
