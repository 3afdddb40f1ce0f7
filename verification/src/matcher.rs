//! Matching a pattern against subject strings.
//!
//! [`tokens_match`] is the declarative semantics of the wildcard language;
//! `Wildcard::matches` is proved to decide exactly that relation.

use vstd::prelude::*;
use crate::ast::{Choice, ChoiceModel, Token, TokenModel, Wildcard, token_models};
use crate::text::chars_of;

verus! {

broadcast use
    crate::ast::lemma_choice_models_len,
    crate::ast::lemma_choice_models_index,
    crate::ast::lemma_token_models_len,
    crate::ast::lemma_token_models_index,
;

/// Whether one choice of a bracket expression admits the character `ch`.
pub open spec fn choice_matches(c: ChoiceModel, ch: char) -> bool {
    match c {
        ChoiceModel::Members(m) => m.contains(ch),
        ChoiceModel::Range(lo, hi) => lo as u32 <= ch as u32 && ch as u32 <= hi as u32,
    }
}

/// Whether any choice of a bracket expression admits the character `ch`.
pub open spec fn class_matches(cs: Seq<ChoiceModel>, ch: char) -> bool {
    exists|k: int| 0 <= k < cs.len() && choice_matches(cs[k], ch)
}

/// The declarative matching semantics: whether the token sequence `ts`
/// generates exactly the subject `s`.
pub open spec fn tokens_match(ts: Seq<TokenModel>, s: Seq<char>) -> bool
    decreases ts.len(),
{
    if ts.len() == 0 {
        s.len() == 0
    } else {
        match ts[0] {
            TokenModel::Literal(l) => l.len() <= s.len() && s.subrange(0, l.len() as int) == l
                && tokens_match(ts.skip(1), s.skip(l.len() as int)),
            TokenModel::Star => exists|k: int|
                0 <= k <= s.len() && tokens_match(ts.skip(1), s.skip(k)),
            TokenModel::AnyChar => s.len() >= 1 && tokens_match(ts.skip(1), s.skip(1)),
            TokenModel::CharClass(cs, negated) => s.len() >= 1 && (class_matches(cs, s[0])
                != negated) && tokens_match(ts.skip(1), s.skip(1)),
        }
    }
}

/// Whether the character `ch` is literally present in `m`.
#[verifier::loop_isolation(false)]
fn members_contain(m: &Vec<char>, ch: char) -> (r: bool)
    ensures
        r == m@.contains(ch),
{
    let n = m.len();
    let mut i: usize = 0;
    while i < n
        invariant
            n == m@.len(),
            i <= n,
            forall|j: int| 0 <= j < i ==> m@[j] != ch,
        decreases n - i,
    {
        if m[i] == ch {
            return true;
        }
        i = i + 1;
    }
    false
}

/// Whether one choice admits the character `ch`.
fn choice_admits(c: &Choice, ch: char) -> (r: bool)
    ensures
        r == choice_matches(c@, ch),
{
    match c {
        Choice::Members(m) => members_contain(m, ch),
        Choice::Range(lo, hi) => (*lo as u32) <= (ch as u32) && (ch as u32) <= (*hi as u32),
    }
}

/// Whether any choice of the class admits the character `ch`.
#[verifier::loop_isolation(false)]
fn class_admits(cs: &Vec<Choice>, ch: char) -> (r: bool)
    ensures
        r == class_matches(crate::ast::choice_models(cs@), ch),
{
    let n = cs.len();
    let mut i: usize = 0;
    while i < n
        invariant
            n == cs@.len(),
            i <= n,
            forall|j: int|
                0 <= j < i ==> !choice_matches(crate::ast::choice_models(cs@)[j], ch),
        decreases n - i,
    {
        if choice_admits(&cs[i], ch) {
            proof {
                assert(crate::ast::choice_models(cs@)[i as int] == cs@[i as int]@);
                assert(choice_matches(crate::ast::choice_models(cs@)[i as int], ch));
            }
            return true;
        }
        i = i + 1;
    }
    false
}

/// The backtracking matcher over a token cursor `ti` and subject cursor
/// `si`: decides whether the tokens from `ti` on generate the subject
/// characters from `si` on.
#[verifier::loop_isolation(false)]
fn match_at(tokens: &Vec<Token>, ti: usize, s: &Vec<char>, si: usize) -> (r: bool)
    requires
        ti <= tokens@.len(),
        si <= s@.len(),
    ensures
        r == tokens_match(token_models(tokens@).skip(ti as int), s@.skip(si as int)),
    decreases tokens@.len() - ti,
{
    let ghost ts = token_models(tokens@).skip(ti as int);
    let ghost sub = s@.skip(si as int);
    if ti == tokens.len() {
        proof {
            assert(ts.len() == 0);
        }
        return si == s.len();
    }
    proof {
        assert(ts[0] == tokens@[ti as int]@);
        assert(ts.skip(1) =~= token_models(tokens@).skip(ti + 1));
    }
    match &tokens[ti] {
        Token::Literal(l) => {
            let len = l.len();
            if s.len() - si < len {
                proof {
                    assert(!tokens_match(ts, sub));
                }
                return false;
            }
            let mut k: usize = 0;
            while k < len
                invariant
                    len == l@.len(),
                    k <= len,
                    si + len <= s@.len(),
                    forall|j: int| 0 <= j < k ==> s@[si + j] == l@[j],
                decreases len - k,
            {
                if s[si + k] != l[k] {
                    proof {
                        assert(sub[k as int] == s@[si + k]);
                        assert(sub.subrange(0, len as int)[k as int] == sub[k as int]);
                        assert(sub.subrange(0, len as int) != l@);
                        assert(!tokens_match(ts, sub));
                    }
                    return false;
                }
                k = k + 1;
            }
            proof {
                assert(sub.subrange(0, len as int) =~= l@);
                assert(sub.skip(len as int) =~= s@.skip(si + len));
            }
            let r = match_at(tokens, ti + 1, s, si + len);
            proof {
                assert(r == tokens_match(ts, sub));
            }
            r
        },
        Token::Star => {
            let mut k = si;
            while k < s.len()
                invariant
                    si <= k <= s@.len(),
                    forall|j: int| si <= j < k ==> !tokens_match(ts.skip(1), s@.skip(j)),
                decreases s@.len() - k,
            {
                if match_at(tokens, ti + 1, s, k) {
                    proof {
                        let w = k - si;
                        assert(sub.skip(w) =~= s@.skip(k as int));
                        assert(0 <= w <= sub.len() && tokens_match(ts.skip(1), sub.skip(w)));
                    }
                    return true;
                }
                k = k + 1;
            }
            let r = match_at(tokens, ti + 1, s, s.len());
            proof {
                let n = s@.len() as int;
                assert(sub.skip(n - si) =~= s@.skip(n));
                if r {
                    assert(0 <= n - si <= sub.len() && tokens_match(ts.skip(1), sub.skip(n - si)));
                } else {
                    assert forall|w: int| 0 <= w <= sub.len() implies !tokens_match(
                        ts.skip(1),
                        sub.skip(w),
                    ) by {
                        assert(sub.skip(w) =~= s@.skip(si + w));
                        if si + w < n {
                            assert(!tokens_match(ts.skip(1), s@.skip(si + w)));
                        } else {
                            assert(si + w == n);
                        }
                    }
                }
            }
            r
        },
        Token::AnyChar => {
            if si == s.len() {
                proof {
                    assert(!tokens_match(ts, sub));
                }
                return false;
            }
            proof {
                assert(sub.skip(1) =~= s@.skip(si + 1));
            }
            match_at(tokens, ti + 1, s, si + 1)
        },
        Token::CharClass { choices, negated } => {
            if si == s.len() {
                proof {
                    assert(!tokens_match(ts, sub));
                }
                return false;
            }
            let inside = class_admits(choices, s[si]);
            let hit = inside != *negated;
            proof {
                assert(sub[0] == s@[si as int]);
                assert(sub.skip(1) =~= s@.skip(si + 1));
            }
            if !hit {
                proof {
                    assert(!tokens_match(ts, sub));
                }
                return false;
            }
            match_at(tokens, ti + 1, s, si + 1)
        },
    }
}

impl Wildcard {
    /// Whether the subject string satisfies this wildcard pattern.
    pub fn matches(&self, subject: &str) -> (r: bool)
        ensures
            r == tokens_match(self@, subject@),
    {
        let chars = chars_of(subject);
        let r = match_at(&self.tokens, 0, &chars, 0);
        proof {
            assert(token_models(self.tokens@).skip(0) =~= self@);
            assert(chars@.skip(0) =~= subject@);
        }
        r
    }
}

} // verus!
