//! Rendering a pattern back to canonical text.

use vstd::prelude::*;
use crate::ast::{Choice, ChoiceModel, Token, TokenModel, Wildcard};
use crate::text::string_of;

verus! {

broadcast use
    crate::ast::lemma_choice_models_len,
    crate::ast::lemma_choice_models_index,
    crate::ast::lemma_token_models_len,
    crate::ast::lemma_token_models_index,
;

/// The text one choice renders to.
pub open spec fn render_choice(c: ChoiceModel) -> Seq<char> {
    match c {
        ChoiceModel::Members(m) => m,
        ChoiceModel::Range(lo, hi) => seq![lo, '-', hi],
    }
}

/// The text a sequence of choices renders to.
pub open spec fn render_choices(cs: Seq<ChoiceModel>) -> Seq<char>
    decreases cs.len(),
{
    if cs.len() == 0 {
        Seq::empty()
    } else {
        render_choice(cs[0]) + render_choices(cs.skip(1))
    }
}

/// The text one token renders to.
pub open spec fn render_token(t: TokenModel) -> Seq<char> {
    match t {
        TokenModel::Literal(l) => l,
        TokenModel::Star => seq!['*'],
        TokenModel::AnyChar => seq!['?'],
        TokenModel::CharClass(cs, negated) => seq!['['] + (if negated {
            seq!['!']
        } else {
            Seq::empty()
        }) + render_choices(cs) + seq![']'],
    }
}

/// The canonical text a token sequence renders to.
pub open spec fn render_tokens(ts: Seq<TokenModel>) -> Seq<char>
    decreases ts.len(),
{
    if ts.len() == 0 {
        Seq::empty()
    } else {
        render_token(ts[0]) + render_tokens(ts.skip(1))
    }
}

/// Rendering distributes over concatenation of choice sequences.
pub proof fn lemma_render_choices_concat(a: Seq<ChoiceModel>, b: Seq<ChoiceModel>)
    ensures
        render_choices(a + b) == render_choices(a) + render_choices(b),
    decreases a.len(),
{
    if a.len() == 0 {
        assert(a + b =~= b);
        assert(render_choices(a) + render_choices(b) =~= render_choices(b));
    } else {
        assert((a + b).skip(1) =~= a.skip(1) + b);
        lemma_render_choices_concat(a.skip(1), b);
        assert(render_choice((a + b)[0]) == render_choice(a[0]));
        assert(render_choice(a[0]) + (render_choices(a.skip(1)) + render_choices(b))
            =~= (render_choice(a[0]) + render_choices(a.skip(1))) + render_choices(b));
    }
}

/// Rendering distributes over concatenation of token sequences.
pub proof fn lemma_render_tokens_concat(a: Seq<TokenModel>, b: Seq<TokenModel>)
    ensures
        render_tokens(a + b) == render_tokens(a) + render_tokens(b),
    decreases a.len(),
{
    if a.len() == 0 {
        assert(a + b =~= b);
        assert(render_tokens(a) + render_tokens(b) =~= render_tokens(b));
    } else {
        assert((a + b).skip(1) =~= a.skip(1) + b);
        lemma_render_tokens_concat(a.skip(1), b);
        assert(render_token((a + b)[0]) == render_token(a[0]));
        assert(render_token(a[0]) + (render_tokens(a.skip(1)) + render_tokens(b))
            =~= (render_token(a[0]) + render_tokens(a.skip(1))) + render_tokens(b));
    }
}

/// One token more: rendering `ts.take(i + 1)` appends `render_token(ts[i])`.
pub proof fn lemma_render_tokens_take_step(ts: Seq<TokenModel>, i: int)
    requires
        0 <= i < ts.len(),
    ensures
        render_tokens(ts.take(i + 1)) == render_tokens(ts.take(i)) + render_token(ts[i]),
{
    assert(ts.take(i + 1) =~= ts.take(i) + seq![ts[i]]);
    lemma_render_tokens_concat(ts.take(i), seq![ts[i]]);
    assert(seq![ts[i]].skip(1) =~= Seq::<TokenModel>::empty());
    assert(render_tokens(seq![ts[i]]) == render_token(ts[i]) + render_tokens(
        Seq::<TokenModel>::empty(),
    ));
    assert(render_token(ts[i]) + Seq::<char>::empty() =~= render_token(ts[i]));
}

/// One choice more: rendering `cs.take(i + 1)` appends `render_choice(cs[i])`.
pub proof fn lemma_render_choices_take_step(cs: Seq<ChoiceModel>, i: int)
    requires
        0 <= i < cs.len(),
    ensures
        render_choices(cs.take(i + 1)) == render_choices(cs.take(i)) + render_choice(cs[i]),
{
    assert(cs.take(i + 1) =~= cs.take(i) + seq![cs[i]]);
    lemma_render_choices_concat(cs.take(i), seq![cs[i]]);
    assert(seq![cs[i]].skip(1) =~= Seq::<ChoiceModel>::empty());
    assert(render_choices(seq![cs[i]]) == render_choice(cs[i]) + render_choices(
        Seq::<ChoiceModel>::empty(),
    ));
    assert(render_choice(cs[i]) + Seq::<char>::empty() =~= render_choice(cs[i]));
}

/// Appends the rendering of `c` to `out`.
#[verifier::loop_isolation(false)]
fn push_choice(out: &mut Vec<char>, c: &Choice)
    ensures
        final(out)@ == old(out)@ + render_choice(c@),
{
    match c {
        Choice::Members(m) => {
            let n = m.len();
            let mut i: usize = 0;
            while i < n
                invariant
                    n == m@.len(),
                    i <= n,
                    out@ == old(out)@ + m@.take(i as int),
                decreases n - i,
            {
                out.push(m[i]);
                proof {
                    assert(old(out)@ + m@.take(i + 1) =~= (old(out)@ + m@.take(i as int)).push(
                        m@[i as int],
                    ));
                }
                i = i + 1;
            }
            proof {
                assert(m@.take(n as int) =~= m@);
            }
        },
        Choice::Range(lo, hi) => {
            out.push(*lo);
            out.push('-');
            out.push(*hi);
            proof {
                assert(out@ =~= old(out)@ + render_choice(c@));
            }
        },
    }
}

/// Appends the rendering of `t` to `out`.
#[verifier::loop_isolation(false)]
fn push_token(out: &mut Vec<char>, t: &Token)
    ensures
        final(out)@ == old(out)@ + render_token(t@),
{
    match t {
        Token::Literal(l) => {
            let n = l.len();
            let mut i: usize = 0;
            while i < n
                invariant
                    n == l@.len(),
                    i <= n,
                    out@ == old(out)@ + l@.take(i as int),
                decreases n - i,
            {
                out.push(l[i]);
                proof {
                    assert(old(out)@ + l@.take(i + 1) =~= (old(out)@ + l@.take(i as int)).push(
                        l@[i as int],
                    ));
                }
                i = i + 1;
            }
            proof {
                assert(l@.take(n as int) =~= l@);
            }
        },
        Token::Star => {
            out.push('*');
            proof {
                assert(out@ =~= old(out)@ + render_token(t@));
            }
        },
        Token::AnyChar => {
            out.push('?');
            proof {
                assert(out@ =~= old(out)@ + render_token(t@));
            }
        },
        Token::CharClass { choices, negated } => {
            let ghost cs = crate::ast::choice_models(choices@);
            let ghost head = seq!['['] + (if *negated {
                seq!['!']
            } else {
                Seq::<char>::empty()
            });
            out.push('[');
            if *negated {
                out.push('!');
            }
            proof {
                assert(out@ =~= old(out)@ + head);
            }
            let n = choices.len();
            let mut i: usize = 0;
            while i < n
                invariant
                    n == choices@.len(),
                    cs == crate::ast::choice_models(choices@),
                    i <= n,
                    out@ == old(out)@ + head + render_choices(cs.take(i as int)),
                decreases n - i,
            {
                proof {
                    lemma_render_choices_take_step(cs, i as int);
                    assert(cs[i as int] == choices@[i as int]@);
                }
                push_choice(out, &choices[i]);
                proof {
                    assert(out@ =~= old(out)@ + head + render_choices(cs.take(i + 1)));
                }
                i = i + 1;
            }
            out.push(']');
            proof {
                assert(cs.take(n as int) =~= cs);
                assert(render_token(t@) == head + render_choices(cs) + seq![']']);
                assert(out@ =~= old(out)@ + render_token(t@));
            }
        },
    }
}

impl Wildcard {
    /// The canonical pattern text of this wildcard: literals verbatim,
    /// `*` and `?` for the one-token productions, and `[`, an optional
    /// `!`, the choices, and `]` for a character class.
    #[verifier::loop_isolation(false)]
    pub fn render(&self) -> (r: String)
        ensures
            r@ == render_tokens(self@),
    {
        let mut out: Vec<char> = Vec::new();
        let n = self.tokens.len();
        let mut i: usize = 0;
        while i < n
            invariant
                n == self.tokens@.len(),
                i <= n,
                out@ == render_tokens(self@.take(i as int)),
            decreases n - i,
        {
            proof {
                lemma_render_tokens_take_step(self@, i as int);
                assert(self@[i as int] == self.tokens@[i as int]@);
            }
            push_token(&mut out, &self.tokens[i]);
            i = i + 1;
        }
        proof {
            assert(self@.take(n as int) =~= self@);
        }
        string_of(&out)
    }
}

} // verus!
