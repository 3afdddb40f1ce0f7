//! The pattern data model: an immutable, ordered sequence of tokens.
//!
//! Contracts speak about patterns through the mathematical models
//! [`TokenModel`] and [`ChoiceModel`], which hold `Seq<char>` in place of
//! the executable `Vec<char>`.

use vstd::prelude::*;

verus! {

/// One member of a bracket expression's character set.
#[derive(Debug, PartialEq, Eq)]
pub enum Choice {
    /// Any character literally present in the given text.
    Members(Vec<char>),
    /// Any character whose code point lies in `[lo, hi]` inclusive.
    Range(char, char),
}

/// One grammar production within a pattern.
#[derive(Debug, PartialEq, Eq)]
pub enum Token {
    /// A run of ordinary characters matched verbatim.
    Literal(Vec<char>),
    /// Matches any run of characters, including the empty run.
    Star,
    /// Matches exactly one arbitrary character.
    AnyChar,
    /// Matches exactly one character against a set of choices,
    /// inverted when `negated` is set.
    CharClass { choices: Vec<Choice>, negated: bool },
}

/// The mathematical model of a [`Choice`].
#[verifier::ext_equal]
pub enum ChoiceModel {
    Members(Seq<char>),
    Range(char, char),
}

/// The mathematical model of a [`Token`].
#[verifier::ext_equal]
pub enum TokenModel {
    Literal(Seq<char>),
    Star,
    AnyChar,
    CharClass(Seq<ChoiceModel>, bool),
}

impl View for Choice {
    type V = ChoiceModel;

    open spec fn view(&self) -> ChoiceModel {
        match self {
            Choice::Members(m) => ChoiceModel::Members(m@),
            Choice::Range(lo, hi) => ChoiceModel::Range(*lo, *hi),
        }
    }
}

/// The models of a sequence of choices, element by element.
pub open spec fn choice_models(cs: Seq<Choice>) -> Seq<ChoiceModel>
    decreases cs.len(),
{
    if cs.len() == 0 {
        Seq::empty()
    } else {
        choice_models(cs.drop_last()).push(cs.last()@)
    }
}

/// The models are as many as the choices.
pub broadcast proof fn lemma_choice_models_len(cs: Seq<Choice>)
    ensures
        (#[trigger] choice_models(cs)).len() == cs.len(),
    decreases cs.len(),
{
    if cs.len() > 0 {
        lemma_choice_models_len(cs.drop_last());
    }
}

/// The model at each position is the model of the choice there.
pub broadcast proof fn lemma_choice_models_index(cs: Seq<Choice>, i: int)
    requires
        0 <= i < cs.len(),
    ensures
        #[trigger] choice_models(cs)[i] == cs[i]@,
    decreases cs.len(),
{
    lemma_choice_models_len(cs.drop_last());
    if i < cs.len() - 1 {
        lemma_choice_models_index(cs.drop_last(), i);
    }
}

impl View for Token {
    type V = TokenModel;

    open spec fn view(&self) -> TokenModel {
        match self {
            Token::Literal(l) => TokenModel::Literal(l@),
            Token::Star => TokenModel::Star,
            Token::AnyChar => TokenModel::AnyChar,
            Token::CharClass { choices, negated } => TokenModel::CharClass(
                choice_models(choices@),
                *negated,
            ),
        }
    }
}

/// The models of a sequence of tokens, element by element.
pub open spec fn token_models(ts: Seq<Token>) -> Seq<TokenModel>
    decreases ts.len(),
{
    if ts.len() == 0 {
        Seq::empty()
    } else {
        token_models(ts.drop_last()).push(ts.last()@)
    }
}

/// The models are as many as the tokens.
pub broadcast proof fn lemma_token_models_len(ts: Seq<Token>)
    ensures
        (#[trigger] token_models(ts)).len() == ts.len(),
    decreases ts.len(),
{
    if ts.len() > 0 {
        lemma_token_models_len(ts.drop_last());
    }
}

/// The model at each position is the model of the token there.
pub broadcast proof fn lemma_token_models_index(ts: Seq<Token>, i: int)
    requires
        0 <= i < ts.len(),
    ensures
        #[trigger] token_models(ts)[i] == ts[i]@,
    decreases ts.len(),
{
    lemma_token_models_len(ts.drop_last());
    if i < ts.len() - 1 {
        lemma_token_models_index(ts.drop_last(), i);
    }
}

/// Taking the models commutes with appending one choice.
pub proof fn lemma_choice_models_push(v: Seq<Choice>, c: Choice)
    ensures
        choice_models(v.push(c)) == choice_models(v).push(c@),
{
    assert(v.push(c).drop_last() =~= v);
    assert(v.push(c).last() == c);
}

/// Taking the models commutes with appending one token.
pub proof fn lemma_token_models_push(v: Seq<Token>, t: Token)
    ensures
        token_models(v.push(t)) == token_models(v).push(t@),
{
    assert(v.push(t).drop_last() =~= v);
    assert(v.push(t).last() == t);
}

/// A parsed wildcard pattern: some grammar in the language of all strings.
///
/// Constructed by `Wildcard::parse`, then read any number of times by
/// `Wildcard::matches` and `Wildcard::render`; never mutated.
#[derive(Debug, PartialEq, Eq)]
pub struct Wildcard {
    pub tokens: Vec<Token>,
}

impl View for Wildcard {
    type V = Seq<TokenModel>;

    open spec fn view(&self) -> Seq<TokenModel> {
        token_models(self.tokens@)
    }
}

impl Wildcard {
    /// Creates an empty `Wildcard`, which matches only the empty string.
    pub fn new() -> (r: Self)
        ensures
            r@ == Seq::<TokenModel>::empty(),
    {
        let r = Wildcard { tokens: Vec::new() };
        proof {
            assert(r@ =~= Seq::<TokenModel>::empty());
        }
        r
    }
}

/// A well-formed choice: ranges are ordered and member sets are
/// non-empty.
pub open spec fn wf_choice(c: ChoiceModel) -> bool {
    match c {
        ChoiceModel::Members(m) => m.len() >= 1,
        ChoiceModel::Range(lo, hi) => lo as u32 <= hi as u32,
    }
}

/// A well-formed token: literal spans are non-empty and free of the
/// delimiters that would have ended them, and character classes carry at
/// least one well-formed choice.
pub open spec fn wf_token(t: TokenModel) -> bool {
    match t {
        TokenModel::Literal(l) => l.len() >= 1 && (forall|i: int|
            0 <= i < l.len() ==> l[i] != '*' && l[i] != '?' && l[i] != '['),
        TokenModel::Star => true,
        TokenModel::AnyChar => true,
        TokenModel::CharClass(cs, _negated) => cs.len() >= 1 && (forall|i: int|
            0 <= i < cs.len() ==> wf_choice(#[trigger] cs[i])),
    }
}

/// A well-formed token sequence, as the parser produces it: every token
/// is well formed and literal spans are maximal (no two adjacent
/// literals).
pub open spec fn wf_tokens(ts: Seq<TokenModel>) -> bool {
    &&& forall|i: int| 0 <= i < ts.len() ==> wf_token(#[trigger] ts[i])
    &&& forall|i: int|
        0 <= i < ts.len() - 1 ==> !((#[trigger] ts[i]) is Literal && ts[i + 1] is Literal)
}

/// The first character that a choice renders.
pub open spec fn choice_lead(c: ChoiceModel) -> char {
    match c {
        ChoiceModel::Members(m) => m[0],
        ChoiceModel::Range(lo, _hi) => lo,
    }
}

/// A canonical choice: well formed, and free of the characters that would
/// change meaning when the rendered text is parsed again.
pub open spec fn canonical_choice(c: ChoiceModel) -> bool {
    match c {
        ChoiceModel::Members(m) => m.len() >= 1 && (forall|i: int|
            0 <= i < m.len() ==> m[i] != ']' && m[i] != '-'),
        ChoiceModel::Range(lo, hi) => lo as u32 <= hi as u32 && lo != ']' && lo != '-',
    }
}

/// A canonical character class: at least one canonical choice, no two
/// adjacent member sets (the parser always coalesces those), and a leading
/// character that does not read as a negation mark.
pub open spec fn canonical_class(cs: Seq<ChoiceModel>, negated: bool) -> bool {
    &&& cs.len() >= 1
    &&& forall|i: int| 0 <= i < cs.len() ==> canonical_choice(#[trigger] cs[i])
    &&& forall|i: int|
        0 <= i < cs.len() - 1 ==> !((#[trigger] cs[i]) is Members && cs[i + 1] is Members)
    &&& (!negated ==> choice_lead(cs[0]) != '!')
}

/// A canonical token.
pub open spec fn canonical_token(t: TokenModel) -> bool {
    match t {
        TokenModel::Literal(l) => l.len() >= 1 && (forall|i: int|
            0 <= i < l.len() ==> l[i] != '*' && l[i] != '?' && l[i] != '['),
        TokenModel::Star => true,
        TokenModel::AnyChar => true,
        TokenModel::CharClass(cs, negated) => canonical_class(cs, negated),
    }
}

/// A canonical token sequence: rendering it and parsing the rendered text
/// back yields the same sequence.
pub open spec fn canonical_tokens(ts: Seq<TokenModel>) -> bool {
    &&& forall|i: int| 0 <= i < ts.len() ==> canonical_token(#[trigger] ts[i])
    &&& forall|i: int|
        0 <= i < ts.len() - 1 ==> !((#[trigger] ts[i]) is Literal && ts[i + 1] is Literal)
}

} // verus!
