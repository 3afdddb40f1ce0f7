//! Laws that tie the parser, the matcher and the renderer together.

use vstd::prelude::*;
use crate::ast::{
    ChoiceModel, TokenModel, canonical_choice, canonical_class, canonical_token, canonical_tokens,
    choice_lead, wf_choice, wf_token, wf_tokens,
};
use crate::matcher::tokens_match;
use crate::parser::{WildcardParseError, flush_lit, parse_bracket, parse_from, spec_parse};
use crate::render::{render_choice, render_choices, render_token, render_tokens};

verus! {

/// A character with no role in the grammar: the literal scanner
/// accumulates it verbatim.
pub open spec fn plain_char(c: char) -> bool {
    c != '*' && c != '?' && c != '[' && c != ']' && c != '-'
}

/// The scan never leaves the literal-accumulating state over plain
/// characters: it accumulates the rest of the text into the capture.
proof fn lemma_literal_run(s: Seq<char>, i: int, acc: Seq<TokenModel>, lit: Seq<char>)
    requires
        0 <= i <= s.len(),
        forall|k: int| i <= k < s.len() ==> plain_char(#[trigger] s[k]),
    ensures
        parse_from(s, i, acc, lit) == Ok::<Seq<TokenModel>, WildcardParseError>(
            flush_lit(acc, lit + s.skip(i)),
        ),
    decreases s.len() - i,
{
    reveal_with_fuel(parse_from, 1);
    if i == s.len() {
        assert(lit + s.skip(i) =~= lit);
    } else {
        lemma_literal_run(s, i + 1, acc, lit.push(s[i]));
        assert(lit.push(s[i]) + s.skip(i + 1) =~= lit + s.skip(i));
    }
}

/// Law: a text of plain characters parses to at most one literal token,
/// and the resulting pattern matches exactly that text and no other.
pub proof fn lemma_literal_pattern(s: Seq<char>, t: Seq<char>)
    requires
        forall|i: int| 0 <= i < s.len() ==> plain_char(#[trigger] s[i]),
    ensures
        spec_parse(s) == Ok::<Seq<TokenModel>, WildcardParseError>(
            if s.len() == 0 {
                Seq::<TokenModel>::empty()
            } else {
                seq![TokenModel::Literal(s)]
            },
        ),
        tokens_match(
            if s.len() == 0 {
                Seq::<TokenModel>::empty()
            } else {
                seq![TokenModel::Literal(s)]
            },
            t,
        ) <==> t == s,
{
    lemma_literal_run(s, 0, Seq::empty(), Seq::empty());
    assert(Seq::<char>::empty() + s.skip(0) =~= s);
    if s.len() == 0 {
        assert(flush_lit(Seq::empty(), s) == Seq::<TokenModel>::empty());
        if tokens_match(Seq::<TokenModel>::empty(), t) {
            assert(t =~= s);
        }
    } else {
        assert(flush_lit(Seq::empty(), s) =~= seq![TokenModel::Literal(s)]);
        let ts = seq![TokenModel::Literal(s)];
        assert(ts.skip(1) =~= Seq::<TokenModel>::empty());
        assert(ts[0] == TokenModel::Literal(s));
        if tokens_match(ts, t) {
            assert(s.len() <= t.len() && t.subrange(0, s.len() as int) == s && tokens_match(
                ts.skip(1),
                t.skip(s.len() as int),
            ));
            assert(t.skip(s.len() as int).len() == 0);
            assert(t =~= s);
        }
        if t == s {
            assert(t.subrange(0, s.len() as int) =~= s);
            assert(t.skip(s.len() as int).len() == 0);
            assert(tokens_match(ts.skip(1), t.skip(s.len() as int)));
            assert(tokens_match(ts, t));
        }
    }
}

/// Law: the pattern `*` parses to a single star token, which matches
/// every subject, the empty one included.
pub proof fn lemma_star_matches_every(s: Seq<char>)
    ensures
        spec_parse(seq!['*']) == Ok::<Seq<TokenModel>, WildcardParseError>(seq![TokenModel::Star]),
        tokens_match(seq![TokenModel::Star], s),
{
    let p = seq!['*'];
    let ts = seq![TokenModel::Star];
    reveal_with_fuel(parse_from, 2);
    assert(flush_lit(Seq::empty(), Seq::empty()).push(TokenModel::Star) =~= ts);
    assert(spec_parse(p) == Ok::<Seq<TokenModel>, WildcardParseError>(ts));
    assert(ts.skip(1) =~= Seq::<TokenModel>::empty());
    let n = s.len() as int;
    assert(s.skip(n).len() == 0);
    assert(tokens_match(ts.skip(1), s.skip(n)));
    assert(0 <= n <= s.len() && tokens_match(ts.skip(1), s.skip(n)));
}

/// Law: the pattern `?` parses to a single any-character token, which
/// matches exactly the subjects of one character.
pub proof fn lemma_any_char_matches_single(s: Seq<char>)
    ensures
        spec_parse(seq!['?']) == Ok::<Seq<TokenModel>, WildcardParseError>(
            seq![TokenModel::AnyChar],
        ),
        tokens_match(seq![TokenModel::AnyChar], s) <==> s.len() == 1,
{
    let p = seq!['?'];
    let ts = seq![TokenModel::AnyChar];
    reveal_with_fuel(parse_from, 2);
    assert(flush_lit(Seq::empty(), Seq::empty()).push(TokenModel::AnyChar) =~= ts);
    assert(spec_parse(p) == Ok::<Seq<TokenModel>, WildcardParseError>(ts));
    assert(ts.skip(1) =~= Seq::<TokenModel>::empty());
    if s.len() == 1 {
        assert(s.skip(1).len() == 0);
        assert(tokens_match(ts.skip(1), s.skip(1)));
    }
    if tokens_match(ts, s) {
        assert(s.len() >= 1 && tokens_match(ts.skip(1), s.skip(1)));
        assert(s.skip(1).len() == 0);
    }
}

/// Law (round trip, literal patterns): a non-empty text of plain
/// characters parses to a pattern that renders back to the same text.
pub proof fn lemma_literal_round_trip(s: Seq<char>)
    requires
        s.len() > 0,
        forall|i: int| 0 <= i < s.len() ==> plain_char(#[trigger] s[i]),
    ensures
        spec_parse(s) == Ok::<Seq<TokenModel>, WildcardParseError>(seq![TokenModel::Literal(s)]),
        render_tokens(seq![TokenModel::Literal(s)]) == s,
{
    lemma_literal_pattern(s, s);
    let ts = seq![TokenModel::Literal(s)];
    assert(ts.skip(1) =~= Seq::<TokenModel>::empty());
    assert(render_tokens(ts) == s + render_tokens(Seq::<TokenModel>::empty()));
    assert(s + Seq::<char>::empty() =~= s);
}

/// The pending member capture of a bracket scan, as the choice it will
/// flush to: nothing when it is empty.
pub open spec fn pending_choice(pend: Seq<char>) -> Seq<ChoiceModel> {
    if pend.len() == 0 {
        Seq::empty()
    } else {
        seq![ChoiceModel::Members(pend)]
    }
}

/// The literal scanner accumulates a chunk of plain characters into the
/// pending capture.
proof fn lemma_literal_chunk(s: Seq<char>, i: int, k: int, acc: Seq<TokenModel>, lit: Seq<char>)
    requires
        0 <= i <= k <= s.len(),
        forall|j: int| i <= j < k ==> (#[trigger] s[j]) != '*' && s[j] != '?' && s[j] != '[',
    ensures
        parse_from(s, i, acc, lit) == parse_from(s, k, acc, lit + s.subrange(i, k)),
    decreases k - i,
{
    reveal_with_fuel(parse_from, 1);
    if i == k {
        assert(lit + s.subrange(i, k) =~= lit);
    } else {
        lemma_literal_chunk(s, i + 1, k, acc, lit.push(s[i]));
        assert(lit.push(s[i]) + s.subrange(i + 1, k) =~= lit + s.subrange(i, k));
    }
}

/// The bracket scanner accumulates a chunk of ordinary characters into the
/// pending member capture.
proof fn lemma_bracket_chunk(
    s: Seq<char>,
    i: int,
    k: int,
    acc: Seq<TokenModel>,
    done: Seq<ChoiceModel>,
    cap: Seq<char>,
    prev: char,
    neg: bool,
)
    requires
        0 <= i <= k <= s.len(),
        forall|j: int| i <= j < k ==> (#[trigger] s[j]) != ']' && s[j] != '-',
    ensures
        parse_bracket(s, i, acc, done, cap, prev, neg) == parse_bracket(
            s,
            k,
            acc,
            done,
            cap + s.subrange(i, k),
            if k > i {
                s[k - 1]
            } else {
                prev
            },
            neg,
        ),
    decreases k - i,
{
    reveal_with_fuel(parse_bracket, 1);
    if i == k {
        assert(cap + s.subrange(i, k) =~= cap);
    } else {
        lemma_bracket_chunk(s, i + 1, k, acc, done, cap.push(s[i]), s[i], neg);
        assert(cap.push(s[i]) + s.subrange(i + 1, k) =~= cap + s.subrange(i, k));
    }
}

/// The bracket scanner, at a choice boundary, consumes the rendered
/// choices and the closing bracket, and emits the finished character
/// class.
proof fn lemma_class_choices(
    s: Seq<char>,
    i: int,
    acc: Seq<TokenModel>,
    done: Seq<ChoiceModel>,
    pend: Seq<char>,
    prev: char,
    neg: bool,
    cs: Seq<ChoiceModel>,
    tail: Seq<char>,
)
    requires
        0 <= i <= s.len(),
        s.skip(i) == render_choices(cs) + seq![']'] + tail,
        forall|k: int| 0 <= k < cs.len() ==> canonical_choice(#[trigger] cs[k]),
        forall|k: int|
            0 <= k < cs.len() - 1 ==> !((#[trigger] cs[k]) is Members && cs[k + 1] is Members),
        pend.len() > 0 ==> (cs.len() == 0 || cs[0] is Range),
        done.len() + cs.len() >= 1 || pend.len() > 0,
    ensures
        parse_bracket(s, i, acc, done, pend, prev, neg) == parse_from(
            s,
            i + render_choices(cs).len() + 1,
            acc.push(TokenModel::CharClass(done + pending_choice(pend) + cs, neg)),
            Seq::empty(),
        ),
    decreases cs.len(),
{
    reveal_with_fuel(parse_bracket, 1);
    reveal_with_fuel(parse_from, 1);
    let rest = seq![']'] + tail;
    assert(s.skip(i) =~= render_choices(cs) + rest);
    if cs.len() == 0 {
        assert(render_choices(cs) == Seq::<char>::empty());
        assert(s.skip(i) == rest);
        assert(s.skip(i)[0] == s[i]);
        assert(s[i] == ']');
        assert(s[i] != '-');
        assert(i < s.len());
        let all = if pend.len() > 0 {
            done.push(ChoiceModel::Members(pend))
        } else {
            done
        };
        assert(all =~= done + pending_choice(pend) + cs);
        assert(all.len() >= 1);
        assert(parse_bracket(s, i, acc, done, pend, prev, neg) == parse_from(
            s,
            i + 1,
            acc.push(TokenModel::CharClass(all, neg)),
            Seq::empty(),
        ));
    } else if cs[0] is Members {
        let m = cs[0]->Members_0;
        assert(canonical_choice(cs[0]));
        assert(m.len() >= 1);
        assert(pend.len() == 0);
        assert(render_choices(cs) == render_choice(cs[0]) + render_choices(cs.skip(1)));
        assert(render_choice(cs[0]) == m);
        let w = m.len() as int;
        assert forall|j: int| i <= j < i + w implies (#[trigger] s[j]) != ']' && s[j] != '-' by {
            assert(s.skip(i)[j - i] == s[j]);
            assert((render_choices(cs) + rest)[j - i] == m[j - i]);
        }
        lemma_bracket_chunk(s, i, i + w, acc, done, pend, prev, neg);
        assert(s.subrange(i, i + w) =~= m) by {
            assert forall|j: int| 0 <= j < w implies s.subrange(i, i + w)[j] == m[j] by {
                assert(s.skip(i)[j] == s[i + j]);
                assert((render_choices(cs) + rest)[j] == m[j]);
            }
        }
        assert(pend + s.subrange(i, i + w) =~= m);
        assert(s.skip(i + w) =~= render_choices(cs.skip(1)) + rest) by {
            assert forall|j: int|
                0 <= j < s.skip(i + w).len() implies s.skip(i + w)[j] == (render_choices(cs.skip(1))
                + rest)[j] by {
                assert(s.skip(i + w)[j] == s[i + w + j]);
                assert(s.skip(i)[w + j] == s[i + w + j]);
                assert((render_choices(cs) + rest)[w + j] == (render_choices(cs.skip(1)) + rest)[
                    j
                ]);
            }
        }
        assert forall|k: int| 0 <= k < cs.skip(1).len() implies canonical_choice(
            #[trigger] cs.skip(1)[k],
        ) by {
            assert(cs.skip(1)[k] == cs[k + 1]);
        }
        assert forall|k: int|
            0 <= k < cs.skip(1).len() - 1 implies !((#[trigger] cs.skip(1)[k]) is Members
            && cs.skip(1)[k + 1] is Members) by {
            assert(cs.skip(1)[k] == cs[k + 1]);
            assert(cs.skip(1)[k + 1] == cs[k + 2]);
        }
        if cs.skip(1).len() > 0 {
            assert(cs.skip(1)[0] == cs[1]);
            assert(!(cs[1] is Members));
        }
        assert(s.skip(i + w) =~= render_choices(cs.skip(1)) + seq![']'] + tail);
        lemma_class_choices(s, i + w, acc, done, m, s[i + w - 1], neg, cs.skip(1), tail);
        assert(done + pending_choice(m) + cs.skip(1) =~= done + pending_choice(pend) + cs);
        assert(i + w + render_choices(cs.skip(1)).len() + 1 == i + render_choices(cs).len() + 1);
    } else {
        let lo = cs[0]->Range_0;
        let hi = cs[0]->Range_1;
        assert(canonical_choice(cs[0]));
        assert(render_choices(cs) == render_choice(cs[0]) + render_choices(cs.skip(1)));
        assert(render_choice(cs[0]) == seq![lo, '-', hi]);
        assert(s.skip(i).len() >= 4);
        assert(s[i] == lo) by {
            assert(s.skip(i)[0] == s[i]);
            assert((render_choices(cs) + rest)[0] == lo);
        }
        assert(s[i + 1] == '-') by {
            assert(s.skip(i)[1] == s[i + 1]);
            assert((render_choices(cs) + rest)[1] == '-');
        }
        assert(s[i + 2] == hi) by {
            assert(s.skip(i)[2] == s[i + 2]);
            assert((render_choices(cs) + rest)[2] == hi);
        }
        let cap1 = pend.push(lo);
        assert(parse_bracket(s, i, acc, done, pend, prev, neg) == parse_bracket(
            s,
            i + 1,
            acc,
            done,
            cap1,
            lo,
            neg,
        ));
        assert(cap1.last() == lo);
        assert(cap1.drop_last() =~= pend);
        let flushed = if cap1.len() > 1 {
            done.push(ChoiceModel::Members(cap1.drop_last()))
        } else {
            done
        };
        assert(flushed =~= done + pending_choice(pend));
        assert(!((hi as u32) < (lo as u32)));
        assert(parse_bracket(s, i + 1, acc, done, cap1, lo, neg) == parse_bracket(
            s,
            i + 3,
            acc,
            flushed.push(ChoiceModel::Range(lo, hi)),
            Seq::empty(),
            hi,
            neg,
        ));
        assert(s.skip(i + 3) =~= render_choices(cs.skip(1)) + rest) by {
            assert forall|j: int|
                0 <= j < s.skip(i + 3).len() implies s.skip(i + 3)[j] == (render_choices(
                cs.skip(1),
            ) + rest)[j] by {
                assert(s.skip(i + 3)[j] == s[i + 3 + j]);
                assert(s.skip(i)[3 + j] == s[i + 3 + j]);
                assert((render_choices(cs) + rest)[3 + j] == (render_choices(cs.skip(1)) + rest)[
                    j
                ]);
            }
        }
        assert forall|k: int| 0 <= k < cs.skip(1).len() implies canonical_choice(
            #[trigger] cs.skip(1)[k],
        ) by {
            assert(cs.skip(1)[k] == cs[k + 1]);
        }
        assert forall|k: int|
            0 <= k < cs.skip(1).len() - 1 implies !((#[trigger] cs.skip(1)[k]) is Members
            && cs.skip(1)[k + 1] is Members) by {
            assert(cs.skip(1)[k] == cs[k + 1]);
            assert(cs.skip(1)[k + 1] == cs[k + 2]);
        }
        assert(s.skip(i + 3) =~= render_choices(cs.skip(1)) + seq![']'] + tail);
        lemma_class_choices(
            s,
            i + 3,
            acc,
            flushed.push(ChoiceModel::Range(lo, hi)),
            Seq::empty(),
            hi,
            neg,
            cs.skip(1),
            tail,
        );
        assert(flushed.push(ChoiceModel::Range(lo, hi)) + pending_choice(Seq::empty()) + cs.skip(
            1,
        ) =~= done + pending_choice(pend) + cs);
        assert(i + 3 + render_choices(cs.skip(1)).len() + 1 == i + render_choices(cs).len() + 1);
    }
}

/// The scan, fed the rendering of a canonical token sequence, emits
/// exactly those tokens after its pending capture.
#[verifier::rlimit(100)]
proof fn lemma_parse_render(
    s: Seq<char>,
    i: int,
    acc: Seq<TokenModel>,
    lit: Seq<char>,
    ts: Seq<TokenModel>,
)
    requires
        0 <= i <= s.len(),
        s.skip(i) == render_tokens(ts),
        canonical_tokens(ts),
        forall|j: int| 0 <= j < lit.len() ==> (#[trigger] lit[j]) != '*' && lit[j] != '?'
            && lit[j] != '[',
        lit.len() > 0 && ts.len() > 0 ==> !(ts[0] is Literal),
    ensures
        parse_from(s, i, acc, lit) == Ok::<Seq<TokenModel>, WildcardParseError>(
            flush_lit(acc, lit) + ts,
        ),
    decreases ts.len(),
{
    reveal_with_fuel(parse_from, 1);
    if ts.len() == 0 {
        assert(render_tokens(ts) == Seq::<char>::empty());
        assert(i == s.len());
        assert(flush_lit(acc, lit) + ts =~= flush_lit(acc, lit));
    } else {
        let t0 = ts[0];
        assert(canonical_token(t0));
        let rt = render_token(t0);
        assert(render_tokens(ts) == rt + render_tokens(ts.skip(1)));
        let tail = render_tokens(ts.skip(1));
        assert forall|k: int| 0 <= k < ts.skip(1).len() implies canonical_token(
            #[trigger] ts.skip(1)[k],
        ) by {
            assert(ts.skip(1)[k] == ts[k + 1]);
        }
        assert forall|k: int|
            0 <= k < ts.skip(1).len() - 1 implies !((#[trigger] ts.skip(1)[k]) is Literal
            && ts.skip(1)[k + 1] is Literal) by {
            assert(ts.skip(1)[k] == ts[k + 1]);
            assert(ts.skip(1)[k + 1] == ts[k + 2]);
        }
        match t0 {
            TokenModel::Star => {
                assert(s[i] == '*') by {
                    assert(s.skip(i)[0] == s[i]);
                    assert((rt + tail)[0] == '*');
                }
                assert(s.skip(i + 1) =~= tail) by {
                    assert forall|j: int| 0 <= j < s.skip(i + 1).len() implies s.skip(i + 1)[j]
                        == tail[j] by {
                        assert(s.skip(i + 1)[j] == s[i + 1 + j]);
                        assert(s.skip(i)[1 + j] == s[i + 1 + j]);
                        assert((rt + tail)[1 + j] == tail[j]);
                    }
                }
                lemma_parse_render(
                    s,
                    i + 1,
                    flush_lit(acc, lit).push(TokenModel::Star),
                    Seq::empty(),
                    ts.skip(1),
                );
                assert(flush_lit(flush_lit(acc, lit).push(TokenModel::Star), Seq::empty())
                    + ts.skip(1) =~= flush_lit(acc, lit) + ts);
            },
            TokenModel::AnyChar => {
                assert(s[i] == '?') by {
                    assert(s.skip(i)[0] == s[i]);
                    assert((rt + tail)[0] == '?');
                }
                assert(s.skip(i + 1) =~= tail) by {
                    assert forall|j: int| 0 <= j < s.skip(i + 1).len() implies s.skip(i + 1)[j]
                        == tail[j] by {
                        assert(s.skip(i + 1)[j] == s[i + 1 + j]);
                        assert(s.skip(i)[1 + j] == s[i + 1 + j]);
                        assert((rt + tail)[1 + j] == tail[j]);
                    }
                }
                lemma_parse_render(
                    s,
                    i + 1,
                    flush_lit(acc, lit).push(TokenModel::AnyChar),
                    Seq::empty(),
                    ts.skip(1),
                );
                assert(flush_lit(flush_lit(acc, lit).push(TokenModel::AnyChar), Seq::empty())
                    + ts.skip(1) =~= flush_lit(acc, lit) + ts);
            },
            TokenModel::Literal(l) => {
                assert(lit.len() == 0);
                assert(rt == l);
                let w = l.len() as int;
                assert forall|j: int| i <= j < i + w implies (#[trigger] s[j]) != '*' && s[j]
                    != '?' && s[j] != '[' by {
                    assert(s.skip(i)[j - i] == s[j]);
                    assert((rt + tail)[j - i] == l[j - i]);
                }
                lemma_literal_chunk(s, i, i + w, acc, lit);
                assert(s.subrange(i, i + w) =~= l) by {
                    assert forall|j: int| 0 <= j < w implies s.subrange(i, i + w)[j] == l[j] by {
                        assert(s.skip(i)[j] == s[i + j]);
                        assert((rt + tail)[j] == l[j]);
                    }
                }
                assert(lit + s.subrange(i, i + w) =~= l);
                assert(s.skip(i + w) =~= tail) by {
                    assert forall|j: int| 0 <= j < s.skip(i + w).len() implies s.skip(i + w)[j]
                        == tail[j] by {
                        assert(s.skip(i + w)[j] == s[i + w + j]);
                        assert(s.skip(i)[w + j] == s[i + w + j]);
                        assert((rt + tail)[w + j] == tail[j]);
                    }
                }
                if ts.skip(1).len() > 0 {
                    assert(ts.skip(1)[0] == ts[1]);
                    assert(!(ts[1] is Literal));
                }
                lemma_parse_render(s, i + w, acc, l, ts.skip(1));
                assert(flush_lit(acc, l) + ts.skip(1) =~= flush_lit(acc, lit) + ts);
            },
            TokenModel::CharClass(cs, neg) => {
                assert(canonical_class(cs, neg));
                let head = seq!['['] + (if neg {
                    seq!['!']
                } else {
                    Seq::<char>::empty()
                });
                assert(rt == head + render_choices(cs) + seq![']']);
                assert(render_choices(cs) == render_choice(cs[0]) + render_choices(cs.skip(1)));
                assert(render_choice(cs[0]).len() >= 1);
                assert(render_choice(cs[0])[0] == choice_lead(cs[0]));
                assert(choice_lead(cs[0]) != ']' && choice_lead(cs[0]) != '-') by {
                    assert(canonical_choice(cs[0]));
                }
                let body = render_choices(cs) + seq![']'] + tail;
                assert(s[i] == '[') by {
                    assert(s.skip(i)[0] == s[i]);
                    assert((rt + tail)[0] == '[');
                }
                let b = i + head.len() as int;
                assert(s.skip(b) =~= body) by {
                    assert forall|j: int| 0 <= j < s.skip(b).len() implies s.skip(b)[j] == body[j]
                        by {
                        assert(s.skip(b)[j] == s[b + j]);
                        assert(s.skip(i)[head.len() + j] == s[b + j]);
                        assert((rt + tail)[head.len() + j] == body[j]);
                    }
                }
                assert(body[0] == choice_lead(cs[0]));
                assert(s[b] == choice_lead(cs[0])) by {
                    assert(s.skip(b)[0] == s[b]);
                }
                assert(i + 1 < s.len());
                let acc1 = flush_lit(acc, lit);
                if neg {
                    assert(s[i + 1] == '!') by {
                        assert(s.skip(i)[1] == s[i + 1]);
                        assert((rt + tail)[1] == '!');
                    }
                    reveal_with_fuel(parse_from, 1);
                    reveal_with_fuel(parse_bracket, 1);
                    assert(parse_from(s, i, acc, lit) == parse_bracket(
                        s,
                        i + 2,
                        acc1,
                        Seq::empty(),
                        Seq::empty(),
                        '!',
                        true,
                    ));
                    lemma_class_choices(
                        s,
                        i + 2,
                        acc1,
                        Seq::empty(),
                        Seq::empty(),
                        '!',
                        true,
                        cs,
                        tail,
                    );
                    assert(Seq::<ChoiceModel>::empty() + pending_choice(Seq::empty()) + cs =~= cs);
                } else {
                    assert(s[i + 1] == choice_lead(cs[0]));
                    assert(s[i + 1] != '!');
                    reveal_with_fuel(parse_from, 1);
                    reveal_with_fuel(parse_bracket, 1);
                    assert(parse_from(s, i, acc, lit) == parse_bracket(
                        s,
                        i + 2,
                        acc1,
                        Seq::empty(),
                        seq![s[i + 1]],
                        s[i + 1],
                        false,
                    ));
                    assert(parse_bracket(s, i + 1, acc1, Seq::empty(), Seq::empty(), '[', false)
                        == parse_bracket(s, i + 2, acc1, Seq::empty(), seq![s[i + 1]], s[i + 1], false))
                        by {
                        reveal_with_fuel(parse_bracket, 1);
                        assert(Seq::<char>::empty().push(s[i + 1]) =~= seq![s[i + 1]]);
                    }
                    lemma_class_choices(
                        s,
                        i + 1,
                        acc1,
                        Seq::empty(),
                        Seq::empty(),
                        '[',
                        false,
                        cs,
                        tail,
                    );
                    assert(Seq::<ChoiceModel>::empty() + pending_choice(Seq::empty()) + cs =~= cs);
                }
                let o = i + (rt.len() - 1) as int;
                assert(parse_from(s, i, acc, lit) == parse_from(
                    s,
                    o + 1,
                    acc1.push(TokenModel::CharClass(cs, neg)),
                    Seq::empty(),
                ));
                assert(s.skip(o + 1) =~= tail) by {
                    assert forall|j: int| 0 <= j < s.skip(o + 1).len() implies s.skip(o + 1)[j]
                        == tail[j] by {
                        assert(s.skip(o + 1)[j] == s[o + 1 + j]);
                        assert(s.skip(i)[rt.len() + j] == s[i + rt.len() + j]);
                        assert((rt + tail)[rt.len() + j] == tail[j]);
                    }
                }
                lemma_parse_render(
                    s,
                    o + 1,
                    acc1.push(TokenModel::CharClass(cs, neg)),
                    Seq::empty(),
                    ts.skip(1),
                );
                assert(flush_lit(acc1.push(TokenModel::CharClass(cs, neg)), Seq::empty())
                    + ts.skip(1) =~= flush_lit(acc, lit) + ts);
            },
        }
    }
}

/// Law (round trip): parsing the rendering of a canonical token sequence
/// yields exactly that sequence, so rendering is left-inverse to parsing
/// on canonical pattern text.
pub proof fn lemma_render_parse_round_trip(ts: Seq<TokenModel>)
    requires
        canonical_tokens(ts),
    ensures
        spec_parse(render_tokens(ts)) == Ok::<Seq<TokenModel>, WildcardParseError>(ts),
{
    let s = render_tokens(ts);
    assert(s.skip(0) =~= s);
    lemma_parse_render(s, 0, Seq::empty(), Seq::empty(), ts);
    assert(flush_lit(Seq::empty(), Seq::empty()) + ts =~= ts);
}

/// Returns its argument unchanged; anchors a character value for the
/// proofs around bracket ranges.
proof fn anchored(c: char) -> (r: char)
    ensures
        r == c,
{
    c
}

/// The literal scan only ever yields well-formed token sequences.
#[verifier::rlimit(100)]
proof fn lemma_parse_from_wf(s: Seq<char>, i: int, acc: Seq<TokenModel>, lit: Seq<char>)
    requires
        0 <= i <= s.len(),
        wf_tokens(acc),
        forall|j: int| 0 <= j < lit.len() ==> (#[trigger] lit[j]) != '*' && lit[j] != '?'
            && lit[j] != '[',
        acc.len() > 0 ==> !(acc.last() is Literal),
    ensures
        parse_from(s, i, acc, lit) matches Ok(ts) ==> wf_tokens(ts),
    decreases s.len() - i,
{
    reveal_with_fuel(parse_from, 1);
    reveal_with_fuel(parse_bracket, 1);
    let base = flush_lit(acc, lit);
    assert(wf_tokens(base)) by {
        if lit.len() > 0 {
            assert(wf_token(TokenModel::Literal(lit)));
            assert forall|k: int| 0 <= k < base.len() implies wf_token(#[trigger] base[k]) by {
                if k < acc.len() {
                    assert(base[k] == acc[k]);
                }
            }
        }
    }
    assert(base.len() > 0 ==> base.last() is Literal ==> lit.len() > 0 || acc.last() is Literal);
    if i >= s.len() {
    } else if s[i] == '*' {
        let acc2 = base.push(TokenModel::Star);
        assert(wf_tokens(acc2)) by {
            assert forall|k: int| 0 <= k < acc2.len() implies wf_token(#[trigger] acc2[k]) by {
                if k < base.len() {
                    assert(acc2[k] == base[k]);
                }
            }
            assert forall|k: int|
                0 <= k < acc2.len() - 1 implies !((#[trigger] acc2[k]) is Literal && acc2[k
                + 1] is Literal) by {
                if k + 1 < base.len() {
                    assert(acc2[k] == base[k]);
                    assert(acc2[k + 1] == base[k + 1]);
                } else {
                    assert(acc2[k + 1] == TokenModel::Star);
                }
            }
        }
        lemma_parse_from_wf(s, i + 1, acc2, Seq::empty());
    } else if s[i] == '?' {
        let acc2 = base.push(TokenModel::AnyChar);
        assert(wf_tokens(acc2)) by {
            assert forall|k: int| 0 <= k < acc2.len() implies wf_token(#[trigger] acc2[k]) by {
                if k < base.len() {
                    assert(acc2[k] == base[k]);
                }
            }
            assert forall|k: int|
                0 <= k < acc2.len() - 1 implies !((#[trigger] acc2[k]) is Literal && acc2[k
                + 1] is Literal) by {
                if k + 1 < base.len() {
                    assert(acc2[k] == base[k]);
                    assert(acc2[k + 1] == base[k + 1]);
                } else {
                    assert(acc2[k + 1] == TokenModel::AnyChar);
                }
            }
        }
        lemma_parse_from_wf(s, i + 1, acc2, Seq::empty());
    } else if s[i] == '[' {
        if i + 1 >= s.len() {
        } else if s[i + 1] == '!' {
            lemma_parse_bracket_wf(s, i + 2, base, Seq::empty(), Seq::empty(), '!', true);
        } else {
            lemma_parse_bracket_wf(
                s,
                i + 2,
                base,
                Seq::empty(),
                seq![s[i + 1]],
                s[i + 1],
                false,
            );
        }
    } else {
        assert forall|j: int|
            0 <= j < lit.push(s[i]).len() implies (#[trigger] lit.push(s[i])[j]) != '*'
            && lit.push(s[i])[j] != '?' && lit.push(s[i])[j] != '[' by {
            if j < lit.len() {
                assert(lit.push(s[i])[j] == lit[j]);
            } else {
                assert(lit.push(s[i])[j] == s[i]);
            }
        }
        lemma_parse_from_wf(s, i + 1, acc, lit.push(s[i]));
    }
}

/// The bracket scan only ever yields well-formed token sequences.
#[verifier::rlimit(100)]
proof fn lemma_parse_bracket_wf(
    s: Seq<char>,
    i: int,
    acc: Seq<TokenModel>,
    choices: Seq<ChoiceModel>,
    cap: Seq<char>,
    prev: char,
    neg: bool,
)
    requires
        0 <= i <= s.len(),
        wf_tokens(acc),
        forall|k: int| 0 <= k < choices.len() ==> wf_choice(#[trigger] choices[k]),
    ensures
        parse_bracket(s, i, acc, choices, cap, prev, neg) matches Ok(ts) ==> wf_tokens(ts),
    decreases s.len() - i,
{
    reveal_with_fuel(parse_bracket, 1);
    reveal_with_fuel(parse_from, 1);
    if i >= s.len() {
    } else if s[i] == '-' {
        let lo = if cap.len() > 0 {
            cap.last()
        } else {
            prev
        };
        let flushed = if cap.len() > 1 {
            choices.push(ChoiceModel::Members(cap.drop_last()))
        } else {
            choices
        };
        if i + 1 >= s.len() {
        } else if (s[i + 1] as u32) < (lo as u32) {
        } else {
            let lo2 = anchored(lo);
            let hi2 = anchored(s[i + 1]);
            let next = flushed.push(ChoiceModel::Range(lo2, hi2));
            assert(next == flushed.push(ChoiceModel::Range(lo, s[i + 1])));
            assert forall|k: int| 0 <= k < next.len() implies wf_choice(#[trigger] next[k]) by {
                if k < flushed.len() {
                    assert(next[k] == flushed[k]);
                    if cap.len() > 1 && k < choices.len() {
                        assert(flushed[k] == choices[k]);
                    }
                } else {
                    assert(next[k] == ChoiceModel::Range(lo2, hi2));
                }
            }
            lemma_parse_bracket_wf(s, i + 2, acc, next, Seq::empty(), hi2, neg);
            assert(parse_bracket(s, i, acc, choices, cap, prev, neg) == parse_bracket(
                s,
                i + 2,
                acc,
                next,
                Seq::empty(),
                hi2,
                neg,
            ));
        }
    } else if s[i] == ']' {
        let all = if cap.len() > 0 {
            choices.push(ChoiceModel::Members(cap))
        } else {
            choices
        };
        if all.len() == 0 {
        } else {
            assert forall|k: int| 0 <= k < all.len() implies wf_choice(#[trigger] all[k]) by {
                if cap.len() > 0 && k < choices.len() {
                    assert(all[k] == choices[k]);
                }
            }
            let tok = TokenModel::CharClass(all, neg);
            assert(wf_token(tok));
            let acc2 = acc.push(tok);
            assert(wf_tokens(acc2)) by {
                assert forall|k: int| 0 <= k < acc2.len() implies wf_token(#[trigger] acc2[k]) by {
                    if k < acc.len() {
                        assert(acc2[k] == acc[k]);
                    }
                }
                assert forall|k: int|
                    0 <= k < acc2.len() - 1 implies !((#[trigger] acc2[k]) is Literal && acc2[k
                    + 1] is Literal) by {
                    if k + 1 < acc.len() {
                        assert(acc2[k] == acc[k]);
                        assert(acc2[k + 1] == acc[k + 1]);
                    } else {
                        assert(acc2[k + 1] == tok);
                    }
                }
            }
            lemma_parse_from_wf(s, i + 1, acc2, Seq::empty());
            assert(parse_bracket(s, i, acc, choices, cap, prev, neg) == parse_from(
                s,
                i + 1,
                acc2,
                Seq::empty(),
            ));
        }
    } else {
        lemma_parse_bracket_wf(s, i + 1, acc, choices, cap.push(s[i]), s[i], neg);
        assert(parse_bracket(s, i, acc, choices, cap, prev, neg) == parse_bracket(
            s,
            i + 1,
            acc,
            choices,
            cap.push(s[i]),
            s[i],
            neg,
        ));
    }
}

/// Law (parser invariants): whatever pattern the parser accepts is well
/// formed: ranges are ordered, character classes are never empty, and
/// literal spans are non-empty and maximal.
pub proof fn lemma_parse_well_formed(s: Seq<char>)
    ensures
        spec_parse(s) matches Ok(ts) ==> wf_tokens(ts),
{
    lemma_parse_from_wf(s, 0, Seq::empty(), Seq::empty());
}

} // verus!
