use vstd::prelude::*;

use crate::diag::{Diag, Expected, Found};
use crate::lexer::{lex_at, tokenize, toks_model, STok, Token, TokenModel};
use crate::model::{values_model, entries_model, CfgClass, CfgEntry, CfgProperty, CfgValue, EntryModel, ValueModel};
use crate::num::{numeric_value, numeric_value_model};
use crate::textutil::str_to_chars;

verus! {

broadcast use vstd::std_specs::vec::group_vec_axioms, vstd::seq::group_seq_axioms;

/// A spanned token as the parser sees it.
pub type TokSpan = (TokenModel, int, int);

/// What kind of thing a token is, for diagnostics.
pub open spec fn found_of(t: TokenModel) -> Found {
    match t {
        TokenModel::Num(_) => Found::NumToken,
        TokenModel::Str(_) => Found::StrToken,
        TokenModel::Ctrl(c) => Found::CtrlToken(c),
        TokenModel::Ident(_) => Found::IdentToken,
        TokenModel::Class => Found::ClassToken,
        TokenModel::Delete => Found::DeleteToken,
    }
}

/// A diagnostic at token `p`, or at the end of the text when the tokens ran
/// out.
pub open spec fn diag_at(toks: Seq<TokSpan>, p: int, eof: int, exp: Expected) -> Diag {
    if 0 <= p < toks.len() {
        Diag {
            lo: toks[p].1 as usize,
            hi: toks[p].2 as usize,
            expected: exp,
            found: found_of(toks[p].0),
        }
    } else {
        Diag { lo: eof as usize, hi: eof as usize, expected: exp, found: Found::End }
    }
}

/// Whether the token at `p` is the given control character.
pub open spec fn is_ctrl_at(toks: Seq<TokSpan>, p: int, c: char) -> bool {
    0 <= p < toks.len() && toks[p].0 == TokenModel::Ctrl(c)
}

/// The value a scalar token denotes: a numeric token is classified by its
/// binary32 rounding, a string token is itself.
pub open spec fn scalar_value(t: TokenModel) -> Option<ValueModel> {
    match t {
        TokenModel::Num(txt) => Some(numeric_value_model(txt)),
        TokenModel::Str(s) => Some(ValueModel::String(s)),
        _ => None,
    }
}

/// An array literal at `p` (which must hold the opening brace): values or
/// nested arrays separated by commas, a trailing comma allowed, closed by a
/// brace. A failure gives the diagnostic and the token it stopped at.
pub open spec fn parse_array(toks: Seq<TokSpan>, p: int, eof: int) -> Result<(ValueModel, int), (Diag, int)>
    decreases toks.len() - p, 2int,
{
    if !(0 <= p < toks.len()) {
        Err((diag_at(toks, p, eof, Expected::ValueOrArray), p))
    } else {
        match parse_array_elems(toks, p + 1, eof, Seq::empty()) {
            Ok((vs, q)) => Ok((ValueModel::Array(vs), q)),
            Err(e) => Err(e),
        }
    }
}

/// The elements of an array literal from `p` on, `acc` holding those
/// already read.
pub open spec fn parse_array_elems(toks: Seq<TokSpan>, p: int, eof: int, acc: Seq<ValueModel>) -> Result<(Seq<ValueModel>, int), (Diag, int)>
    decreases toks.len() - p, 3int,
{
    if !(0 <= p < toks.len()) {
        Err((diag_at(toks, p, eof, Expected::ValueOrArray), p))
    } else if toks[p].0 == TokenModel::Ctrl('}') {
        Ok((acc, p + 1))
    } else {
        let elem: Result<(ValueModel, int), (Diag, int)> = if is_ctrl_at(toks, p, '{') {
            parse_array(toks, p, eof)
        } else {
            match scalar_value(toks[p].0) {
                Some(v) => Ok((v, p + 1)),
                None => Err((diag_at(toks, p, eof, Expected::ValueOrArray), p)),
            }
        };
        match elem {
            Ok((v, q)) => {
                if !(p < q <= toks.len()) {
                    Err((diag_at(toks, p, eof, Expected::ValueOrArray), p))
                } else if is_ctrl_at(toks, q, ',') {
                    parse_array_elems(toks, q + 1, eof, acc.push(v))
                } else if is_ctrl_at(toks, q, '}') {
                    Ok((acc.push(v), q + 1))
                } else {
                    Err((diag_at(toks, q, eof, Expected::CommaOrRBrace), q))
                }
            },
            Err(e) => Err(e),
        }
    }
}

/// One entry at `p`: a class definition, a scalar or array property, an
/// extern declaration or a delete declaration, each ended by a semicolon.
/// Success carries the entry, the next token and any diagnostics recovered
/// inside a class body; failure carries the diagnostics and the token the
/// entry failed at.
pub open spec fn parse_entry(toks: Seq<TokSpan>, p: int, eof: int) -> (Option<(EntryModel, int)>, Seq<Diag>, int)
    decreases toks.len() - p, 1int,
{
    if !(0 <= p < toks.len()) {
        (None, seq![diag_at(toks, p, eof, Expected::Entry)], p)
    } else {
        match toks[p].0 {
            TokenModel::Class => {
                if !(p + 1 < toks.len() && toks[p + 1].0 is Ident) {
                    (None, seq![diag_at(toks, p + 1, eof, Expected::Identifier)], p + 1)
                } else {
                    let name = toks[p + 1].0->Ident_0;
                    if is_ctrl_at(toks, p + 2, ';') {
                        (Some((EntryModel::Extern(name), p + 3)), Seq::empty(), p + 3)
                    } else if is_ctrl_at(toks, p + 2, ':') {
                        if !(p + 3 < toks.len() && toks[p + 3].0 is Ident) {
                            (None, seq![diag_at(toks, p + 3, eof, Expected::Identifier)], p + 3)
                        } else if !is_ctrl_at(toks, p + 4, '{') {
                            (None, seq![diag_at(toks, p + 4, eof, Expected::LBrace)], p + 4)
                        } else {
                            parse_class_body(
                                toks,
                                p,
                                p + 4,
                                eof,
                                name,
                                Some(toks[p + 3].0->Ident_0),
                            )
                        }
                    } else if is_ctrl_at(toks, p + 2, '{') {
                        parse_class_body(toks, p, p + 2, eof, name, None)
                    } else {
                        (
                            None,
                            seq![diag_at(toks, p + 2, eof, Expected::ClassBodyOrSemicolon)],
                            p + 2,
                        )
                    }
                }
            },
            TokenModel::Delete => {
                if !(p + 1 < toks.len() && toks[p + 1].0 is Ident) {
                    (None, seq![diag_at(toks, p + 1, eof, Expected::Identifier)], p + 1)
                } else if is_ctrl_at(toks, p + 2, ';') {
                    (
                        Some((EntryModel::Delete(toks[p + 1].0->Ident_0), p + 3)),
                        Seq::empty(),
                        p + 3,
                    )
                } else {
                    (None, seq![diag_at(toks, p + 2, eof, Expected::Semicolon)], p + 2)
                }
            },
            TokenModel::Ident(name) => {
                if is_ctrl_at(toks, p + 1, '=') {
                    match scalar_value(if p + 2 < toks.len() {
                        toks[p + 2].0
                    } else {
                        TokenModel::Class
                    }) {
                        Some(v) => {
                            if is_ctrl_at(toks, p + 3, ';') {
                                (
                                    Some((EntryModel::Property(name, v), p + 4)),
                                    Seq::empty(),
                                    p + 4,
                                )
                            } else {
                                (None, seq![diag_at(toks, p + 3, eof, Expected::Semicolon)], p + 3)
                            }
                        },
                        None => (None, seq![diag_at(toks, p + 2, eof, Expected::Value)], p + 2),
                    }
                } else if is_ctrl_at(toks, p + 1, '[') {
                    if !is_ctrl_at(toks, p + 2, ']') {
                        (None, seq![diag_at(toks, p + 2, eof, Expected::RBracket)], p + 2)
                    } else if !is_ctrl_at(toks, p + 3, '=') {
                        (None, seq![diag_at(toks, p + 3, eof, Expected::Equals)], p + 3)
                    } else if !is_ctrl_at(toks, p + 4, '{') {
                        (None, seq![diag_at(toks, p + 4, eof, Expected::ValueOrArray)], p + 4)
                    } else {
                        match parse_array(toks, p + 4, eof) {
                            Ok((v, q)) => {
                                if is_ctrl_at(toks, q, ';') {
                                    (
                                        Some((EntryModel::Property(name, v), q + 1)),
                                        Seq::empty(),
                                        q + 1,
                                    )
                                } else {
                                    (None, seq![diag_at(toks, q, eof, Expected::Semicolon)], q)
                                }
                            },
                            Err((d, fp)) => (None, seq![d], fp),
                        }
                    }
                } else {
                    (None, seq![diag_at(toks, p + 1, eof, Expected::EqualsOrLBracket)], p + 1)
                }
            },
            _ => (None, seq![diag_at(toks, p, eof, Expected::Entry)], p),
        }
    }
}

/// The body of a class definition whose header ends just before the opening
/// brace at `brace`: the entries inside the braces, then the closing brace
/// and semicolon. `start` is where the definition began.
pub open spec fn parse_class_body(toks: Seq<TokSpan>, start: int, brace: int, eof: int, name: Seq<char>, parent: Option<Seq<char>>) -> (Option<(EntryModel, int)>, Seq<Diag>, int)
    decreases toks.len() - start, 0int,
{
    if !(start < brace && 0 <= start && is_ctrl_at(toks, brace, '{')) {
        (None, seq![diag_at(toks, brace, eof, Expected::LBrace)], brace)
    } else {
        let body = parse_entries(toks, brace + 1, eof, true);
        let q = body.2;
        if is_ctrl_at(toks, q, '}') {
            if is_ctrl_at(toks, q + 1, ';') {
                (Some((EntryModel::Class(name, parent, body.0), q + 2)), body.1, q + 2)
            } else {
                (None, body.1 + seq![diag_at(toks, q + 1, eof, Expected::Semicolon)], q + 1)
            }
        } else {
            (None, body.1 + seq![diag_at(toks, q, eof, Expected::CommaOrRBrace)], q)
        }
    }
}

/// The first token index after a semicolon at or after `p`, where scanning
/// for recovery stops; inside a class body a closing brace also stops it,
/// unconsumed.
pub open spec fn sync(toks: Seq<TokSpan>, p: int, in_body: bool) -> int
    decreases toks.len() - p,
{
    if !(0 <= p < toks.len()) {
        toks.len() as int
    } else if toks[p].0 == TokenModel::Ctrl(';') {
        p + 1
    } else if in_body && toks[p].0 == TokenModel::Ctrl('}') {
        p
    } else {
        sync(toks, p + 1, in_body)
    }
}

/// A run of entries from `p`, recovering from a failed entry by reporting
/// its diagnostics and skipping to the next semicolon. With `in_body` the
/// run stops at a closing brace, left for the caller.
pub open spec fn parse_entries(toks: Seq<TokSpan>, p: int, eof: int, in_body: bool) -> (Seq<EntryModel>, Seq<Diag>, int)
    decreases toks.len() - p, 4int,
{
    if !(0 <= p < toks.len()) {
        (Seq::empty(), Seq::empty(), if p < 0 {
            0
        } else if p > toks.len() {
            toks.len() as int
        } else {
            p
        })
    } else if in_body && toks[p].0 == TokenModel::Ctrl('}') {
        (Seq::empty(), Seq::empty(), p)
    } else {
        let one = parse_entry(toks, p, eof);
        match one.0 {
            Some((e, q)) => {
                if p < q <= toks.len() {
                    let rest = parse_entries(toks, q, eof, in_body);
                    (seq![e] + rest.0, one.1 + rest.1, rest.2)
                } else {
                    (seq![e], one.1, p)
                }
            },
            None => {
                let fp = one.2;
                let q = sync(toks, if fp < p {
                    p
                } else {
                    fp
                }, in_body);
                if p < q <= toks.len() {
                    let rest = parse_entries(toks, q, eof, in_body);
                    (rest.0, one.1 + rest.1, rest.2)
                } else {
                    (Seq::empty(), one.1, if 0 <= q <= toks.len() {
                        q
                    } else {
                        p
                    })
                }
            },
        }
    }
}

/// The whole text as a document body: its entries when no diagnostic was
/// collected by the lexer or the parser, otherwise every diagnostic.
pub open spec fn parse_text(s: Seq<char>) -> Result<Seq<EntryModel>, Seq<Diag>> {
    let lexed = lex_at(s, 0);
    let parsed = parse_entries(lexed.0, 0, s.len() as int, false);
    if lexed.1.len() + parsed.1.len() == 0 {
        Ok(parsed.0)
    } else {
        Err(lexed.1 + parsed.1)
    }
}


/// The value of one scalar token.
fn scalar_value_x(t: &Token) -> (r: Option<CfgValue>)
    ensures
        match r {
            Some(v) => scalar_value(t.model()) == Some(v.model()),
            None => scalar_value(t.model()) is None,
        },
{
    match t {
        Token::Num(txt) => {
            let cs = str_to_chars(txt.as_str());
            Some(numeric_value(&cs))
        },
        Token::Str(sv) => Some(CfgValue::String(sv.clone())),
        _ => None,
    }
}

fn diag_at_x(toks: &Vec<STok>, p: usize, eof: usize, exp: Expected) -> (r: Diag)
    ensures
        r == diag_at(toks_model(toks@), p as int, eof as int, exp),
{
    if p < toks.len() {
        let found = match &toks[p].tok {
            Token::Num(_) => Found::NumToken,
            Token::Str(_) => Found::StrToken,
            Token::Ctrl(c) => Found::CtrlToken(*c),
            Token::Ident(_) => Found::IdentToken,
            Token::Class => Found::ClassToken,
            Token::Delete => Found::DeleteToken,
        };
        proof {
            assert(toks_model(toks@)[p as int] == toks@[p as int].model());
        }
        Diag { lo: toks[p].lo, hi: toks[p].hi, expected: exp, found }
    } else {
        Diag { lo: eof, hi: eof, expected: exp, found: Found::End }
    }
}

fn is_ctrl_at_x(toks: &Vec<STok>, p: usize, c: char) -> (r: bool)
    ensures
        r == is_ctrl_at(toks_model(toks@), p as int, c),
{
    if p < toks.len() {
        proof {
            assert(toks_model(toks@)[p as int] == toks@[p as int].model());
        }
        match &toks[p].tok {
            Token::Ctrl(d) => *d == c,
            _ => false,
        }
    } else {
        false
    }
}

/// An array literal at `p`.
#[verifier::loop_isolation(false)]
fn parse_array_x(toks: &Vec<STok>, p: usize, eof: usize) -> (r: Result<(CfgValue, usize), (Diag, usize)>)
    ensures
        match r {
            Ok((v, q)) => parse_array(toks_model(toks@), p as int, eof as int) == Ok::<
                (ValueModel, int),
                (Diag, int),
            >((v.model(), q as int)) && p < q <= toks@.len(),
            Err((d, fp)) => parse_array(toks_model(toks@), p as int, eof as int) == Err::<
                (ValueModel, int),
                (Diag, int),
            >((d, fp as int)),
        },
    decreases toks@.len() - p, 2int,
{
    let ghost tm = toks_model(toks@);
    if !(p < toks.len()) {
        return Err((diag_at_x(toks, p, eof, Expected::ValueOrArray), p));
    }
    let mut cur: usize = p + 1;
    let mut acc: Vec<CfgValue> = Vec::new();
    proof {
        assert(values_model(acc@) =~= Seq::<ValueModel>::empty());
    }
    while cur <= toks.len()
        invariant
            p < cur <= toks@.len(),
            parse_array_elems(tm, p + 1, eof as int, Seq::empty()) == parse_array_elems(
                tm,
                cur as int,
                eof as int,
                values_model(acc@),
            ),
        decreases toks@.len() - cur,
    {
        if !(cur < toks.len()) {
            return Err((diag_at_x(toks, cur, eof, Expected::ValueOrArray), cur));
        }
        proof {
            assert(tm[cur as int] == toks@[cur as int].model());
        }
        if is_ctrl_at_x(toks, cur, '}') {
            let ghost ga = acc@;
            let rv = CfgValue::Array(acc);
            proof {
                assert(rv.model() is Array);
                assert(rv.model()->Array_0 =~= values_model(ga));
                assert(rv.model() =~~= ValueModel::Array(values_model(ga)));
            }
            return Ok((rv, cur + 1));
        }
        let elem: Result<(CfgValue, usize), (Diag, usize)> = if is_ctrl_at_x(toks, cur, '{') {
            parse_array_x(toks, cur, eof)
        } else {
            match scalar_value_x(&toks[cur].tok) {
                Some(v) => Ok((v, cur + 1)),
                None => Err((diag_at_x(toks, cur, eof, Expected::ValueOrArray), cur)),
            }
        };
        match elem {
            Ok((v, q)) => {
                if is_ctrl_at_x(toks, q, ',') {
                    let ghost oa = acc@;
                    acc.push(v);
                    proof {
                        assert(values_model(acc@) =~= values_model(oa).push(v.model()));
                    }
                    cur = q + 1;
                } else if is_ctrl_at_x(toks, q, '}') {
                    let ghost oa = acc@;
                    acc.push(v);
                    let ghost ga = acc@;
                    proof {
                        assert(values_model(ga) =~= values_model(oa).push(v.model()));
                    }
                    let rv = CfgValue::Array(acc);
                    proof {
                        assert(rv.model() is Array);
                        assert(rv.model()->Array_0 =~= values_model(ga));
                        assert(rv.model() =~~= ValueModel::Array(values_model(ga)));
                    }
                    return Ok((rv, q + 1));
                } else {
                    return Err((diag_at_x(toks, q, eof, Expected::CommaOrRBrace), q));
                }
            },
            Err((d, fp)) => {
                return Err((d, fp));
            },
        }
    }
    proof {
        assert(false);
    }
    Err((diag_at_x(toks, p, eof, Expected::ValueOrArray), p))
}

/// The first recovery point at or after `p`.
#[verifier::loop_isolation(false)]
fn sync_x(toks: &Vec<STok>, p: usize, in_body: bool) -> (r: usize)
    requires
        p <= toks@.len(),
    ensures
        r as int == sync(toks_model(toks@), p as int, in_body),
        p <= r <= toks@.len(),
{
    let ghost tm = toks_model(toks@);
    let mut j = p;
    while j < toks.len()
        invariant
            p <= j <= toks@.len(),
            sync(tm, p as int, in_body) == sync(tm, j as int, in_body),
        decreases toks@.len() - j,
    {
        proof {
            assert(tm[j as int] == toks@[j as int].model());
        }
        match &toks[j].tok {
            Token::Ctrl(c) => {
                if *c == ';' {
                    return j + 1;
                }
                if in_body && *c == '}' {
                    return j;
                }
            },
            _ => {},
        }
        j += 1;
    }
    j
}

/// One entry at `p`.
#[verifier::loop_isolation(false)]
#[verifier::rlimit(60)]
fn parse_entry_x(toks: &Vec<STok>, p: usize, eof: usize) -> (r: (Option<(CfgEntry, usize)>, Vec<Diag>, usize))
    ensures
        ({
            let spec = parse_entry(toks_model(toks@), p as int, eof as int);
            &&& match r.0 {
                Some((e, q)) => spec.0 == Some((e.model(), q as int)) && p < q <= toks@.len(),
                None => spec.0 is None,
            }
            &&& r.1@ == spec.1
            &&& r.2 as int == spec.2
        }),
    decreases toks@.len() - p, 1int,
{
    let ghost tm = toks_model(toks@);
    if !(p < toks.len()) {
        return (None, vec![diag_at_x(toks, p, eof, Expected::Entry)], p);
    }
    proof {
        assert(tm[p as int] == toks@[p as int].model());
        if p + 1 < toks@.len() {
            assert(tm[p + 1] == toks@[p + 1].model());
        }
        if p + 2 < toks@.len() {
            assert(tm[p + 2] == toks@[p + 2].model());
        }
        if p + 3 < toks@.len() {
            assert(tm[p + 3] == toks@[p + 3].model());
        }
    }
    match &toks[p].tok {
        Token::Class => {
            let ok_ident = p + 1 < toks.len() && matches!(&toks[p + 1].tok, Token::Ident(_));
            if !ok_ident {
                return (None, vec![diag_at_x(toks, p + 1, eof, Expected::Identifier)], p + 1);
            }
            let name: String = match &toks[p + 1].tok {
                Token::Ident(n) => n.clone(),
                _ => {
                    proof {
                        assert(false);
                    }
                    String::new()
                },
            };
            if is_ctrl_at_x(toks, p + 2, ';') {
                (Some((CfgEntry::Extern(name), p + 3)), Vec::new(), p + 3)
            } else if is_ctrl_at_x(toks, p + 2, ':') {
                let ok_parent = p + 3 < toks.len() && matches!(&toks[p + 3].tok, Token::Ident(_));
                if !ok_parent {
                    return (None, vec![diag_at_x(toks, p + 3, eof, Expected::Identifier)], p + 3);
                }
                if !is_ctrl_at_x(toks, p + 4, '{') {
                    return (None, vec![diag_at_x(toks, p + 4, eof, Expected::LBrace)], p + 4);
                }
                let parent: String = match &toks[p + 3].tok {
                    Token::Ident(n) => n.clone(),
                    _ => {
                        proof {
                            assert(false);
                        }
                        String::new()
                    },
                };
                parse_class_body_x(toks, p, p + 4, eof, name, Some(parent))
            } else if is_ctrl_at_x(toks, p + 2, '{') {
                parse_class_body_x(toks, p, p + 2, eof, name, None)
            } else {
                (None, vec![diag_at_x(toks, p + 2, eof, Expected::ClassBodyOrSemicolon)], p + 2)
            }
        },
        Token::Delete => {
            let ok_ident = p + 1 < toks.len() && matches!(&toks[p + 1].tok, Token::Ident(_));
            if !ok_ident {
                return (None, vec![diag_at_x(toks, p + 1, eof, Expected::Identifier)], p + 1);
            }
            if is_ctrl_at_x(toks, p + 2, ';') {
                let name: String = match &toks[p + 1].tok {
                    Token::Ident(n) => n.clone(),
                    _ => {
                        proof {
                            assert(false);
                        }
                        String::new()
                    },
                };
                (Some((CfgEntry::Delete(name), p + 3)), Vec::new(), p + 3)
            } else {
                (None, vec![diag_at_x(toks, p + 2, eof, Expected::Semicolon)], p + 2)
            }
        },
        Token::Ident(name0) => {
            let name: String = name0.clone();
            if is_ctrl_at_x(toks, p + 1, '=') {
                if !(p + 2 < toks.len()) {
                    return (None, vec![diag_at_x(toks, p + 2, eof, Expected::Value)], p + 2);
                }
                match scalar_value_x(&toks[p + 2].tok) {
                    Some(v) => {
                        if is_ctrl_at_x(toks, p + 3, ';') {
                            (
                                Some(
                                    (
                                        CfgEntry::Property(CfgProperty { name, value: v }),
                                        p + 4,
                                    ),
                                ),
                                Vec::new(),
                                p + 4,
                            )
                        } else {
                            (None, vec![diag_at_x(toks, p + 3, eof, Expected::Semicolon)], p + 3)
                        }
                    },
                    None => (None, vec![diag_at_x(toks, p + 2, eof, Expected::Value)], p + 2),
                }
            } else if is_ctrl_at_x(toks, p + 1, '[') {
                if !is_ctrl_at_x(toks, p + 2, ']') {
                    return (None, vec![diag_at_x(toks, p + 2, eof, Expected::RBracket)], p + 2);
                }
                if !is_ctrl_at_x(toks, p + 3, '=') {
                    return (None, vec![diag_at_x(toks, p + 3, eof, Expected::Equals)], p + 3);
                }
                if !is_ctrl_at_x(toks, p + 4, '{') {
                    return (
                        None,
                        vec![diag_at_x(toks, p + 4, eof, Expected::ValueOrArray)],
                        p + 4,
                    );
                }
                match parse_array_x(toks, p + 4, eof) {
                    Ok((v, q)) => {
                        if is_ctrl_at_x(toks, q, ';') {
                            (
                                Some(
                                    (CfgEntry::Property(CfgProperty { name, value: v }), q + 1),
                                ),
                                Vec::new(),
                                q + 1,
                            )
                        } else {
                            (None, vec![diag_at_x(toks, q, eof, Expected::Semicolon)], q)
                        }
                    },
                    Err((d, fp)) => (None, vec![d], fp),
                }
            } else {
                (None, vec![diag_at_x(toks, p + 1, eof, Expected::EqualsOrLBracket)], p + 1)
            }
        },
        _ => (None, vec![diag_at_x(toks, p, eof, Expected::Entry)], p),
    }
}

/// The braced body of a class definition plus its closing semicolon.
#[verifier::loop_isolation(false)]
fn parse_class_body_x(toks: &Vec<STok>, start: usize, brace: usize, eof: usize, name: String, parent: Option<String>) -> (r: (Option<(CfgEntry, usize)>, Vec<Diag>, usize))
    requires
        start < brace,
    ensures
        ({
            let spec = parse_class_body(
                toks_model(toks@),
                start as int,
                brace as int,
                eof as int,
                name@,
                match parent {
                    Some(pn) => Some(pn@),
                    None => None,
                },
            );
            &&& match r.0 {
                Some((e, q)) => spec.0 == Some((e.model(), q as int)) && start < q <= toks@.len(),
                None => spec.0 is None,
            }
            &&& r.1@ == spec.1
            &&& r.2 as int == spec.2
        }),
    decreases toks@.len() - start, 0int,
{
    let ghost tm = toks_model(toks@);
    let n = toks.len();
    if !is_ctrl_at_x(toks, brace, '{') {
        return (None, vec![diag_at_x(toks, brace, eof, Expected::LBrace)], brace);
    }
    proof {
        assert(brace < n);
    }
    let body = parse_entries_x(toks, brace + 1, eof, true);
    let es = body.0;
    let mut ds = body.1;
    let q = body.2;
    if is_ctrl_at_x(toks, q, '}') {
        if is_ctrl_at_x(toks, q + 1, ';') {
            let cls = CfgEntry::Class(CfgClass { name, parent, entries: es });
            proof {
                assert(cls.model() is Class);
                assert(cls.model()->Class_2 =~= entries_model(es@));
                assert(cls.model() =~~= EntryModel::Class(
                    cls->Class_0.name@,
                    match cls->Class_0.parent {
                        Some(pn) => Some(pn@),
                        None => None,
                    },
                    entries_model(es@),
                ));
            }
            (Some((cls, q + 2)), ds, q + 2)
        } else {
            let d = diag_at_x(toks, q + 1, eof, Expected::Semicolon);
            let ghost od = ds@;
            ds.push(d);
            proof {
                assert(ds@ =~= od + seq![d]);
            }
            (None, ds, q + 1)
        }
    } else {
        let d = diag_at_x(toks, q, eof, Expected::CommaOrRBrace);
        let ghost od = ds@;
        ds.push(d);
        proof {
            assert(ds@ =~= od + seq![d]);
        }
        (None, ds, q)
    }
}

/// A run of entries from `p`, with recovery.
#[verifier::loop_isolation(false)]
#[verifier::rlimit(60)]
pub fn parse_entries_x(toks: &Vec<STok>, p: usize, eof: usize, in_body: bool) -> (r: (
    Vec<CfgEntry>,
    Vec<Diag>,
    usize,
))
    requires
        p <= toks@.len(),
    ensures
        ({
            let spec = parse_entries(toks_model(toks@), p as int, eof as int, in_body);
            &&& entries_model(r.0@) == spec.0
            &&& r.1@ == spec.1
            &&& r.2 as int == spec.2
            &&& p <= r.2 <= toks@.len()
        }),
    decreases toks@.len() - p, 4int,
{
    let ghost tm = toks_model(toks@);
    let mut es: Vec<CfgEntry> = Vec::new();
    let mut ds: Vec<Diag> = Vec::new();
    let mut cur: usize = p;
    proof {
        assert(entries_model(es@) + parse_entries(tm, p as int, eof as int, in_body).0
            =~= parse_entries(tm, p as int, eof as int, in_body).0);
        assert(ds@ + parse_entries(tm, p as int, eof as int, in_body).1 =~= parse_entries(
            tm,
            p as int,
            eof as int,
            in_body,
        ).1);
    }
    while cur < toks.len()
        invariant
            p <= cur <= toks@.len(),
            parse_entries(tm, p as int, eof as int, in_body).0 == entries_model(es@)
                + parse_entries(tm, cur as int, eof as int, in_body).0,
            parse_entries(tm, p as int, eof as int, in_body).1 == ds@ + parse_entries(
                tm,
                cur as int,
                eof as int,
                in_body,
            ).1,
            parse_entries(tm, p as int, eof as int, in_body).2 == parse_entries(
                tm,
                cur as int,
                eof as int,
                in_body,
            ).2,
        decreases toks@.len() - cur,
    {
        proof {
            assert(tm[cur as int] == toks@[cur as int].model());
        }
        if in_body && is_ctrl_at_x(toks, cur, '}') {
            proof {
                assert(entries_model(es@) + Seq::<EntryModel>::empty() =~= entries_model(es@));
                assert(ds@ + Seq::<Diag>::empty() =~= ds@);
            }
            return (es, ds, cur);
        }
        let one = parse_entry_x(toks, cur, eof);
        match one.0 {
            Some((e, q)) => {
                let ghost oes = es@;
                let ghost ods = ds@;
                es.push(e);
                let mut nds = one.1;
                append_diags(&mut ds, &nds);
                proof {
                    assert(entries_model(es@) =~= entries_model(oes).push(e.model()));
                    assert(entries_model(oes).push(e.model()) + parse_entries(
                        tm,
                        q as int,
                        eof as int,
                        in_body,
                    ).0 =~= entries_model(oes) + (seq![e.model()] + parse_entries(
                        tm,
                        q as int,
                        eof as int,
                        in_body,
                    ).0));
                    assert((ods + nds@) + parse_entries(tm, q as int, eof as int, in_body).1
                        =~= ods + (nds@ + parse_entries(tm, q as int, eof as int, in_body).1));
                }
                cur = q;
            },
            None => {
                let fp = one.2;
                let start = if fp < cur {
                    cur
                } else {
                    fp
                };
                let sp = if start > toks.len() {
                    toks.len()
                } else {
                    start
                };
                let q = sync_x(toks, sp, in_body);
                let nds = one.1;
                let ghost ods = ds@;
                append_diags(&mut ds, &nds);
                if q > cur {
                    proof {
                        assert((ods + nds@) + parse_entries(tm, q as int, eof as int, in_body).1
                            =~= ods + (nds@ + parse_entries(tm, q as int, eof as int, in_body).1));
                    }
                    cur = q;
                } else {
                    proof {
                        assert(entries_model(es@) + Seq::<EntryModel>::empty() =~= entries_model(
                            es@,
                        ));
                        assert(ods + nds@ =~= ds@);
                    }
                    return (es, ds, q);
                }
            },
        }
    }
    proof {
        assert(entries_model(es@) + Seq::<EntryModel>::empty() =~= entries_model(es@));
        assert(ds@ + Seq::<Diag>::empty() =~= ds@);
    }
    (es, ds, cur)
}

fn append_diags(a: &mut Vec<Diag>, b: &Vec<Diag>)
    ensures
        final(a)@ == old(a)@ + b@,
{
    let mut k: usize = 0;
    while k < b.len()
        invariant
            k <= b@.len(),
            a@ == old(a)@ + b@.subrange(0, k as int),
        decreases b@.len() - k,
    {
        let d = b[k];
        a.push(d);
        proof {
            assert(old(a)@ + b@.subrange(0, k as int) + seq![b@[k as int]] =~= old(a)@
                + b@.subrange(0, k + 1));
        }
        k += 1;
    }
    proof {
        assert(old(a)@ + b@.subrange(0, b@.len() as int) =~= old(a)@ + b@);
    }
}

/// Parses a whole text into its entries, or every diagnostic collected.
pub fn parse_text_x(s: &Vec<char>) -> (r: Result<Vec<CfgEntry>, Vec<Diag>>)
    ensures
        match r {
            Ok(es) => parse_text(s@) == Ok::<Seq<EntryModel>, Seq<Diag>>(entries_model(es@)),
            Err(ds) => parse_text(s@) == Err::<Seq<EntryModel>, Seq<Diag>>(ds@),
        },
{
    let (toks, lexdiags) = tokenize(s);
    let parsed = parse_entries_x(&toks, 0, s.len(), false);
    if lexdiags.len() == 0 && parsed.1.len() == 0 {
        proof {
            assert(lexdiags@ + parsed.1@ =~= Seq::<Diag>::empty());
        }
        Ok(parsed.0)
    } else {
        let mut all = lexdiags;
        append_diags(&mut all, &parsed.1);
        Err(all)
    }
}


/// A failed text decode always carries at least one diagnostic, and a
/// successful one was reached with none: the error aggregates everything
/// the lexer and the parser collected.
pub proof fn lemma_parse_error_nonempty(s: Seq<char>)
    ensures
        parse_text(s) is Err ==> parse_text(s)->Err_0.len() >= 1,
        parse_text(s) is Ok ==> lex_at(s, 0).1.len() == 0 && parse_entries(
            lex_at(s, 0).0,
            0,
            s.len() as int,
            false,
        ).1.len() == 0,
{
}

} // verus!
