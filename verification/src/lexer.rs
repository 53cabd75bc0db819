use vstd::prelude::*;

use crate::diag::{Diag, Expected, Found};
use crate::num::{digits_end, is_digit};
use crate::textutil::chars_to_string;

verus! {

broadcast use vstd::std_specs::vec::group_vec_axioms, vstd::seq::group_seq_axioms;

/// One lexical token. Numeric text is kept raw; its value is decided by the
/// parser.
#[derive(Debug, PartialEq)]
pub enum Token {
    Num(String),
    Str(String),
    Ctrl(char),
    Ident(String),
    Class,
    Delete,
}

/// Mathematical model of a `Token`.
#[verifier::ext_equal]
pub enum TokenModel {
    Num(Seq<char>),
    Str(Seq<char>),
    Ctrl(char),
    Ident(Seq<char>),
    Class,
    Delete,
}

impl Token {
    pub open spec fn model(self) -> TokenModel {
        match self {
            Token::Num(s) => TokenModel::Num(s@),
            Token::Str(s) => TokenModel::Str(s@),
            Token::Ctrl(c) => TokenModel::Ctrl(c),
            Token::Ident(s) => TokenModel::Ident(s@),
            Token::Class => TokenModel::Class,
            Token::Delete => TokenModel::Delete,
        }
    }
}

/// A token with its half-open source span.
#[derive(Debug, PartialEq)]
pub struct STok {
    pub tok: Token,
    pub lo: usize,
    pub hi: usize,
}

impl STok {
    pub open spec fn model(self) -> (TokenModel, int, int) {
        (self.tok.model(), self.lo as int, self.hi as int)
    }
}

pub open spec fn toks_model(ts: Seq<STok>) -> Seq<(TokenModel, int, int)> {
    Seq::new(ts.len(), |i: int| if 0 <= i < ts.len() {
        ts[i].model()
    } else {
        (TokenModel::Class, 0int, 0int)
    })
}

pub open spec fn is_ws(c: char) -> bool {
    c == ' ' || c == '\t' || c == '\r' || c == '\n'
}

pub open spec fn ws_end(s: Seq<char>, i: int) -> int
    decreases s.len() - i,
{
    if 0 <= i < s.len() && is_ws(s[i]) {
        ws_end(s, i + 1)
    } else {
        i
    }
}

/// Index just past the newline ending a line comment, or the input's end.
pub open spec fn skip_line(s: Seq<char>, i: int) -> int
    decreases s.len() - i,
{
    if !(0 <= i < s.len()) {
        s.len() as int
    } else if s[i] == '\n' {
        i + 1
    } else {
        skip_line(s, i + 1)
    }
}

/// Index just past the closing marker of a block comment, or -1 if it never
/// closes.
pub open spec fn bc_end(s: Seq<char>, i: int) -> int
    decreases s.len() - i,
{
    if !(0 <= i && i + 1 < s.len()) {
        -1
    } else if s[i] == '*' && s[i + 1] == '/' {
        i + 2
    } else {
        bc_end(s, i + 1)
    }
}

/// The body of a string literal from just after its opening quote: a
/// doubled quote stands for one quote character; a lone quote closes; an
/// unclosed literal gives nothing.
pub open spec fn scan_string(s: Seq<char>, i: int, acc: Seq<char>) -> Option<(Seq<char>, int)>
    decreases s.len() - i,
{
    if !(0 <= i < s.len()) {
        None
    } else if s[i] == '"' {
        if i + 1 < s.len() && s[i + 1] == '"' {
            scan_string(s, i + 2, acc.push('"'))
        } else {
            Some((acc, i + 1))
        }
    } else {
        scan_string(s, i + 1, acc.push(s[i]))
    }
}

/// String concatenation: after a closed string, a backslash-n separator
/// surrounded by whitespace followed by another closed string joins the two
/// with a newline, repeatedly; anything else leaves the position alone.
pub open spec fn chain(s: Seq<char>, j: int, acc: Seq<char>) -> (Seq<char>, int)
    decreases s.len() - j,
{
    if !(0 <= j <= s.len()) {
        (acc, j)
    } else {
        let k = ws_end(s, j);
        if k + 1 < s.len() && s[k] == '\\' && s[k + 1] == 'n' {
            let m = ws_end(s, k + 2);
            if m < s.len() && s[m] == '"' {
                match scan_string(s, m + 1, Seq::empty()) {
                    Some((c2, j2)) => {
                        if j2 > j && j2 <= s.len() {
                            chain(s, j2, acc.push('\n') + c2)
                        } else {
                            (acc, j)
                        }
                    },
                    None => (acc, j),
                }
            } else {
                (acc, j)
            }
        } else {
            (acc, j)
        }
    }
}

/// End of a numeric literal starting at `i`: an optional minus sign, the
/// integer digits, a fraction only when a digit follows the point, and an
/// exponent only when a digit follows the marker and optional sign.
pub open spec fn num_end(s: Seq<char>, i: int) -> int {
    let ds: int = if 0 <= i < s.len() && s[i] == '-' {
        i + 1
    } else {
        i
    };
    let ie = digits_end(s, ds);
    let fe: int = if ie + 1 < s.len() && s[ie] == '.' && is_digit(s[ie + 1]) {
        digits_end(s, ie + 1)
    } else {
        ie
    };
    if fe < s.len() && (s[fe] == 'e' || s[fe] == 'E') {
        let es: int = if fe + 1 < s.len() && (s[fe + 1] == '+' || s[fe + 1] == '-') {
            fe + 2
        } else {
            fe + 1
        };
        if es < s.len() && is_digit(s[es]) {
            digits_end(s, es)
        } else {
            fe
        }
    } else {
        fe
    }
}

pub open spec fn is_ident_start(c: char) -> bool {
    (65 <= c as u32 <= 90) || (97 <= c as u32 <= 122) || c == '_'
}

pub open spec fn is_ident_cont(c: char) -> bool {
    is_ident_start(c) || is_digit(c)
}

pub open spec fn ident_end(s: Seq<char>, i: int) -> int
    decreases s.len() - i,
{
    if 0 <= i < s.len() && is_ident_cont(s[i]) {
        ident_end(s, i + 1)
    } else {
        i
    }
}

pub open spec fn is_ctrl(c: char) -> bool {
    c == '[' || c == ']' || c == '{' || c == '}' || c == ';' || c == ',' || c == ':' || c == '='
}

pub open spec fn keyword_of(w: Seq<char>) -> TokenModel {
    if w == seq!['c', 'l', 'a', 's', 's'] {
        TokenModel::Class
    } else if w == seq!['d', 'e', 'l', 'e', 't', 'e'] {
        TokenModel::Delete
    } else {
        TokenModel::Ident(w)
    }
}

/// The token stream and diagnostics of the text from position `i` on.
///
/// Whitespace and both comment kinds are skipped between tokens; an
/// unrecognized character is skipped with a diagnostic and lexing resumes;
/// an unclosed string or block comment ends the scan with a diagnostic.
pub open spec fn lex_at(s: Seq<char>, i: int) -> (Seq<(TokenModel, int, int)>, Seq<Diag>)
    decreases s.len() - i,
{
    if !(0 <= i < s.len()) {
        (Seq::empty(), Seq::empty())
    } else {
        let c = s[i];
        if is_ws(c) {
            lex_at(s, i + 1)
        } else if c == '/' && i + 1 < s.len() && s[i + 1] == '/' {
            let e = skip_line(s, i + 2);
            if e > i && e <= s.len() {
                lex_at(s, e)
            } else {
                (Seq::empty(), Seq::empty())
            }
        } else if c == '/' && i + 1 < s.len() && s[i + 1] == '*' {
            let e = bc_end(s, i + 2);
            if e > i && e <= s.len() {
                lex_at(s, e)
            } else {
                (
                    Seq::empty(),
                    seq![
                        Diag {
                            lo: i as usize,
                            hi: s.len() as usize,
                            expected: Expected::CommentEnd,
                            found: Found::End,
                        },
                    ],
                )
            }
        } else if c == '"' {
            match scan_string(s, i + 1, Seq::empty()) {
                Some((c1, j)) => {
                    let ch = chain(s, j, c1);
                    if ch.1 > i && ch.1 <= s.len() {
                        let rest = lex_at(s, ch.1);
                        (
                            seq![(TokenModel::Str(ch.0), i, ch.1)] + rest.0,
                            rest.1,
                        )
                    } else {
                        (Seq::empty(), Seq::empty())
                    }
                },
                None => (
                    Seq::empty(),
                    seq![
                        Diag {
                            lo: i as usize,
                            hi: s.len() as usize,
                            expected: Expected::StringEnd,
                            found: Found::End,
                        },
                    ],
                ),
            }
        } else if is_digit(c) || (c == '-' && i + 1 < s.len() && is_digit(s[i + 1])) {
            let e = num_end(s, i);
            if e > i && e <= s.len() {
                let rest = lex_at(s, e);
                (seq![(TokenModel::Num(s.subrange(i, e)), i, e)] + rest.0, rest.1)
            } else {
                (Seq::empty(), Seq::empty())
            }
        } else if is_ctrl(c) {
            let rest = lex_at(s, i + 1);
            (seq![(TokenModel::Ctrl(c), i, i + 1)] + rest.0, rest.1)
        } else if is_ident_start(c) {
            let e = ident_end(s, i + 1);
            if e > i && e <= s.len() {
                let rest = lex_at(s, e);
                (seq![(keyword_of(s.subrange(i, e)), i, e)] + rest.0, rest.1)
            } else {
                (Seq::empty(), Seq::empty())
            }
        } else {
            let rest = lex_at(s, i + 1);
            (
                rest.0,
                seq![
                    Diag {
                        lo: i as usize,
                        hi: (i + 1) as usize,
                        expected: Expected::Token,
                        found: Found::Character(c),
                    },
                ] + rest.1,
            )
        }
    }
}



proof fn lemma_push_concat<T>(a: Seq<T>, x: T, rest: Seq<T>)
    ensures
        a.push(x) + rest == a + (seq![x] + rest),
{
    assert(a.push(x) + rest =~= a + (seq![x] + rest));
}

proof fn lemma_digits_end_ge(s: Seq<char>, i: int)
    ensures
        digits_end(s, i) >= i,
    decreases s.len() - i,
{
    if 0 <= i < s.len() && is_digit(s[i]) {
        lemma_digits_end_ge(s, i + 1);
    }
}

fn ws_end_x(s: &Vec<char>, i: usize) -> (r: usize)
    requires
        i <= s@.len(),
    ensures
        r as int == ws_end(s@, i as int),
        i <= r <= s@.len(),
{
    let mut j = i;
    while j < s.len() && (s[j] == ' ' || s[j] == '\t' || s[j] == '\r' || s[j] == '\n')
        invariant
            i <= j <= s@.len(),
            ws_end(s@, i as int) == ws_end(s@, j as int),
        decreases s@.len() - j,
    {
        j += 1;
    }
    j
}

fn skip_line_x(s: &Vec<char>, i: usize) -> (r: usize)
    requires
        i <= s@.len(),
    ensures
        r as int == skip_line(s@, i as int),
        i <= r <= s@.len(),
{
    let mut j = i;
    while j < s.len() && s[j] != '\n'
        invariant
            i <= j <= s@.len(),
            skip_line(s@, i as int) == skip_line(s@, j as int),
        decreases s@.len() - j,
    {
        j += 1;
    }
    if j < s.len() {
        j + 1
    } else {
        j
    }
}

fn bc_end_x(s: &Vec<char>, i: usize) -> (r: Option<usize>)
    requires
        i <= s@.len(),
    ensures
        match r {
            Some(e) => bc_end(s@, i as int) == e && i < e <= s@.len(),
            None => bc_end(s@, i as int) < 0,
        },
{
    let mut j = i;
    while j < s.len() && j + 1 < s.len() && !(s[j] == '*' && s[j + 1] == '/')
        invariant
            i <= j <= s@.len(),
            bc_end(s@, i as int) == bc_end(s@, j as int),
        decreases s@.len() - j,
    {
        j += 1;
    }
    if j < s.len() && j + 1 < s.len() {
        Some(j + 2)
    } else {
        None
    }
}

fn ident_end_x(s: &Vec<char>, i: usize) -> (r: usize)
    requires
        i <= s@.len(),
    ensures
        r as int == ident_end(s@, i as int),
        i <= r <= s@.len(),
{
    let mut j = i;
    while j < s.len() && ((65 <= s[j] as u32 && s[j] as u32 <= 90) || (97 <= s[j] as u32 && s[j]
        as u32 <= 122) || s[j] == '_' || (48 <= s[j] as u32 && s[j] as u32 <= 57))
        invariant
            i <= j <= s@.len(),
            ident_end(s@, i as int) == ident_end(s@, j as int),
        decreases s@.len() - j,
    {
        j += 1;
    }
    j
}

fn digits_end_lx(s: &Vec<char>, i: usize) -> (r: usize)
    requires
        i <= s@.len(),
    ensures
        r as int == digits_end(s@, i as int),
        i <= r <= s@.len(),
{
    let mut j = i;
    while j < s.len() && 48 <= s[j] as u32 && s[j] as u32 <= 57
        invariant
            i <= j <= s@.len(),
            digits_end(s@, i as int) == digits_end(s@, j as int),
        decreases s@.len() - j,
    {
        j += 1;
    }
    j
}

fn num_end_x(s: &Vec<char>, i: usize) -> (r: usize)
    requires
        i < s@.len(),
    ensures
        r as int == num_end(s@, i as int),
        i <= r <= s@.len(),
        is_digit(s@[i as int]) || (s@[i as int] == '-' && i + 1 < s@.len() && is_digit(
            s@[i + 1],
        )) ==> r > i,
{
    let n = s.len();
    proof {
        lemma_digits_end_ge(s@, i as int);
        lemma_digits_end_ge(s@, i + 1);
    }
    let ds: usize = if s[i] == '-' {
        i + 1
    } else {
        i
    };
    let ie = digits_end_lx(s, ds);
    proof {
        if ds < s@.len() && is_digit(s@[ds as int]) {
            assert(digits_end(s@, ds as int) == digits_end(s@, ds + 1));
            lemma_digits_end_ge(s@, ds + 1);
        }
    }
    let has_frac = ie < n && ie + 1 < n && s[ie] == '.' && 48 <= s[ie + 1] as u32 && s[ie
        + 1] as u32 <= 57;
    let fe: usize = if has_frac {
        digits_end_lx(s, ie + 1)
    } else {
        ie
    };
    if fe < n && (s[fe] == 'e' || s[fe] == 'E') {
        let has_sign = fe + 1 < n && (s[fe + 1] == '+' || s[fe + 1] == '-');
        let es: usize = if has_sign {
            fe + 2
        } else {
            fe + 1
        };
        if es < n && 48 <= s[es] as u32 && s[es] as u32 <= 57 {
            digits_end_lx(s, es)
        } else {
            fe
        }
    } else {
        fe
    }
}

fn scan_string_x(s: &Vec<char>, i: usize) -> (r: Option<(Vec<char>, usize)>)
    requires
        i <= s@.len(),
    ensures
        match r {
            Some((c, j)) => scan_string(s@, i as int, Seq::empty()) == Some((c@, j as int)) && i
                < j <= s@.len(),
            None => scan_string(s@, i as int, Seq::empty()) is None,
        },
{
    let mut j = i;
    let mut acc: Vec<char> = Vec::new();
    while j < s.len()
        invariant
            i <= j <= s@.len(),
            scan_string(s@, i as int, Seq::empty()) == scan_string(s@, j as int, acc@),
        decreases s@.len() - j,
    {
        if s[j] == '"' {
            if j + 1 < s.len() && s[j + 1] == '"' {
                acc.push('"');
                j += 2;
            } else {
                return Some((acc, j + 1));
            }
        } else {
            let c = s[j];
            acc.push(c);
            j += 1;
        }
    }
    None
}

fn extend_chars(a: &mut Vec<char>, b: &Vec<char>)
    ensures
        final(a)@ == old(a)@ + b@,
{
    let mut k: usize = 0;
    while k < b.len()
        invariant
            k <= b@.len(),
            a@ == old(a)@ + b@.subrange(0, k as int),
        decreases b@.len() - k,
    {
        let c = b[k];
        a.push(c);
        proof {
            assert(old(a)@ + b@.subrange(0, k as int) + seq![b@[k as int]] =~= old(a)@
                + b@.subrange(0, k + 1));
        }
        k += 1;
    }
    proof {
        assert(old(a)@ + b@.subrange(0, b@.len() as int) =~= old(a)@ + b@);
    }
}

fn chain_x(s: &Vec<char>, j: usize, acc: Vec<char>) -> (r: (Vec<char>, usize))
    requires
        j <= s@.len(),
    ensures
        (r.0@, r.1 as int) == chain(s@, j as int, acc@),
        j <= r.1 <= s@.len(),
{
    let mut cur = j;
    let mut a = acc;
    while cur <= s.len()
        invariant
            j <= cur <= s@.len(),
            chain(s@, j as int, acc@) == chain(s@, cur as int, a@),
        decreases s@.len() - cur,
    {
        let k = ws_end_x(s, cur);
        if k < s.len() && k + 1 < s.len() && s[k] == '\\' && s[k + 1] == 'n' {
            let m = ws_end_x(s, k + 2);
            if m < s.len() && s[m] == '"' {
                match scan_string_x(s, m + 1) {
                    Some((c2, j2)) => {
                        if j2 > cur {
                            a.push('\n');
                            extend_chars(&mut a, &c2);
                            cur = j2;
                        } else {
                            return (a, cur);
                        }
                    },
                    None => {
                        return (a, cur);
                    },
                }
            } else {
                return (a, cur);
            }
        } else {
            return (a, cur);
        }
    }
    proof {
        assert(false);
    }
    (a, cur)
}

fn slice_chars(s: &Vec<char>, i: usize, e: usize) -> (r: Vec<char>)
    requires
        i <= e <= s@.len(),
    ensures
        r@ == s@.subrange(i as int, e as int),
{
    let mut out: Vec<char> = Vec::new();
    let mut k = i;
    while k < e
        invariant
            i <= k <= e <= s@.len(),
            out@ == s@.subrange(i as int, k as int),
        decreases e - k,
    {
        let c = s[k];
        out.push(c);
        proof {
            assert(s@.subrange(i as int, k as int) + seq![s@[k as int]] =~= s@.subrange(
                i as int,
                k + 1,
            ));
        }
        k += 1;
    }
    out
}

fn keyword_token(v: Vec<char>) -> (t: Token)
    ensures
        t.model() == keyword_of(v@),
{
    if v.len() == 5 && v[0] == 'c' && v[1] == 'l' && v[2] == 'a' && v[3] == 's' && v[4] == 's' {
        proof {
            assert(v@ =~= seq!['c', 'l', 'a', 's', 's']);
        }
        Token::Class
    } else if v.len() == 6 && v[0] == 'd' && v[1] == 'e' && v[2] == 'l' && v[3] == 'e' && v[4]
        == 't' && v[5] == 'e' {
        proof {
            assert(v@ =~= seq!['d', 'e', 'l', 'e', 't', 'e']);
        }
        Token::Delete
    } else {
        proof {
            if v@ == seq!['c', 'l', 'a', 's', 's'] {
                assert(v@.len() == 5);
                assert(v@[0] == 'c' && v@[1] == 'l' && v@[2] == 'a' && v@[3] == 's' && v@[4]
                    == 's');
            }
            if v@ == seq!['d', 'e', 'l', 'e', 't', 'e'] {
                assert(v@.len() == 6);
                assert(v@[0] == 'd' && v@[1] == 'e' && v@[2] == 'l' && v@[3] == 'e' && v@[4] == 't'
                    && v@[5] == 'e');
            }
        }
        Token::Ident(chars_to_string(&v))
    }
}

/// Tokenizes the whole text, collecting tokens and diagnostics.
#[verifier::loop_isolation(false)]
#[verifier::rlimit(100)]
pub fn tokenize(s: &Vec<char>) -> (r: (Vec<STok>, Vec<Diag>))
    ensures
        toks_model(r.0@) == lex_at(s@, 0).0,
        r.1@ == lex_at(s@, 0).1,
{
    let mut toks: Vec<STok> = Vec::new();
    let mut diags: Vec<Diag> = Vec::new();
    let mut i: usize = 0;
    proof {
        assert(toks_model(toks@) + lex_at(s@, 0).0 =~= lex_at(s@, 0).0);
        assert(diags@ + lex_at(s@, 0).1 =~= lex_at(s@, 0).1);
    }
    while i < s.len()
        invariant
            i <= s@.len(),
            lex_at(s@, 0).0 == toks_model(toks@) + lex_at(s@, i as int).0,
            lex_at(s@, 0).1 == diags@ + lex_at(s@, i as int).1,
        decreases s@.len() - i,
    {
        let c = s[i];
        if c == ' ' || c == '\t' || c == '\r' || c == '\n' {
            i += 1;
        } else if c == '/' && i + 1 < s.len() && s[i + 1] == '/' {
            let e = skip_line_x(s, i + 2);
            i = e;
        } else if c == '/' && i + 1 < s.len() && s[i + 1] == '*' {
            match bc_end_x(s, i + 2) {
                Some(e) => {
                    i = e;
                },
                None => {
                    let d = Diag {
                        lo: i,
                        hi: s.len(),
                        expected: Expected::CommentEnd,
                        found: Found::End,
                    };
                    let ghost od = diags@;
                    diags.push(d);
                    proof {
                        assert(od + (seq![d] + lex_at(s@, s@.len() as int).1) =~= diags@ + lex_at(
                            s@,
                            s@.len() as int,
                        ).1);
                    }
                    i = s.len();
                },
            }
        } else if c == '"' {
            match scan_string_x(s, i + 1) {
                Some((c1, j)) => {
                    let ch = chain_x(s, j, c1);
                    let hi = ch.1;
                    let st = STok { tok: Token::Str(chars_to_string(&ch.0)), lo: i, hi };
                    let ghost ot = toks@;
                    toks.push(st);
                    proof {
                        assert(toks_model(ot) + (seq![st.model()] + lex_at(s@, hi as int).0)
                            =~= toks_model(toks@) + lex_at(s@, hi as int).0);
                    }
                    i = hi;
                },
                None => {
                    let d = Diag {
                        lo: i,
                        hi: s.len(),
                        expected: Expected::StringEnd,
                        found: Found::End,
                    };
                    let ghost od = diags@;
                    diags.push(d);
                    proof {
                        assert(od + (seq![d] + lex_at(s@, s@.len() as int).1) =~= diags@ + lex_at(
                            s@,
                            s@.len() as int,
                        ).1);
                    }
                    i = s.len();
                },
            }
        } else if (48 <= c as u32 && c as u32 <= 57) || (c == '-' && i + 1 < s.len() && 48 <= s[i
            + 1] as u32 && s[i + 1] as u32 <= 57) {
            let e = num_end_x(s, i);
            proof {
                lemma_digits_end_ge(s@, i as int);
                lemma_digits_end_ge(s@, i + 1);
                lemma_digits_end_ge(s@, i + 2);
            }
            let w = slice_chars(s, i, e);
            let st = STok { tok: Token::Num(chars_to_string(&w)), lo: i, hi: e };
            let ghost ot = toks@;
            toks.push(st);
            proof {
                assert(toks_model(ot) + (seq![st.model()] + lex_at(s@, e as int).0) =~= toks_model(
                    toks@,
                ) + lex_at(s@, e as int).0);
            }
            i = e;
        } else if c == '[' || c == ']' || c == '{' || c == '}' || c == ';' || c == ',' || c == ':'
            || c == '=' {
            let st = STok { tok: Token::Ctrl(c), lo: i, hi: i + 1 };
            let ghost ot = toks@;
            toks.push(st);
            proof {
                assert(toks_model(ot) + (seq![st.model()] + lex_at(s@, i + 1).0) =~= toks_model(
                    toks@,
                ) + lex_at(s@, i + 1).0);
            }
            i += 1;
        } else if (65 <= c as u32 && c as u32 <= 90) || (97 <= c as u32 && c as u32 <= 122) || c
            == '_' {
            let e = ident_end_x(s, i + 1);
            let w = slice_chars(s, i, e);
            let tok = keyword_token(w);
            let st = STok { tok, lo: i, hi: e };
            let ghost ot = toks@;
            toks.push(st);
            proof {
                assert(toks_model(ot) + (seq![st.model()] + lex_at(s@, e as int).0) =~= toks_model(
                    toks@,
                ) + lex_at(s@, e as int).0);
            }
            i = e;
        } else {
            let d = Diag { lo: i, hi: i + 1, expected: Expected::Token, found: Found::Character(c) };
            let ghost od = diags@;
            diags.push(d);
            proof {
                assert(diags@ == od.push(d));
                lemma_push_concat(od, d, lex_at(s@, i + 1).1);
            }
            i += 1;
        }
    }
    (toks, diags)
}

} // verus!
