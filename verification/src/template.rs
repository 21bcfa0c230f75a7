//! The template scanner and renderer.  A template body is a sequence of
//! elements: plain text, `{{name}}` interpolations, and conditional blocks
//! `{{#if name}} ... {{else}} ... {{/if}}`.  A literal `{{` preceded by a
//! backslash is text, not an expression.  The scanner reports every variable
//! name a body references; the renderer substitutes variable values and
//! evaluates conditional blocks against a variable map.

use vstd::prelude::*;
use vstd::slice::{slice_index_get, slice_subrange, slice_to_vec};
use crate::TemplateSyntaxError;
use crate::strmap::StrMap;
use crate::text::{
    bytes_eq, eq_ignore_ascii_case_bytes, is_word_byte, is_word_byte_exec, is_ws, is_ws_byte,
    lemma_to_set_push, lower_seq, push_all, trim, trim_bytes, views,
};

verus! {

/// A template element at the specification level.
pub ghost enum TokenS {
    /// Literal text, passed through verbatim.
    Text(Seq<u8>),
    /// `{{name}}`: replaced by the variable's value.
    Expr(Seq<u8>),
    /// `{{#if name}}`: opens a conditional block.
    IfStart(Seq<u8>),
    /// `{{else}}`.
    ElseMark,
    /// `{{/if}}`.
    EndMark,
}

/// A template element as the executable parser produces it.
pub enum Token {
    Text(Vec<u8>),
    Expr(Vec<u8>),
    IfStart(Vec<u8>),
    ElseMark,
    EndMark,
}

impl View for Token {
    type V = TokenS;

    open spec fn view(&self) -> TokenS {
        match self {
            Token::Text(t) => TokenS::Text(t@),
            Token::Expr(n) => TokenS::Expr(n@),
            Token::IfStart(n) => TokenS::IfStart(n@),
            Token::ElseMark => TokenS::ElseMark,
            Token::EndMark => TokenS::EndMark,
        }
    }
}

pub open spec fn toks_view(ts: Seq<Token>) -> Seq<TokenS> {
    ts.map_values(|t: Token| t@)
}

pub open spec fn open_braces() -> Seq<u8> {
    seq!['{' as u8, '{' as u8]
}

fn lit_open_braces() -> (r: Vec<u8>)
    ensures
        r@ == open_braces(),
{
    let a: [u8; 2] = ['{' as u8, '{' as u8];
    let r = slice_to_vec(a.as_slice());
    proof {
        assert(r@ =~= open_braces());
    }
    r
}

pub open spec fn else_lit() -> Seq<u8> {
    seq!['e' as u8, 'l' as u8, 's' as u8, 'e' as u8]
}

fn lit_else() -> (r: Vec<u8>)
    ensures
        r@ == else_lit(),
{
    let a: [u8; 4] = ['e' as u8, 'l' as u8, 's' as u8, 'e' as u8];
    let r = slice_to_vec(a.as_slice());
    proof {
        assert(r@ =~= else_lit());
    }
    r
}

pub open spec fn endif_lit() -> Seq<u8> {
    seq!['/' as u8, 'i' as u8, 'f' as u8]
}

fn lit_endif() -> (r: Vec<u8>)
    ensures
        r@ == endif_lit(),
{
    let a: [u8; 3] = ['/' as u8, 'i' as u8, 'f' as u8];
    let r = slice_to_vec(a.as_slice());
    proof {
        assert(r@ =~= endif_lit());
    }
    r
}

pub open spec fn if_prefix() -> Seq<u8> {
    seq!['#' as u8, 'i' as u8, 'f' as u8]
}

fn lit_if_prefix() -> (r: Vec<u8>)
    ensures
        r@ == if_prefix(),
{
    let a: [u8; 3] = ['#' as u8, 'i' as u8, 'f' as u8];
    let r = slice_to_vec(a.as_slice());
    proof {
        assert(r@ =~= if_prefix());
    }
    r
}

pub open spec fn false_lit() -> Seq<u8> {
    seq!['f' as u8, 'a' as u8, 'l' as u8, 's' as u8, 'e' as u8]
}

fn lit_false() -> (r: Vec<u8>)
    ensures
        r@ == false_lit(),
{
    let a: [u8; 5] = ['f' as u8, 'a' as u8, 'l' as u8, 's' as u8, 'e' as u8];
    let r = slice_to_vec(a.as_slice());
    proof {
        assert(r@ =~= false_lit());
    }
    r
}

/// Every byte is a word byte (letter, digit or underscore).
pub open spec fn all_word(s: Seq<u8>) -> bool {
    forall|i: int| 0 <= i < s.len() ==> is_word_byte(s[i])
}

fn all_word_exec(s: &[u8]) -> (r: bool)
    ensures
        r == all_word(s@),
{
    let mut i: usize = 0;
    while i < s.len()
        invariant
            0 <= i <= s@.len(),
            forall|k: int| 0 <= k < i ==> is_word_byte(s@[k]),
        decreases s@.len() - i,
    {
        if !is_word_byte_exec(s[i]) {
            return false;
        }
        i = i + 1;
    }
    true
}

/// Index of the first `}}` in `s`, or `s.len()` if there is none.
pub open spec fn find_close(s: Seq<u8>) -> nat
    decreases s.len(),
{
    if s.len() < 2 {
        s.len()
    } else if s[0] == '}' as u8 && s[1] == '}' as u8 {
        0
    } else {
        1 + find_close(s.drop_first())
    }
}

proof fn lemma_find_close_from_scan(s: Seq<u8>, r: int)
    requires
        0 <= r <= s.len(),
        forall|k: int|
            0 <= k < r && k + 2 <= s.len() ==> !(#[trigger] s[k] == '}' as u8 && s[k + 1] == '}'
                as u8),
        r == s.len() || (r + 2 <= s.len() && s[r] == '}' as u8 && s[r + 1] == '}' as u8),
    ensures
        r == find_close(s),
    decreases r,
{
    if s.len() < 2 {
    } else if r == 0 {
    } else {
        lemma_find_close_from_scan(s.drop_first(), r - 1);
    }
}

fn find_close_exec(s: &[u8]) -> (r: usize)
    ensures
        r == find_close(s@),
        r <= s@.len(),
{
    if s.len() < 2 {
        proof {
            lemma_find_close_from_scan(s@, s@.len() as int);
        }
        return s.len();
    }
    let n: usize = s.len();
    let mut i: usize = 0;
    while i <= n - 2
        invariant
            n == s@.len(),
            2 <= s@.len(),
            0 <= i <= s@.len(),
            forall|k: int|
                0 <= k < i && k + 2 <= s@.len() ==> !(#[trigger] s@[k] == '}' as u8 && s@[k + 1]
                    == '}' as u8),
        decreases s@.len() - i,
    {
        if s[i] == '}' as u8 && s[i + 1] == '}' as u8 {
            proof {
                lemma_find_close_from_scan(s@, i as int);
            }
            return i;
        }
        i = i + 1;
    }
    proof {
        lemma_find_close_from_scan(s@, s@.len() as int);
    }
    s.len()
}

/// The element denoted by the trimmed contents of one `{{ ... }}`
/// expression: `else`, `/if`, `#if <name>`, or a plain variable name made of
/// word bytes.  Anything else is malformed.
pub open spec fn classify(inner: Seq<u8>) -> Option<TokenS> {
    if inner.len() == 0 {
        None
    } else if inner == else_lit() {
        Some(TokenS::ElseMark)
    } else if inner == endif_lit() {
        Some(TokenS::EndMark)
    } else if crate::text::starts_with(inner, if_prefix()) {
        let rest = inner.skip(3);
        let name = trim(rest);
        if rest.len() > 0 && is_ws(rest[0]) && name.len() > 0 && all_word(name) {
            Some(TokenS::IfStart(name))
        } else {
            None
        }
    } else if all_word(inner) {
        Some(TokenS::Expr(inner))
    } else {
        None
    }
}

fn classify_exec(inner: Vec<u8>) -> (r: Option<Token>)
    ensures
        match r {
            Some(t) => classify(inner@) == Some(t@),
            None => classify(inner@) is None,
        },
{
    if inner.len() == 0 {
        return None;
    }
    let else_l = lit_else();
    if bytes_eq(inner.as_slice(), else_l.as_slice()) {
        return Some(Token::ElseMark);
    }
    let endif_l = lit_endif();
    if bytes_eq(inner.as_slice(), endif_l.as_slice()) {
        return Some(Token::EndMark);
    }
    let if_l = lit_if_prefix();
    if crate::text::starts_with_bytes(inner.as_slice(), if_l.as_slice()) {
        let rest = slice_subrange(inner.as_slice(), 3, inner.len());
        proof {
            assert(rest@ =~= inner@.skip(3));
        }
        let name = trim_bytes(rest);
        if rest.len() > 0 && is_ws_byte(rest[0]) && name.len() > 0 && all_word_exec(
            name.as_slice(),
        ) {
            return Some(Token::IfStart(name));
        }
        return None;
    }
    if all_word_exec(inner.as_slice()) {
        return Some(Token::Expr(inner));
    }
    None
}

/// The element sequence of a template body, or `None` when the body is
/// malformed: an unclosed `{{`, or an expression `classify` rejects.
pub open spec fn spec_toks(s: Seq<u8>) -> Option<Seq<TokenS>>
    decreases s.len(),
{
    if s.len() == 0 {
        Some(Seq::empty())
    } else if s.len() >= 3 && s[0] == '\\' as u8 && s[1] == '{' as u8 && s[2] == '{' as u8 {
        match spec_toks(s.skip(3)) {
            Some(ts) => Some(seq![TokenS::Text(open_braces())] + ts),
            None => None,
        }
    } else if s.len() >= 2 && s[0] == '{' as u8 && s[1] == '{' as u8 {
        let after = s.skip(2);
        let c = find_close(after) as int;
        if c + 2 <= after.len() {
            match classify(trim(after.take(c))) {
                Some(tok) => match spec_toks(after.skip(c + 2)) {
                    Some(ts) => Some(seq![tok] + ts),
                    None => None,
                },
                None => None,
            }
        } else {
            None
        }
    } else {
        match spec_toks(s.skip(1)) {
            Some(ts) => Some(seq![TokenS::Text(seq![s[0]])] + ts),
            None => None,
        }
    }
}

/// Parse a template body into its element sequence.
pub fn tokenize(body: &[u8]) -> (r: Result<Vec<Token>, TemplateSyntaxError>)
    ensures
        match r {
            Ok(v) => spec_toks(body@) == Some(toks_view(v@)),
            Err(_) => spec_toks(body@) is None,
        },
    decreases body@.len(),
{
    if body.len() == 0 {
        let r: Vec<Token> = Vec::new();
        proof {
            assert(toks_view(r@) =~= Seq::<TokenS>::empty());
        }
        return Ok(r);
    }
    if body.len() >= 3 && body[0] == '\\' as u8 && body[1] == '{' as u8 && body[2] == '{' as u8 {
        match tokenize(slice_subrange(body, 3, body.len())) {
            Err(e) => Err(e),
            Ok(mut v) => {
                proof {
                    assert(body@.subrange(3, body@.len() as int) =~= body@.skip(3));
                }
                let ghost old_views = toks_view(v@);
                v.insert(0, Token::Text(lit_open_braces()));
                proof {
                    assert(toks_view(v@) =~= seq![TokenS::Text(open_braces())] + old_views);
                }
                Ok(v)
            },
        }
    } else if body.len() >= 2 && body[0] == '{' as u8 && body[1] == '{' as u8 {
        let after = slice_subrange(body, 2, body.len());
        proof {
            assert(after@ =~= body@.skip(2));
        }
        let c = find_close_exec(after);
        if after.len() >= 2 && c <= after.len() - 2 {
            let inner = trim_bytes(slice_subrange(after, 0, c));
            proof {
                assert(after@.subrange(0, c as int) =~= after@.take(c as int));
            }
            match classify_exec(inner) {
                None => Err(TemplateSyntaxError::MalformedExpression),
                Some(tok) => {
                    match tokenize(slice_subrange(after, c + 2, after.len())) {
                        Err(e) => Err(e),
                        Ok(mut v) => {
                            proof {
                                assert(after@.subrange(c + 2, after@.len() as int) =~= after@.skip(
                                    c + 2,
                                ));
                            }
                            let ghost old_views = toks_view(v@);
                            let ghost tv = tok@;
                            v.insert(0, tok);
                            proof {
                                assert(toks_view(v@) =~= seq![tv] + old_views);
                            }
                            Ok(v)
                        },
                    }
                },
            }
        } else {
            Err(TemplateSyntaxError::UnclosedExpression)
        }
    } else {
        let mut t: Vec<u8> = Vec::new();
        t.push(body[0]);
        match tokenize(slice_subrange(body, 1, body.len())) {
            Err(e) => Err(e),
            Ok(mut v) => {
                proof {
                    assert(body@.subrange(1, body@.len() as int) =~= body@.skip(1));
                    assert(t@ =~= seq![body@[0]]);
                }
                let ghost old_views = toks_view(v@);
                v.insert(0, Token::Text(t));
                proof {
                    assert(toks_view(v@) =~= seq![TokenS::Text(seq![body@[0]])] + old_views);
                }
                Ok(v)
            },
        }
    }
}

pub open spec fn bump_idx(r: int) -> int {
    if r < 0 {
        -1
    } else {
        r + 1
    }
}

/// Relative index of the `{{/if}}` closing the block opened just before
/// `ts`, minding nested blocks; -1 when there is none.
pub open spec fn matching_end(ts: Seq<TokenS>, depth: int) -> int
    decreases ts.len(),
{
    if ts.len() == 0 {
        -1
    } else {
        match ts[0] {
            TokenS::IfStart(_) => bump_idx(matching_end(ts.drop_first(), depth + 1)),
            TokenS::EndMark => if depth == 0 {
                0
            } else {
                bump_idx(matching_end(ts.drop_first(), depth - 1))
            },
            _ => bump_idx(matching_end(ts.drop_first(), depth)),
        }
    }
}

/// Relative index of the depth-zero `{{else}}` in `ts`, -1 when there is
/// none before a depth-zero `{{/if}}` or the end.
pub open spec fn find_else_at(ts: Seq<TokenS>, depth: int) -> int
    decreases ts.len(),
{
    if ts.len() == 0 {
        -1
    } else {
        match ts[0] {
            TokenS::IfStart(_) => bump_idx(find_else_at(ts.drop_first(), depth + 1)),
            TokenS::EndMark => if depth == 0 {
                -1
            } else {
                bump_idx(find_else_at(ts.drop_first(), depth - 1))
            },
            TokenS::ElseMark => if depth == 0 {
                0
            } else {
                bump_idx(find_else_at(ts.drop_first(), depth))
            },
            _ => bump_idx(find_else_at(ts.drop_first(), depth)),
        }
    }
}

fn matching_end_exec(toks: &Vec<Token>, lo: usize, hi: usize, depth: usize) -> (r: Option<usize>)
    requires
        lo <= hi <= toks@.len(),
        depth + (hi - lo) <= usize::MAX,
    ensures
        ({
            let m = matching_end(toks_view(toks@).subrange(lo as int, hi as int), depth as int);
            match r {
                Some(e) => lo <= e < hi && m == e - lo,
                None => m == -1,
            }
        }),
    decreases hi - lo,
{
    let ghost sub = toks_view(toks@).subrange(lo as int, hi as int);
    if lo == hi {
        return None;
    }
    proof {
        assert(sub[0] == toks@[lo as int]@);
        assert(sub.drop_first() =~= toks_view(toks@).subrange(lo + 1, hi as int));
    }
    let t = slice_index_get(toks.as_slice(), lo);
    match t {
        Token::IfStart(_) => {
            match matching_end_exec(toks, lo + 1, hi, depth + 1) {
                Some(e) => Some(e),
                None => None,
            }
        },
        Token::EndMark => {
            if depth == 0 {
                Some(lo)
            } else {
                match matching_end_exec(toks, lo + 1, hi, depth - 1) {
                    Some(e) => Some(e),
                    None => None,
                }
            }
        },
        _ => {
            match matching_end_exec(toks, lo + 1, hi, depth) {
                Some(e) => Some(e),
                None => None,
            }
        },
    }
}

fn find_else_exec(toks: &Vec<Token>, lo: usize, hi: usize, depth: usize) -> (r: Option<usize>)
    requires
        lo <= hi <= toks@.len(),
        depth + (hi - lo) <= usize::MAX,
    ensures
        ({
            let m = find_else_at(toks_view(toks@).subrange(lo as int, hi as int), depth as int);
            match r {
                Some(e) => lo <= e < hi && m == e - lo,
                None => m == -1,
            }
        }),
    decreases hi - lo,
{
    let ghost sub = toks_view(toks@).subrange(lo as int, hi as int);
    if lo == hi {
        return None;
    }
    proof {
        assert(sub[0] == toks@[lo as int]@);
        assert(sub.drop_first() =~= toks_view(toks@).subrange(lo + 1, hi as int));
    }
    let t = slice_index_get(toks.as_slice(), lo);
    match t {
        Token::IfStart(_) => {
            match find_else_exec(toks, lo + 1, hi, depth + 1) {
                Some(e) => Some(e),
                None => None,
            }
        },
        Token::EndMark => {
            if depth == 0 {
                None
            } else {
                match find_else_exec(toks, lo + 1, hi, depth - 1) {
                    Some(e) => Some(e),
                    None => None,
                }
            }
        },
        Token::ElseMark => {
            if depth == 0 {
                Some(lo)
            } else {
                match find_else_exec(toks, lo + 1, hi, depth) {
                    Some(e) => Some(e),
                    None => None,
                }
            }
        },
        _ => {
            match find_else_exec(toks, lo + 1, hi, depth) {
                Some(e) => Some(e),
                None => None,
            }
        },
    }
}

/// The value bound to `k`, or the empty string when `k` is unbound: a
/// missing variable renders as nothing rather than failing.
pub open spec fn lookup(m: Map<Seq<u8>, Seq<u8>>, k: Seq<u8>) -> Seq<u8> {
    if m.dom().contains(k) {
        m[k]
    } else {
        Seq::empty()
    }
}

/// A variable is truthy when it is bound, non-empty and not the literal
/// `false` in any ASCII case.
pub open spec fn truthy(m: Map<Seq<u8>, Seq<u8>>, k: Seq<u8>) -> bool {
    m.dom().contains(k) && m[k].len() > 0 && lower_seq(m[k]) != false_lit()
}

fn truthy_exec(variables: &StrMap, k: &[u8]) -> (r: bool)
    ensures
        r == truthy(variables@, k@),
{
    match variables.get(k) {
        None => false,
        Some(v) => {
            if v.len() == 0 {
                return false;
            }
            let f = lit_false();
            let is_false = eq_ignore_ascii_case_bytes(v.as_slice(), f.as_slice());
            proof {
                assert(lower_seq(false_lit()) =~= false_lit());
            }
            !is_false
        },
    }
}

/// The rendering of an element sequence, or `None` when block markers are
/// unbalanced.  Both branches of a conditional must render; the truthiness
/// of the condition picks which one appears in the output.
pub open spec fn spec_render_toks(ts: Seq<TokenS>, m: Map<Seq<u8>, Seq<u8>>) -> Option<Seq<u8>>
    decreases ts.len(),
{
    if ts.len() == 0 {
        Some(Seq::empty())
    } else {
        match ts[0] {
            TokenS::Text(t) => match spec_render_toks(ts.drop_first(), m) {
                Some(r) => Some(t + r),
                None => None,
            },
            TokenS::Expr(n) => match spec_render_toks(ts.drop_first(), m) {
                Some(r) => Some(lookup(m, n) + r),
                None => None,
            },
            TokenS::ElseMark => None,
            TokenS::EndMark => None,
            TokenS::IfStart(n) => {
                let rest = ts.drop_first();
                let e = matching_end(rest, 0);
                if 0 <= e < rest.len() {
                    let j = find_else_at(rest.take(e), 0);
                    let thn = if 0 <= j < e {
                        rest.subrange(0, j)
                    } else {
                        rest.subrange(0, e)
                    };
                    let els = if 0 <= j < e {
                        rest.subrange(j + 1, e)
                    } else {
                        Seq::<TokenS>::empty()
                    };
                    match (spec_render_toks(thn, m), spec_render_toks(els, m), spec_render_toks(
                        rest.skip(e + 1),
                        m,
                    )) {
                        (Some(a), Some(b), Some(c)) => Some(
                            (if truthy(m, n) {
                                a
                            } else {
                                b
                            }) + c,
                        ),
                        _ => None,
                    }
                } else {
                    None
                }
            },
        }
    }
}

fn render_toks(toks: &Vec<Token>, lo: usize, hi: usize, variables: &StrMap) -> (r: Result<
    Vec<u8>,
    TemplateSyntaxError,
>)
    requires
        lo <= hi <= toks@.len(),
    ensures
        ({
            let s = spec_render_toks(toks_view(toks@).subrange(lo as int, hi as int), variables@);
            match r {
                Ok(v) => s == Some(v@),
                Err(_) => s is None,
            }
        }),
    decreases hi - lo,
{
    let ghost sub = toks_view(toks@).subrange(lo as int, hi as int);
    if lo == hi {
        let r: Vec<u8> = Vec::new();
        proof {
            assert(r@ =~= Seq::<u8>::empty());
        }
        return Ok(r);
    }
    proof {
        assert(sub[0] == toks@[lo as int]@);
        assert(sub.drop_first() =~= toks_view(toks@).subrange(lo + 1, hi as int));
    }
    let t = slice_index_get(toks.as_slice(), lo);
    match t {
        Token::Text(text) => {
            match render_toks(toks, lo + 1, hi, variables) {
                Err(e) => Err(e),
                Ok(rest) => {
                    let mut out: Vec<u8> = Vec::new();
                    push_all(&mut out, text.as_slice());
                    push_all(&mut out, rest.as_slice());
                    Ok(out)
                },
            }
        },
        Token::Expr(n) => {
            match render_toks(toks, lo + 1, hi, variables) {
                Err(e) => Err(e),
                Ok(rest) => {
                    let mut out: Vec<u8> = Vec::new();
                    match variables.get(n.as_slice()) {
                        Some(v) => {
                            push_all(&mut out, v.as_slice());
                        },
                        None => {},
                    }
                    push_all(&mut out, rest.as_slice());
                    proof {
                        assert(out@ =~= lookup(variables@, n@) + rest@);
                    }
                    Ok(out)
                },
            }
        },
        Token::ElseMark => Err(TemplateSyntaxError::UnbalancedBlock),
        Token::EndMark => Err(TemplateSyntaxError::UnbalancedBlock),
        Token::IfStart(n) => {
            let e_opt = matching_end_exec(toks, lo + 1, hi, 0);
            match e_opt {
                None => Err(TemplateSyntaxError::UnbalancedBlock),
                Some(e) => {
                    let ghost rest = sub.drop_first();
                    let ghost ee = e - (lo + 1);
                    proof {
                        assert(matching_end(rest, 0) == ee);
                        assert(0 <= ee < rest.len());
                        assert(rest.take(ee) =~= toks_view(toks@).subrange(lo + 1, e as int));
                    }
                    let j_opt = find_else_exec(toks, lo + 1, e, 0);
                    let ghost jj = find_else_at(rest.take(ee), 0);
                    let thn_hi: usize = match j_opt {
                        Some(j) => j,
                        None => e,
                    };
                    proof {
                        if let Some(j) = j_opt {
                            assert(jj == j - (lo + 1));
                            assert(0 <= jj < ee);
                            assert(rest.subrange(0, jj) =~= toks_view(toks@).subrange(
                                lo + 1,
                                thn_hi as int,
                            ));
                            assert(rest.subrange(jj + 1, ee) =~= toks_view(toks@).subrange(
                                j + 1,
                                e as int,
                            ));
                        } else {
                            assert(jj == -1);
                            assert(rest.subrange(0, ee) =~= toks_view(toks@).subrange(
                                lo + 1,
                                thn_hi as int,
                            ));
                        }
                        assert(rest.skip(ee + 1) =~= toks_view(toks@).subrange(e + 1, hi as int));
                    }
                    let thn = render_toks(toks, lo + 1, thn_hi, variables);
                    let els = match j_opt {
                        Some(j) => render_toks(toks, j + 1, e, variables),
                        None => {
                            let empty_out: Vec<u8> = Vec::new();
                            proof {
                                assert(empty_out@ =~= Seq::<u8>::empty());
                                assert(spec_render_toks(Seq::<TokenS>::empty(), variables@)
                                    == Some(Seq::<u8>::empty()));
                            }
                            Ok(empty_out)
                        },
                    };
                    let aft = render_toks(toks, e + 1, hi, variables);
                    match (thn, els, aft) {
                        (Ok(a), Ok(b), Ok(c)) => {
                            let mut out: Vec<u8> = Vec::new();
                            if truthy_exec(variables, n.as_slice()) {
                                push_all(&mut out, a.as_slice());
                            } else {
                                push_all(&mut out, b.as_slice());
                            }
                            push_all(&mut out, c.as_slice());
                            Ok(out)
                        },
                        _ => Err(TemplateSyntaxError::UnbalancedBlock),
                    }
                },
            }
        },
    }
}

/// An element sequence is well formed when it renders under some (hence,
/// by `lemma_render_defined_map_independent`, every) variable map.
pub open spec fn wf_toks(ts: Seq<TokenS>) -> bool {
    spec_render_toks(ts, Map::<Seq<u8>, Seq<u8>>::empty()) is Some
}

/// Whether rendering succeeds depends on the element structure alone; the
/// variable map changes what is rendered, never whether.
pub proof fn lemma_render_defined_map_independent(
    ts: Seq<TokenS>,
    m1: Map<Seq<u8>, Seq<u8>>,
    m2: Map<Seq<u8>, Seq<u8>>,
)
    ensures
        (spec_render_toks(ts, m1) is Some) == (spec_render_toks(ts, m2) is Some),
    decreases ts.len(),
{
    if ts.len() == 0 {
    } else {
        match ts[0] {
            TokenS::Text(_) => {
                lemma_render_defined_map_independent(ts.drop_first(), m1, m2);
            },
            TokenS::Expr(_) => {
                lemma_render_defined_map_independent(ts.drop_first(), m1, m2);
            },
            TokenS::ElseMark => {},
            TokenS::EndMark => {},
            TokenS::IfStart(_) => {
                let rest = ts.drop_first();
                let e = matching_end(rest, 0);
                if 0 <= e < rest.len() {
                    let j = find_else_at(rest.take(e), 0);
                    let thn = if 0 <= j < e {
                        rest.subrange(0, j)
                    } else {
                        rest.subrange(0, e)
                    };
                    let els = if 0 <= j < e {
                        rest.subrange(j + 1, e)
                    } else {
                        Seq::<TokenS>::empty()
                    };
                    lemma_render_defined_map_independent(thn, m1, m2);
                    lemma_render_defined_map_independent(els, m1, m2);
                    lemma_render_defined_map_independent(rest.skip(e + 1), m1, m2);
                }
            },
        }
    }
}

/// A body the scanner accepts: it parses into elements and those render.
pub open spec fn spec_scan_ok(s: Seq<u8>) -> bool {
    match spec_toks(s) {
        Some(ts) => wf_toks(ts),
        None => false,
    }
}

/// The variable name an element references, if any: the name of an
/// interpolation or of a conditional's condition.
pub open spec fn token_name(t: TokenS) -> Option<Seq<u8>> {
    match t {
        TokenS::Expr(n) => Some(n),
        TokenS::IfStart(n) => Some(n),
        _ => None,
    }
}

/// The set of variable names an element sequence references.
pub open spec fn spec_vars_of(ts: Seq<TokenS>) -> Set<Seq<u8>> {
    Set::new(
        |n: Seq<u8>|
            exists|i: int| 0 <= i < ts.len() && #[trigger] token_name(ts[i]) == Some(n),
    )
}

proof fn lemma_vars_of_step(ts: Seq<TokenS>, i: int)
    requires
        0 <= i < ts.len(),
    ensures
        spec_vars_of(ts.take(i + 1)) == (match token_name(ts[i]) {
            Some(n) => spec_vars_of(ts.take(i)).insert(n),
            None => spec_vars_of(ts.take(i)),
        }),
{
    let a = spec_vars_of(ts.take(i + 1));
    let b = spec_vars_of(ts.take(i));
    assert(forall|k: int| 0 <= k < i + 1 ==> ts.take(i + 1)[k] == ts[k]);
    assert(forall|k: int| 0 <= k < i ==> ts.take(i)[k] == ts[k]);
    match token_name(ts[i]) {
        Some(n) => {
            assert forall|x: Seq<u8>| a.contains(x) implies b.insert(n).contains(x) by {
                let k = choose|k: int|
                    0 <= k < ts.take(i + 1).len() && #[trigger] token_name(ts.take(i + 1)[k])
                        == Some(x);
                if k < i {
                    assert(token_name(ts.take(i)[k]) == Some(x));
                }
            }
            assert forall|x: Seq<u8>| b.insert(n).contains(x) implies a.contains(x) by {
                if x == n {
                    assert(token_name(ts.take(i + 1)[i]) == Some(x));
                } else {
                    let k = choose|k: int|
                        0 <= k < ts.take(i).len() && #[trigger] token_name(ts.take(i)[k])
                            == Some(x);
                    assert(token_name(ts.take(i + 1)[k]) == Some(x));
                }
            }
            assert(a =~= b.insert(n));
        },
        None => {
            assert forall|x: Seq<u8>| a.contains(x) implies b.contains(x) by {
                let k = choose|k: int|
                    0 <= k < ts.take(i + 1).len() && #[trigger] token_name(ts.take(i + 1)[k])
                        == Some(x);
                assert(k < i);
                assert(token_name(ts.take(i)[k]) == Some(x));
            }
            assert forall|x: Seq<u8>| b.contains(x) implies a.contains(x) by {
                let k = choose|k: int|
                    0 <= k < ts.take(i).len() && #[trigger] token_name(ts.take(i)[k]) == Some(x);
                assert(token_name(ts.take(i + 1)[k]) == Some(x));
            }
            assert(a =~= b);
        },
    }
}

/// Whether some element of `names` reads back as `n`.
fn contains_name(names: &Vec<Vec<u8>>, n: &[u8]) -> (r: bool)
    ensures
        r == views(names@).contains(n@),
{
    let mut m: usize = 0;
    while m < names.len()
        invariant
            0 <= m <= names@.len(),
            forall|k: int| 0 <= k < m ==> views(names@)[k] != n@,
        decreases names@.len() - m,
    {
        if bytes_eq(names[m].as_slice(), n) {
            proof {
                assert(views(names@)[m as int] == n@);
            }
            return true;
        }
        m = m + 1;
    }
    proof {
        assert forall|k: int| 0 <= k < views(names@).len() implies views(names@)[k] != n@ by {}
    }
    false
}

/// Every variable name a template body references, each once, in order of
/// first appearance.  Fails exactly when the body is malformed: then no
/// rendering of it can succeed either.
pub fn referenced_variables(body: &[u8]) -> (r: Result<Vec<Vec<u8>>, TemplateSyntaxError>)
    ensures
        match r {
            Ok(v) => spec_scan_ok(body@) && views(v@).to_set() == spec_vars_of(
                spec_toks(body@).unwrap(),
            ) && (forall|p: int, q: int|
                0 <= p < q < v@.len() ==> views(v@)[p] != views(v@)[q]),
            Err(_) => !spec_scan_ok(body@),
        },
{
    let toks = match tokenize(body) {
        Err(e) => {
            return Err(e);
        },
        Ok(t) => t,
    };
    let ghost tsv = toks_view(toks@);
    proof {
        assert(tsv.subrange(0, tsv.len() as int) =~= tsv);
    }
    let probe = StrMap::new();
    let n_toks = toks.len();
    match render_toks(&toks, 0, n_toks, &probe) {
        Err(e) => {
            return Err(e);
        },
        Ok(_) => {},
    }
    let mut names: Vec<Vec<u8>> = Vec::new();
    let mut i: usize = 0;
    while i < toks.len()
        invariant
            tsv == toks_view(toks@),
            0 <= i <= toks@.len(),
            forall|p: int, q: int|
                0 <= p < q < names@.len() ==> views(names@)[p] != views(names@)[q],
            views(names@).to_set() == spec_vars_of(tsv.take(i as int)),
        decreases toks@.len() - i,
    {
        proof {
            lemma_vars_of_step(tsv, i as int);
        }
        let t = slice_index_get(toks.as_slice(), i);
        match t {
            Token::Expr(n) => {
                if !contains_name(&names, n.as_slice()) {
                    let ghost old_views = views(names@);
                    names.push(slice_to_vec(n.as_slice()));
                    proof {
                        assert(views(names@) =~= old_views.push(n@));
                        lemma_to_set_push(old_views, n@);
                    }
                } else {
                    proof {
                        assert(views(names@).to_set().contains(n@));
                        assert(views(names@).to_set() =~= views(names@).to_set().insert(n@));
                    }
                }
            },
            Token::IfStart(n) => {
                if !contains_name(&names, n.as_slice()) {
                    let ghost old_views = views(names@);
                    names.push(slice_to_vec(n.as_slice()));
                    proof {
                        assert(views(names@) =~= old_views.push(n@));
                        lemma_to_set_push(old_views, n@);
                    }
                } else {
                    proof {
                        assert(views(names@).to_set().contains(n@));
                        assert(views(names@).to_set() =~= views(names@).to_set().insert(n@));
                    }
                }
            },
            _ => {},
        }
        i = i + 1;
    }
    proof {
        assert(tsv.take(toks@.len() as int) =~= tsv);
    }
    Ok(names)
}

/// Rendering is the identity on a body without expressions: a body in which
/// `{{` never occurs renders to itself under every variable map.
pub proof fn lemma_render_plain_body(s: Seq<u8>, m: Map<Seq<u8>, Seq<u8>>)
    requires
        forall|i: int|
            0 <= i && i + 1 < s.len() ==> !(#[trigger] s[i] == '{' as u8 && s[i + 1] == '{'
                as u8),
    ensures
        spec_render_doc(s, m) == Some(s),
    decreases s.len(),
{
    if s.len() == 0 {
        assert(spec_toks(s) == Some(Seq::<TokenS>::empty()));
        assert(spec_render_toks(Seq::<TokenS>::empty(), m) == Some(Seq::<u8>::empty()));
        assert(s =~= Seq::<u8>::empty());
    } else {
        let tail = s.skip(1);
        assert forall|i: int|
            0 <= i && i + 1 < tail.len() implies !(#[trigger] tail[i] == '{' as u8 && tail[i + 1]
            == '{' as u8) by {
            assert(tail[i] == s[i + 1]);
            assert(tail[i + 1] == s[i + 2]);
        }
        lemma_render_plain_body(tail, m);
        if s.len() >= 2 {
            assert(!(s[0] == '{' as u8 && s[1] == '{' as u8));
        }
        let ts = spec_toks(tail).unwrap();
        let head = seq![TokenS::Text(seq![s[0]])];
        assert(spec_toks(s) == Some(head + ts));
        assert((head + ts)[0] == TokenS::Text(seq![s[0]]));
        assert((head + ts).drop_first() =~= ts);
        assert(spec_render_toks(head + ts, m) == Some(seq![s[0]] + tail));
        assert(seq![s[0]] + tail =~= s);
    }
}

/// A body the scanner accepts renders under every variable map: once
/// resolution has answered for the referenced names (whatever the answers),
/// rendering cannot fail.
pub proof fn lemma_scan_ok_render_total(s: Seq<u8>, m: Map<Seq<u8>, Seq<u8>>)
    requires
        spec_scan_ok(s),
    ensures
        spec_render_doc(s, m) is Some,
{
    let ts = spec_toks(s).unwrap();
    lemma_render_defined_map_independent(ts, Map::<Seq<u8>, Seq<u8>>::empty(), m);
}

/// The rendering of a whole template body against a variable map, or `None`
/// when the body is malformed.
pub open spec fn spec_render_doc(s: Seq<u8>, m: Map<Seq<u8>, Seq<u8>>) -> Option<Seq<u8>> {
    match spec_toks(s) {
        None => None,
        Some(ts) => spec_render_toks(ts, m),
    }
}

/// Render a template body: text passes through, `{{name}}` becomes the
/// variable's value (empty when unbound), and `{{#if name}}` blocks keep
/// their then- or else-branch by the truthiness of `name`.
pub fn render(body: &[u8], variables: &StrMap) -> (r: Result<Vec<u8>, TemplateSyntaxError>)
    ensures
        match r {
            Ok(v) => spec_render_doc(body@, variables@) == Some(v@),
            Err(_) => spec_render_doc(body@, variables@) is None,
        },
{
    match tokenize(body) {
        Err(e) => Err(e),
        Ok(toks) => {
            let n = toks.len();
            let r = render_toks(&toks, 0, n, variables);
            proof {
                assert(toks_view(toks@).subrange(0, toks@.len() as int) =~= toks_view(toks@));
            }
            r
        },
    }
}

} // verus!
