//! The header parser.  A template may begin with a commented metadata block
//! of `# templater.<key> = <value>` lines; this module extracts those pairs
//! and produces the template body with the block stripped.
//!
//! The header block is the maximal prefix of the document's lines in which
//! every line, after trimming, is either empty or contains the marker
//! `templater.`.  The first non-empty line without the marker ends the block;
//! everything from that line on is body, each line re-terminated with a
//! single newline.

use vstd::prelude::*;
use vstd::slice::{slice_subrange, slice_to_vec};
use crate::strmap::StrMap;
use crate::text::{
    contains_at, contains_bytes, contains_seq, is_word_byte, is_word_byte_exec, is_ws,
    lemma_to_set_push, starts_with, starts_with_bytes, trim, trim_bytes, trim_end, trim_start,
    views,
};

verus! {

/// The marker substring that makes a trimmed line header-eligible:
/// `templater.`.
pub open spec fn templater_dot() -> Seq<u8> {
    seq![
        't' as u8, 'e' as u8, 'm' as u8, 'p' as u8, 'l' as u8, 'a' as u8, 't' as u8, 'e' as u8,
        'r' as u8, '.' as u8,
    ]
}

fn lit_templater_dot() -> (r: Vec<u8>)
    ensures
        r@ == templater_dot(),
{
    let a: [u8; 10] = [
        't' as u8, 'e' as u8, 'm' as u8, 'p' as u8, 'l' as u8, 'a' as u8, 't' as u8, 'e' as u8,
        'r' as u8, '.' as u8,
    ];
    let r = slice_to_vec(a.as_slice());
    proof {
        assert(r@ =~= templater_dot());
    }
    r
}

/// The prefix `#templater` of a raw header line.
pub open spec fn hash_templater() -> Seq<u8> {
    seq![
        '#' as u8, 't' as u8, 'e' as u8, 'm' as u8, 'p' as u8, 'l' as u8, 'a' as u8, 't' as u8,
        'e' as u8, 'r' as u8,
    ]
}

fn lit_hash_templater() -> (r: Vec<u8>)
    ensures
        r@ == hash_templater(),
{
    let a: [u8; 10] = [
        '#' as u8, 't' as u8, 'e' as u8, 'm' as u8, 'p' as u8, 'l' as u8, 'a' as u8, 't' as u8,
        'e' as u8, 'r' as u8,
    ];
    let r = slice_to_vec(a.as_slice());
    proof {
        assert(r@ =~= hash_templater());
    }
    r
}

/// The prefix `# templater` of a raw header line.
pub open spec fn hash_sp_templater() -> Seq<u8> {
    seq![
        '#' as u8, ' ' as u8, 't' as u8, 'e' as u8, 'm' as u8, 'p' as u8, 'l' as u8, 'a' as u8,
        't' as u8, 'e' as u8, 'r' as u8,
    ]
}

fn lit_hash_sp_templater() -> (r: Vec<u8>)
    ensures
        r@ == hash_sp_templater(),
{
    let a: [u8; 11] = [
        '#' as u8, ' ' as u8, 't' as u8, 'e' as u8, 'm' as u8, 'p' as u8, 'l' as u8, 'a' as u8,
        't' as u8, 'e' as u8, 'r' as u8,
    ];
    let r = slice_to_vec(a.as_slice());
    proof {
        assert(r@ =~= hash_sp_templater());
    }
    r
}

/// Index of the first newline byte in `s`, or `s.len()` if there is none.
pub open spec fn first_nl(s: Seq<u8>) -> nat
    decreases s.len(),
{
    if s.len() == 0 {
        0
    } else if s[0] == 10 {
        0
    } else {
        1 + first_nl(s.drop_first())
    }
}

proof fn lemma_first_nl_from_scan(s: Seq<u8>, r: int)
    requires
        0 <= r <= s.len(),
        forall|k: int| 0 <= k < r ==> s[k] != 10,
        r == s.len() || s[r] == 10,
    ensures
        r == first_nl(s),
    decreases r,
{
    if r == 0 {
    } else {
        lemma_first_nl_from_scan(s.drop_first(), r - 1);
    }
}

/// A line loses one trailing carriage return, matching how a `\r\n` line
/// terminator is treated.
pub open spec fn strip_cr(l: Seq<u8>) -> Seq<u8> {
    if l.len() > 0 && l.last() == 13 {
        l.drop_last()
    } else {
        l
    }
}

/// The document split into lines: terminators are `\n` or `\r\n`, and a
/// final terminator does not open an extra empty line.
pub open spec fn spec_lines(s: Seq<u8>) -> Seq<Seq<u8>>
    decreases s.len(),
{
    if s.len() == 0 {
        Seq::empty()
    } else {
        let i = first_nl(s);
        if i >= s.len() {
            seq![s]
        } else {
            seq![strip_cr(s.take(i as int))] + spec_lines(s.skip(i + 1 as int))
        }
    }
}

/// A line belongs to the header block if, after trimming, it is empty or
/// contains the marker `templater.`.
pub open spec fn is_header_line(l: Seq<u8>) -> bool {
    trim(l).len() == 0 || contains_seq(trim(l), templater_dot())
}

/// The lines after the header block: the maximal header-eligible prefix is
/// removed and everything from the first ineligible line on is kept.
pub open spec fn drop_header_lines(ls: Seq<Seq<u8>>) -> Seq<Seq<u8>>
    decreases ls.len(),
{
    if ls.len() == 0 {
        Seq::empty()
    } else if is_header_line(ls[0]) {
        drop_header_lines(ls.drop_first())
    } else {
        ls
    }
}

/// The header block itself: the maximal header-eligible prefix.
pub open spec fn header_block(ls: Seq<Seq<u8>>) -> Seq<Seq<u8>>
    decreases ls.len(),
{
    if ls.len() == 0 {
        Seq::empty()
    } else if is_header_line(ls[0]) {
        seq![ls[0]] + header_block(ls.drop_first())
    } else {
        Seq::empty()
    }
}

/// Lines joined back into a document, each line terminated by one newline.
pub open spec fn join_nl(ls: Seq<Seq<u8>>) -> Seq<u8>
    decreases ls.len(),
{
    if ls.len() == 0 {
        Seq::empty()
    } else {
        ls[0] + seq![10u8] + join_nl(ls.drop_first())
    }
}

/// The body of a document: its lines with the header block removed, each
/// terminated by a single newline.
pub open spec fn spec_without_header(s: Seq<u8>) -> Seq<u8> {
    join_nl(drop_header_lines(spec_lines(s)))
}

proof fn lemma_drop_header_skip(ls: Seq<Seq<u8>>, k: int)
    requires
        0 <= k <= ls.len(),
        forall|m: int| 0 <= m < k ==> is_header_line(ls[m]),
        k == ls.len() || !is_header_line(ls[k]),
    ensures
        drop_header_lines(ls) == ls.skip(k),
    decreases k,
{
    if k == 0 {
        assert(ls.skip(0) =~= ls);
    } else {
        lemma_drop_header_skip(ls.drop_first(), k - 1);
        assert(ls.drop_first().skip(k - 1) =~= ls.skip(k));
    }
}

proof fn lemma_header_block_take(ls: Seq<Seq<u8>>, k: int)
    requires
        0 <= k <= ls.len(),
        forall|m: int| 0 <= m < k ==> is_header_line(ls[m]),
        k == ls.len() || !is_header_line(ls[k]),
    ensures
        header_block(ls) == ls.take(k),
    decreases k,
{
    if k == 0 {
        assert(ls.take(0) =~= Seq::<Seq<u8>>::empty());
    } else {
        lemma_header_block_take(ls.drop_first(), k - 1);
        assert(seq![ls[0]] + ls.drop_first().take(k - 1) =~= ls.take(k));
    }
}

pub proof fn lemma_join_nl_push(ls: Seq<Seq<u8>>, l: Seq<u8>)
    ensures
        join_nl(ls.push(l)) == join_nl(ls) + l + seq![10u8],
    decreases ls.len(),
{
    let p = ls.push(l);
    if ls.len() == 0 {
        assert(p.drop_first() =~= Seq::<Seq<u8>>::empty());
        assert(p[0] == l);
        assert(join_nl(p.drop_first()) == Seq::<u8>::empty());
        assert(join_nl(p) == p[0] + seq![10u8] + join_nl(p.drop_first()));
        assert(join_nl(p) =~= join_nl(ls) + l + seq![10u8]);
    } else {
        assert(p.drop_first() =~= ls.drop_first().push(l));
        lemma_join_nl_push(ls.drop_first(), l);
        assert(p[0] == ls[0]);
        assert(join_nl(p) == p[0] + seq![10u8] + join_nl(p.drop_first()));
        assert(join_nl(p) =~= join_nl(ls) + l + seq![10u8]);
    }
}

/// Index of the first newline byte, or the length if there is none.
fn find_nl(s: &[u8]) -> (r: usize)
    ensures
        r == first_nl(s@),
        r <= s@.len(),
{
    let mut i: usize = 0;
    while i < s.len()
        invariant
            0 <= i <= s@.len(),
            forall|k: int| 0 <= k < i ==> s@[k] != 10,
        decreases s@.len() - i,
    {
        if s[i] == 10 {
            proof {
                lemma_first_nl_from_scan(s@, i as int);
            }
            return i;
        }
        i = i + 1;
    }
    proof {
        lemma_first_nl_from_scan(s@, i as int);
    }
    i
}

fn strip_cr_bytes(l: &[u8]) -> (r: Vec<u8>)
    ensures
        r@ == strip_cr(l@),
{
    if l.len() > 0 && l[l.len() - 1] == 13 {
        let r = slice_to_vec(slice_subrange(l, 0, l.len() - 1));
        proof {
            assert(l@.subrange(0, l@.len() - 1) =~= l@.drop_last());
        }
        r
    } else {
        slice_to_vec(l)
    }
}

/// The document split into lines, as `str::lines` splits.
pub fn split_lines(s: &[u8]) -> (r: Vec<Vec<u8>>)
    ensures
        views(r@) == spec_lines(s@),
    decreases s@.len(),
{
    if s.len() == 0 {
        let r: Vec<Vec<u8>> = Vec::new();
        proof {
            assert(views(r@) =~= spec_lines(s@));
        }
        return r;
    }
    let i = find_nl(s);
    if i == s.len() {
        let mut r: Vec<Vec<u8>> = Vec::new();
        r.push(slice_to_vec(s));
        proof {
            assert(views(r@) =~= spec_lines(s@));
        }
        r
    } else {
        let line = strip_cr_bytes(slice_subrange(s, 0, i));
        let mut rest = split_lines(slice_subrange(s, i + 1, s.len()));
        proof {
            assert(s@.subrange(0, i as int) =~= s@.take(i as int));
            assert(s@.subrange(i + 1, s@.len() as int) =~= s@.skip(i + 1));
        }
        let ghost rest_views = views(rest@);
        rest.insert(0, line);
        proof {
            assert(views(rest@) =~= seq![line@] + rest_views);
            assert(seq![line@] + rest_views =~= spec_lines(s@));
        }
        rest
    }
}

/// Whether a line belongs to the header block.
fn is_header_line_exec(l: &[u8]) -> (r: bool)
    ensures
        r == is_header_line(l@),
{
    let t = trim_bytes(l);
    if t.len() == 0 {
        return true;
    }
    let marker = lit_templater_dot();
    contains_bytes(t.as_slice(), marker.as_slice())
}

/// The template body: the original text with the header block's lines
/// removed and every remaining line terminated by a single newline.
pub fn without_header(file_contents: &[u8]) -> (r: Vec<u8>)
    ensures
        r@ == spec_without_header(file_contents@),
{
    let lines = split_lines(file_contents);
    let mut k: usize = 0;
    while k < lines.len() && is_header_line_exec(lines[k].as_slice())
        invariant
            views(lines@) == spec_lines(file_contents@),
            0 <= k <= lines@.len(),
            forall|m: int| 0 <= m < k ==> is_header_line(#[trigger] views(lines@)[m]),
        decreases lines@.len() - k,
    {
        k = k + 1;
    }
    proof {
        lemma_drop_header_skip(views(lines@), k as int);
    }
    let mut out: Vec<u8> = Vec::new();
    let mut m: usize = k;
    while m < lines.len()
        invariant
            views(lines@) == spec_lines(file_contents@),
            0 <= k <= m <= lines@.len(),
            out@ == join_nl(views(lines@).subrange(k as int, m as int)),
        decreases lines@.len() - m,
    {
        out.extend_from_slice(lines[m].as_slice());
        out.push(10u8);
        proof {
            let ls = views(lines@);
            lemma_join_nl_push(ls.subrange(k as int, m as int), ls[m as int]);
            assert(ls.subrange(k as int, m + 1) =~= ls.subrange(k as int, m as int).push(
                ls[m as int],
            ));
        }
        m = m + 1;
    }
    proof {
        assert(views(lines@).subrange(k as int, lines@.len() as int) =~= views(
            lines@,
        ).skip(k as int));
    }
    out
}

/// A trimmed header-block line that begins with `# templater` or
/// `#templater` is a raw header line.
pub open spec fn is_marker_start(l: Seq<u8>) -> bool {
    starts_with(l, hash_sp_templater()) || starts_with(l, hash_templater())
}

/// The raw header lines of a document: the trimmed lines of the header
/// block that begin with the marker.
pub open spec fn spec_raw_header(s: Seq<u8>) -> Seq<Seq<u8>> {
    header_block(spec_lines(s)).map_values(|l: Seq<u8>| trim(l)).filter(
        |l: Seq<u8>| is_marker_start(l),
    )
}

/// The raw header lines, trimmed, in document order; `None` when there are
/// none.
pub fn get_raw_header(file_contents: &[u8]) -> (r: Option<Vec<Vec<u8>>>)
    ensures
        match r {
            Some(v) => views(v@) == spec_raw_header(file_contents@) && v@.len() > 0,
            None => spec_raw_header(file_contents@).len() == 0,
        },
{
    let lines = split_lines(file_contents);
    let mut k: usize = 0;
    while k < lines.len() && is_header_line_exec(lines[k].as_slice())
        invariant
            views(lines@) == spec_lines(file_contents@),
            0 <= k <= lines@.len(),
            forall|m: int| 0 <= m < k ==> is_header_line(#[trigger] views(lines@)[m]),
        decreases lines@.len() - k,
    {
        k = k + 1;
    }
    proof {
        lemma_header_block_take(views(lines@), k as int);
    }
    let ghost block = views(lines@).take(k as int);
    let ghost trimmed = block.map_values(|l: Seq<u8>| trim(l));
    let ghost pred = |l: Seq<u8>| is_marker_start(l);
    let sp_marker = lit_hash_sp_templater();
    let ns_marker = lit_hash_templater();
    let mut raw: Vec<Vec<u8>> = Vec::new();
    let mut m: usize = 0;
    while m < k
        invariant
            views(lines@) == spec_lines(file_contents@),
            0 <= m <= k <= lines@.len(),
            block == views(lines@).take(k as int),
            trimmed == block.map_values(|l: Seq<u8>| trim(l)),
            pred == |l: Seq<u8>| is_marker_start(l),
            sp_marker@ == hash_sp_templater(),
            ns_marker@ == hash_templater(),
            views(raw@) == trimmed.take(m as int).filter(pred),
        decreases k - m,
    {
        let t = trim_bytes(lines[m].as_slice());
        let keep = starts_with_bytes(t.as_slice(), sp_marker.as_slice())
            || starts_with_bytes(t.as_slice(), ns_marker.as_slice());
        proof {
            reveal(Seq::filter);
            assert(trimmed.take(m + 1).drop_last() =~= trimmed.take(m as int));
            assert(trimmed.take(m + 1).last() == trim(block[m as int]));
        }
        let ghost old_views = views(raw@);
        if keep {
            raw.push(t);
            proof {
                assert(views(raw@) =~= old_views.push(trim(block[m as int])));
                assert(views(raw@) =~= trimmed.take(m + 1).filter(pred));
            }
        } else {
            proof {
                assert(views(raw@) =~= trimmed.take(m + 1).filter(pred));
            }
        }
        m = m + 1;
    }
    proof {
        assert(trimmed.take(k as int) =~= trimmed);
        assert(spec_raw_header(file_contents@) == trimmed.filter(pred));
    }
    if raw.len() == 0 {
        None
    } else {
        Some(raw)
    }
}

/// Length of the maximal prefix of word bytes (letters, digits,
/// underscores).
pub open spec fn word_prefix_len(s: Seq<u8>) -> nat
    decreases s.len(),
{
    if s.len() > 0 && is_word_byte(s[0]) {
        1 + word_prefix_len(s.drop_first())
    } else {
        0
    }
}

proof fn lemma_word_prefix_from_scan(s: Seq<u8>, r: int)
    requires
        0 <= r <= s.len(),
        forall|k: int| 0 <= k < r ==> is_word_byte(s[k]),
        r == s.len() || !is_word_byte(s[r]),
    ensures
        r == word_prefix_len(s),
    decreases r,
{
    if r > 0 {
        lemma_word_prefix_from_scan(s.drop_first(), r - 1);
    }
}

/// What follows the `=` of a header line, with one optional leading space
/// removed.
pub open spec fn after_eq(v: Seq<u8>) -> Seq<u8> {
    if v.len() >= 1 && v[0] == ' ' as u8 {
        v.skip(1)
    } else {
        v
    }
}

/// The key/value pair contributed by one trimmed header line, if it has the
/// form `#`, optional space, `templater.`, a run of word bytes (the key),
/// optional space, `=`, optional space, then the value: the rest of the
/// line.
pub open spec fn parse_header_line(l: Seq<u8>) -> Option<(Seq<u8>, Seq<u8>)> {
    if l.len() == 0 || l[0] != '#' as u8 {
        None
    } else {
        let p: int = if l.len() >= 2 && l[1] == ' ' as u8 {
            2
        } else {
            1
        };
        let t = l.skip(p);
        if !starts_with(t, templater_dot()) {
            None
        } else {
            let u = t.skip(10);
            let w = word_prefix_len(u) as int;
            let key = u.take(w);
            let v = u.skip(w);
            if v.len() >= 1 && v[0] == '=' as u8 {
                Some((key, after_eq(v.skip(1))))
            } else if v.len() >= 2 && v[0] == ' ' as u8 && v[1] == '=' as u8 {
                Some((key, after_eq(v.skip(2))))
            } else {
                None
            }
        }
    }
}

/// The key/value pair of one trimmed header line, if it matches the header
/// line pattern.
pub fn parse_header_line_exec(l: &[u8]) -> (r: Option<(Vec<u8>, Vec<u8>)>)
    ensures
        match r {
            Some(kv) => parse_header_line(l@) == Some((kv.0@, kv.1@)),
            None => parse_header_line(l@) is None,
        },
{
    if l.len() == 0 || l[0] != '#' as u8 {
        return None;
    }
    let p: usize = if l.len() >= 2 && l[1] == ' ' as u8 {
        2
    } else {
        1
    };
    let t = slice_subrange(l, p, l.len());
    proof {
        assert(t@ =~= l@.skip(p as int));
    }
    let marker = lit_templater_dot();
    if !starts_with_bytes(t, marker.as_slice()) {
        return None;
    }
    let u = slice_subrange(t, 10, t.len());
    proof {
        assert(u@ =~= t@.skip(10));
    }
    let mut w: usize = 0;
    while w < u.len() && is_word_byte_exec(u[w])
        invariant
            0 <= w <= u@.len(),
            forall|k: int| 0 <= k < w ==> is_word_byte(u@[k]),
        decreases u@.len() - w,
    {
        w = w + 1;
    }
    proof {
        lemma_word_prefix_from_scan(u@, w as int);
    }
    let key = slice_to_vec(slice_subrange(u, 0, w));
    let v = slice_subrange(u, w, u.len());
    proof {
        assert(key@ =~= u@.take(w as int));
        assert(v@ =~= u@.skip(w as int));
    }
    if v.len() >= 1 && v[0] == '=' as u8 {
        let rest = slice_subrange(v, 1, v.len());
        proof {
            assert(rest@ =~= v@.skip(1));
        }
        Some((key, after_eq_exec(rest)))
    } else if v.len() >= 2 && v[0] == ' ' as u8 && v[1] == '=' as u8 {
        let rest = slice_subrange(v, 2, v.len());
        proof {
            assert(rest@ =~= v@.skip(2));
        }
        Some((key, after_eq_exec(rest)))
    } else {
        None
    }
}

fn after_eq_exec(v: &[u8]) -> (r: Vec<u8>)
    ensures
        r@ == after_eq(v@),
{
    if v.len() >= 1 && v[0] == ' ' as u8 {
        let r = slice_to_vec(slice_subrange(v, 1, v.len()));
        proof {
            assert(r@ =~= v@.skip(1));
        }
        r
    } else {
        slice_to_vec(v)
    }
}

/// The mapping contributed by a list of trimmed raw header lines; a later
/// line binding the same key wins.
pub open spec fn spec_parse_header(lines: Seq<Seq<u8>>) -> Map<Seq<u8>, Seq<u8>>
    decreases lines.len(),
{
    if lines.len() == 0 {
        Map::empty()
    } else {
        match parse_header_line(lines.last()) {
            Some(kv) => spec_parse_header(lines.drop_last()).insert(kv.0, kv.1),
            None => spec_parse_header(lines.drop_last()),
        }
    }
}

/// A recoverable header problem.  Parsing is total, so this is never
/// produced, but a caller treats it as "no header found".
#[derive(Clone, Copy, Debug, PartialEq, Eq, Structural)]
pub enum HeaderParseError {
    Malformed,
}

/// Parse raw header lines into the header mapping.  Lines that do not match
/// the header pattern contribute nothing.
pub fn parse_header(header: &Vec<Vec<u8>>) -> (r: Result<StrMap, HeaderParseError>)
    ensures
        r is Ok,
        match r {
            Ok(m) => m@ == spec_parse_header(views(header@)),
            Err(_) => false,
        },
{
    let ghost all = views(header@);
    let mut m = StrMap::new();
    let mut i: usize = 0;
    while i < header.len()
        invariant
            all == views(header@),
            0 <= i <= header@.len(),
            m@ == spec_parse_header(all.take(i as int)),
        decreases header@.len() - i,
    {
        proof {
            assert(all.take(i + 1).drop_last() =~= all.take(i as int));
            assert(all.take(i + 1).last() == all[i as int]);
        }
        match parse_header_line_exec(header[i].as_slice()) {
            Some(kv) => {
                m.insert(kv.0, kv.1);
            },
            None => {},
        }
        i = i + 1;
    }
    proof {
        assert(all.take(header@.len() as int) =~= all);
    }
    Ok(m)
}

/// The header mapping of a whole document.
pub open spec fn spec_header_of(s: Seq<u8>) -> Map<Seq<u8>, Seq<u8>> {
    spec_parse_header(spec_raw_header(s))
}

/// Extract the header mapping from a document.  A document without header
/// lines yields the empty mapping; header problems never fail the caller.
pub fn get_header(file_contents: &[u8]) -> (r: StrMap)
    ensures
        r@ == spec_header_of(file_contents@),
{
    match get_raw_header(file_contents) {
        Some(raw) => {
            match parse_header(&raw) {
                Ok(m) => m,
                Err(_) => StrMap::new(),
            }
        },
        None => {
            let r = StrMap::new();
            proof {
                assert(spec_raw_header(file_contents@) =~= Seq::<Seq<u8>>::empty());
            }
            r
        },
    }
}


/// A well-formed header key: a non-empty run of word bytes.
pub open spec fn wf_header_key(k: Seq<u8>) -> bool {
    k.len() > 0 && forall|i: int| 0 <= i < k.len() ==> is_word_byte(#[trigger] k[i])
}

/// A well-formed header value: non-empty, without surrounding whitespace
/// and without a newline.
pub open spec fn wf_header_value(v: Seq<u8>) -> bool {
    v.len() > 0 && !is_ws(v[0]) && !is_ws(v.last()) && forall|i: int|
        0 <= i < v.len() ==> #[trigger] v[i] != 10
}

/// The canonical header line `# templater.<key> = <value>`.
pub open spec fn header_line_of(k: Seq<u8>, v: Seq<u8>) -> Seq<u8> {
    seq!['#' as u8, ' ' as u8] + templater_dot() + k + seq![' ' as u8, '=' as u8, ' ' as u8] + v
}

pub open spec fn header_lines_of(keys: Seq<Seq<u8>>, vals: Seq<Seq<u8>>) -> Seq<Seq<u8>> {
    Seq::new(keys.len(), |i: int| header_line_of(keys[i], vals[i]))
}

/// A document made of canonical header lines followed by a body.
pub open spec fn header_doc_of(keys: Seq<Seq<u8>>, vals: Seq<Seq<u8>>, body: Seq<u8>) -> Seq<u8> {
    join_nl(header_lines_of(keys, vals)) + body
}

proof fn lemma_trim_identity(s: Seq<u8>)
    requires
        s.len() > 0,
        !is_ws(s[0]),
        !is_ws(s.last()),
    ensures
        trim(s) == s,
{
    assert(trim_start(s) == s);
    assert(trim_end(s) == s);
}

proof fn lemma_wf_line_shape(k: Seq<u8>, v: Seq<u8>)
    ensures
        ({
            let l = header_line_of(k, v);
            let kl = k.len() as int;
            let vl = v.len() as int;
            l.len() == 15 + kl + vl && l[0] == '#' as u8 && l[1] == ' ' as u8 && l.subrange(
                2,
                12,
            ) == templater_dot() && l.subrange(12, 12 + kl) == k && l.subrange(12 + kl, 15 + kl)
                == seq![' ' as u8, '=' as u8, ' ' as u8] && l.subrange(15 + kl, 15 + kl + vl) == v
        }),
{
    let l = header_line_of(k, v);
    let kl = k.len() as int;
    let vl = v.len() as int;
    assert(l.len() == 15 + kl + vl);
    assert(l.subrange(2, 12) =~= templater_dot());
    assert(l.subrange(12, 12 + kl) =~= k);
    assert(l.subrange(12 + kl, 15 + kl) =~= seq![' ' as u8, '=' as u8, ' ' as u8]);
    assert(l.subrange(15 + kl, 15 + kl + vl) =~= v);
}

proof fn lemma_wf_line_text(k: Seq<u8>, v: Seq<u8>)
    requires
        wf_header_key(k),
        wf_header_value(v),
    ensures
        ({
            let l = header_line_of(k, v);
            l.len() > 0 && (forall|i: int| 0 <= i < l.len() ==> #[trigger] l[i] != 10)
                && l.last() != 13
        }),
{
    let l = header_line_of(k, v);
    let kl = k.len() as int;
    lemma_wf_line_shape(k, v);
    assert forall|i: int| 0 <= i < l.len() implies #[trigger] l[i] != 10 by {
        if 2 <= i < 12 {
            assert(l[i] == l.subrange(2, 12)[i - 2]);
        } else if 12 <= i < 12 + kl {
            assert(l[i] == l.subrange(12, 12 + kl)[i - 12]);
            assert(is_word_byte(l[i]));
        } else if 12 + kl <= i < 15 + kl {
            assert(l[i] == l.subrange(12 + kl, 15 + kl)[i - 12 - kl]);
        } else if 15 + kl <= i {
            assert(l[i] == l.subrange(15 + kl, l.len() as int)[i - 15 - kl]);
        }
    }
    assert(l.last() == l.subrange(15 + kl, l.len() as int)[v.len() - 1]);
    assert(l.last() == v.last());
    assert(!is_ws(l.last()));
}

proof fn lemma_wf_line_marker(k: Seq<u8>, v: Seq<u8>)
    requires
        wf_header_key(k),
        wf_header_value(v),
    ensures
        ({
            let l = header_line_of(k, v);
            trim(l) == l && is_header_line(l) && is_marker_start(l)
        }),
{
    let l = header_line_of(k, v);
    let kl = k.len() as int;
    lemma_wf_line_shape(k, v);
    assert(l.last() == l.subrange(15 + kl, l.len() as int)[v.len() - 1]);
    assert(l.last() == v.last());
    lemma_trim_identity(l);
    assert(contains_at(l, templater_dot(), 2));
    assert(contains_seq(l, templater_dot()));
    assert(is_header_line(l));
    assert(l.subrange(0, 11) =~= hash_sp_templater());
    assert(is_marker_start(l));
}

#[verifier::rlimit(60)]
proof fn lemma_wf_line_parse(k: Seq<u8>, v: Seq<u8>)
    requires
        wf_header_key(k),
        wf_header_value(v),
    ensures
        parse_header_line(header_line_of(k, v)) == Some((k, v)),
{
    let l = header_line_of(k, v);
    let kl = k.len() as int;
    lemma_wf_line_shape(k, v);
    let t = l.skip(2);
    assert(t.subrange(0, 10) =~= templater_dot());
    assert(starts_with(t, templater_dot()));
    let u = t.skip(10);
    assert(u =~= k + seq![' ' as u8, '=' as u8, ' ' as u8] + v);
    assert forall|j: int| 0 <= j < kl implies is_word_byte(u[j]) by {
        assert(u[j] == k[j]);
    }
    assert(u[kl] == ' ' as u8);
    assert(!is_word_byte(' ' as u8));
    lemma_word_prefix_from_scan(u, kl);
    assert(u.take(kl) =~= k);
    let vp = u.skip(kl);
    assert(vp =~= seq![' ' as u8, '=' as u8, ' ' as u8] + v);
    assert(vp[0] == ' ' as u8 && vp[1] == '=' as u8);
    assert(vp.skip(2) =~= seq![' ' as u8] + v);
    assert(after_eq(vp.skip(2)) =~= v);
    assert(parse_header_line(l) == Some((u.take(kl), after_eq(vp.skip(2)))));
    assert(parse_header_line(l) == Some((k, v)));
}

proof fn lemma_wf_line_facts(k: Seq<u8>, v: Seq<u8>)
    requires
        wf_header_key(k),
        wf_header_value(v),
    ensures
        ({
            let l = header_line_of(k, v);
            l.len() > 0 && (forall|i: int| 0 <= i < l.len() ==> #[trigger] l[i] != 10)
                && l.last() != 13 && trim(l) == l && is_header_line(l) && is_marker_start(l)
                && parse_header_line(l) == Some((k, v))
        }),
{
    lemma_wf_line_text(k, v);
    lemma_wf_line_marker(k, v);
    lemma_wf_line_parse(k, v);
}

proof fn lemma_lines_of_join(ls: Seq<Seq<u8>>, rest: Seq<u8>)
    requires
        forall|i: int, j: int|
            0 <= i < ls.len() && 0 <= j < ls[i].len() ==> #[trigger] ls[i][j] != 10,
        forall|i: int| 0 <= i < ls.len() ==> (ls[i].len() == 0 || (#[trigger] ls[i]).last() != 13),
    ensures
        spec_lines(join_nl(ls) + rest) == ls + spec_lines(rest),
    decreases ls.len(),
{
    if ls.len() == 0 {
        assert(join_nl(ls) + rest =~= rest);
        assert(ls + spec_lines(rest) =~= spec_lines(rest));
    } else {
        let l0 = ls[0];
        let d = ls.drop_first();
        let tail_doc = join_nl(d) + rest;
        let s = join_nl(ls) + rest;
        assert(s =~= l0 + seq![10u8] + tail_doc);
        assert forall|kk: int| 0 <= kk < l0.len() implies s[kk] != 10 by {
            assert(s[kk] == l0[kk]);
            assert(ls[0][kk] != 10);
        }
        assert(s[l0.len() as int] == 10);
        lemma_first_nl_from_scan(s, l0.len() as int);
        assert(s.take(l0.len() as int) =~= l0);
        assert(strip_cr(l0) == l0);
        assert(s.skip(l0.len() + 1 as int) =~= tail_doc);
        assert forall|i: int, j: int|
            0 <= i < d.len() && 0 <= j < d[i].len() implies #[trigger] d[i][j] != 10 by {
            assert(d[i] == ls[i + 1]);
            assert(ls[i + 1][j] != 10);
        }
        assert forall|i: int|
            0 <= i < d.len() implies (d[i].len() == 0 || (#[trigger] d[i]).last() != 13) by {
            assert(d[i] == ls[i + 1]);
        }
        lemma_lines_of_join(d, rest);
        assert(spec_lines(s) == seq![l0] + (d + spec_lines(rest)));
        assert(seq![l0] + (d + spec_lines(rest)) =~= ls + spec_lines(rest));
    }
}

proof fn lemma_block_split(ls1: Seq<Seq<u8>>, ls2: Seq<Seq<u8>>)
    requires
        forall|i: int| 0 <= i < ls1.len() ==> is_header_line(#[trigger] ls1[i]),
        ls2.len() == 0 || !is_header_line(ls2[0]),
    ensures
        drop_header_lines(ls1 + ls2) == ls2,
        header_block(ls1 + ls2) == ls1,
    decreases ls1.len(),
{
    if ls1.len() == 0 {
        assert(ls1 + ls2 =~= ls2);
        if ls2.len() == 0 {
            assert(ls2 =~= Seq::<Seq<u8>>::empty());
            assert(drop_header_lines(ls2) =~= ls2);
            assert(header_block(ls2) =~= ls1);
        } else {
            assert(drop_header_lines(ls2) == ls2);
            assert(header_block(ls2) =~= ls1);
        }
    } else {
        assert((ls1 + ls2)[0] == ls1[0]);
        assert(is_header_line((ls1 + ls2)[0]));
        assert((ls1 + ls2).drop_first() =~= ls1.drop_first() + ls2);
        assert forall|i: int|
            0 <= i < ls1.drop_first().len() implies is_header_line(
            #[trigger] ls1.drop_first()[i],
        ) by {
            assert(ls1.drop_first()[i] == ls1[i + 1]);
        }
        lemma_block_split(ls1.drop_first(), ls2);
        assert(drop_header_lines(ls1 + ls2) == ls2);
        assert(header_block(ls1 + ls2) == seq![ls1[0]] + ls1.drop_first());
        assert(seq![ls1[0]] + ls1.drop_first() =~= ls1);
    }
}

proof fn lemma_raw_header_identity(ls: Seq<Seq<u8>>)
    requires
        forall|i: int| 0 <= i < ls.len() ==> trim(#[trigger] ls[i]) == ls[i],
        forall|i: int| 0 <= i < ls.len() ==> is_marker_start(#[trigger] ls[i]),
    ensures
        ls.map_values(|l: Seq<u8>| trim(l)).filter(|l: Seq<u8>| is_marker_start(l)) == ls,
    decreases ls.len(),
{
    reveal(Seq::filter);
    let mapped = ls.map_values(|l: Seq<u8>| trim(l));
    assert(mapped =~= ls);
    let pred = |l: Seq<u8>| is_marker_start(l);
    if ls.len() == 0 {
        assert(ls.filter(pred) =~= ls);
    } else {
        let d = ls.drop_last();
        assert forall|i: int| 0 <= i < d.len() implies trim(#[trigger] d[i]) == d[i] by {
            assert(d[i] == ls[i]);
        }
        assert forall|i: int| 0 <= i < d.len() implies is_marker_start(#[trigger] d[i]) by {
            assert(d[i] == ls[i]);
        }
        lemma_raw_header_identity(d);
        assert(d.map_values(|l: Seq<u8>| trim(l)) =~= d);
        assert(d.filter(pred) == d);
        assert(pred(ls.last()));
        assert(ls.filter(pred) == d.filter(pred).push(ls.last()));
        assert(d.push(ls.last()) =~= ls);
    }
    assert(ls.filter(pred) == ls);
    assert(mapped.filter(pred) == ls);
}

proof fn lemma_parse_header_of_wf_lines(keys: Seq<Seq<u8>>, vals: Seq<Seq<u8>>)
    requires
        keys.len() == vals.len(),
        forall|i: int| 0 <= i < keys.len() ==> wf_header_key(#[trigger] keys[i]),
        forall|i: int| 0 <= i < vals.len() ==> wf_header_value(#[trigger] vals[i]),
        forall|i: int, j: int| 0 <= i < j < keys.len() ==> keys[i] != keys[j],
    ensures
        spec_parse_header(header_lines_of(keys, vals)).dom() == keys.to_set(),
        forall|i: int|
            0 <= i < keys.len() ==> spec_parse_header(header_lines_of(keys, vals))[
                #[trigger] keys[i]
            ] == vals[i],
    decreases keys.len(),
{
    let lines = header_lines_of(keys, vals);
    if keys.len() == 0 {
        assert(lines =~= Seq::<Seq<u8>>::empty());
        assert(keys.to_set() =~= Set::<Seq<u8>>::empty());
        assert(spec_parse_header(lines).dom() =~= keys.to_set());
    } else {
        let n = keys.len() - 1;
        let dk = keys.drop_last();
        let dv = vals.drop_last();
        assert(lines.drop_last() =~= header_lines_of(dk, dv));
        assert forall|i: int| 0 <= i < dk.len() implies wf_header_key(#[trigger] dk[i]) by {
            assert(dk[i] == keys[i]);
        }
        assert forall|i: int| 0 <= i < dv.len() implies wf_header_value(#[trigger] dv[i]) by {
            assert(dv[i] == vals[i]);
        }
        assert(forall|i: int, j: int| 0 <= i < j < dk.len() ==> dk[i] != dk[j]);
        lemma_parse_header_of_wf_lines(dk, dv);
        lemma_wf_line_facts(keys[n], vals[n]);
        assert(lines.last() == header_line_of(keys[n], vals[n]));
        let m1 = spec_parse_header(lines.drop_last());
        assert(spec_parse_header(lines) == m1.insert(keys[n], vals[n]));
        lemma_to_set_push(dk, keys[n]);
        assert(dk.push(keys[n]) =~= keys);
        assert(spec_parse_header(lines).dom() =~= keys.to_set());
        assert forall|i: int|
            0 <= i < keys.len() implies spec_parse_header(lines)[#[trigger] keys[i]]
            == vals[i] by {
            if i < n {
                assert(keys[i] != keys[n]);
                assert(dk[i] == keys[i] && dv[i] == vals[i]);
                assert(m1[dk[i]] == dv[i]);
            }
        }
    }
}

/// The header parser recovers well-formed metadata exactly.  A document
/// whose header block consists of the lines `# templater.<key> = <value>`
/// for the given distinct keys, followed by a body whose first line is not
/// header-eligible, yields precisely those key/value pairs; the extracted
/// body is the original body's lines, each normalized to end in one
/// newline.
pub proof fn lemma_header_round_trip(keys: Seq<Seq<u8>>, vals: Seq<Seq<u8>>, body: Seq<u8>)
    requires
        keys.len() == vals.len(),
        forall|i: int| 0 <= i < keys.len() ==> wf_header_key(#[trigger] keys[i]),
        forall|i: int| 0 <= i < vals.len() ==> wf_header_value(#[trigger] vals[i]),
        forall|i: int, j: int| 0 <= i < j < keys.len() ==> keys[i] != keys[j],
        body.len() == 0 || !is_header_line(spec_lines(body)[0]),
    ensures
        spec_header_of(header_doc_of(keys, vals, body)).dom() == keys.to_set(),
        forall|i: int|
            0 <= i < keys.len() ==> spec_header_of(header_doc_of(keys, vals, body))[
                #[trigger] keys[i]
            ] == vals[i],
        spec_without_header(header_doc_of(keys, vals, body)) == join_nl(spec_lines(body)),
{
    let lines = header_lines_of(keys, vals);
    let s = header_doc_of(keys, vals, body);
    assert forall|i: int, j: int|
        0 <= i < lines.len() && 0 <= j < lines[i].len() implies #[trigger] lines[i][j] != 10 by {
        lemma_wf_line_facts(keys[i], vals[i]);
        assert(lines[i] == header_line_of(keys[i], vals[i]));
    }
    assert forall|i: int|
        0 <= i < lines.len() implies (lines[i].len() == 0 || (#[trigger] lines[i]).last()
        != 13) by {
        lemma_wf_line_facts(keys[i], vals[i]);
    }
    lemma_lines_of_join(lines, body);
    assert(spec_lines(s) == lines + spec_lines(body));
    assert forall|i: int| 0 <= i < lines.len() implies is_header_line(#[trigger] lines[i]) by {
        lemma_wf_line_facts(keys[i], vals[i]);
    }
    if body.len() > 0 {
        assert(spec_lines(body).len() > 0);
    } else {
        assert(spec_lines(body) =~= Seq::<Seq<u8>>::empty());
    }
    lemma_block_split(lines, spec_lines(body));
    assert(drop_header_lines(spec_lines(s)) == spec_lines(body));
    assert(spec_without_header(s) == join_nl(spec_lines(body)));
    assert forall|i: int| 0 <= i < lines.len() implies trim(#[trigger] lines[i]) == lines[i] by {
        lemma_wf_line_facts(keys[i], vals[i]);
    }
    assert forall|i: int| 0 <= i < lines.len() implies is_marker_start(#[trigger] lines[i]) by {
        lemma_wf_line_facts(keys[i], vals[i]);
    }
    lemma_raw_header_identity(lines);
    assert(header_block(spec_lines(s)) == lines);
    assert(spec_raw_header(s) == lines);
    lemma_parse_header_of_wf_lines(keys, vals);
}

/// The empty document yields the empty header and the empty body.
pub proof fn lemma_empty_document()
    ensures
        spec_header_of(Seq::<u8>::empty()) == Map::<Seq<u8>, Seq<u8>>::empty(),
        spec_without_header(Seq::<u8>::empty()) == Seq::<u8>::empty(),
{
    reveal(Seq::filter);
    let e = Seq::<u8>::empty();
    assert(spec_lines(e) =~= Seq::<Seq<u8>>::empty());
    assert(drop_header_lines(spec_lines(e)) =~= Seq::<Seq<u8>>::empty());
    assert(header_block(spec_lines(e)) =~= Seq::<Seq<u8>>::empty());
    assert(header_block(spec_lines(e)).map_values(|l: Seq<u8>| trim(l)) =~= Seq::<
        Seq<u8>,
    >::empty());
    assert(spec_raw_header(e).len() == 0);
    assert(spec_raw_header(e) =~= Seq::<Seq<u8>>::empty());
}

/// A document whose first line is not header-eligible keeps every line:
/// the header is empty and the body is the whole document, each line
/// normalized to end in one newline.
pub proof fn lemma_no_header_prefix(s: Seq<u8>)
    requires
        s.len() > 0,
        !is_header_line(spec_lines(s)[0]),
    ensures
        spec_header_of(s) == Map::<Seq<u8>, Seq<u8>>::empty(),
        spec_without_header(s) == join_nl(spec_lines(s)),
{
    reveal(Seq::filter);
    let ls = spec_lines(s);
    assert(ls.len() > 0);
    assert(drop_header_lines(ls) == ls);
    assert(header_block(ls) =~= Seq::<Seq<u8>>::empty());
    assert(header_block(ls).map_values(|l: Seq<u8>| trim(l)) =~= Seq::<Seq<u8>>::empty());
    assert(spec_raw_header(s).len() == 0);
    assert(spec_raw_header(s) =~= Seq::<Seq<u8>>::empty());
}

} // verus!
