//! The grammar of the fla surface syntax and its concrete parser.
//!
//! A document is a whitespace-separated sequence of pairs `key { body }`.
//! A key is one or more segments, each literal text or a cloze `{{ ... }}`.
//! A body is a sequence of values: nodes `tag { text }`, where `tag` is one
//! of the seven part-of-speech tokens, or free-text runs.  The spec functions
//! here are the grammar; the executable parser is proved to decide it.

use vstd::prelude::*;
use crate::ast::Speech;
use crate::ast::speech_token;
use crate::cst::Cst;
use crate::cst::PairCst;
use crate::cst::PairCstV;
use crate::cst::SegCst;
use crate::cst::SegCstV;
use crate::cst::ValueCst;
use crate::cst::ValueCstV;
use crate::text::is_ws;
use crate::text::is_ws_exec;
use crate::text::lemma_skip_ws;
use crate::text::lemma_skip_ws_exact;
use crate::text::skip_ws;
use crate::text::chars_range_to_string;
use crate::text::str_to_chars;

verus! {

/// A structured syntax error: the position (in characters) where the
/// grammar stopped accepting the input.
#[derive(Clone, Copy, PartialEq, Eq, Structural, Debug)]
pub struct SyntaxError {
    pub pos: usize,
}

/// First position at or after `i` that holds a brace (or the end).
pub open spec fn scan_plain(s: Seq<char>, i: int) -> int
    decreases s.len() - i,
{
    if i < 0 || i >= s.len() {
        i
    } else if s[i] == '{' || s[i] == '}' {
        i
    } else {
        scan_plain(s, i + 1)
    }
}

pub proof fn lemma_scan_plain(s: Seq<char>, i: int)
    requires
        0 <= i <= s.len(),
    ensures
        i <= scan_plain(s, i) <= s.len(),
        forall|k: int| i <= k < scan_plain(s, i) ==> s[k] != '{' && s[k] != '}',
        scan_plain(s, i) < s.len() ==> s[scan_plain(s, i)] == '{' || s[scan_plain(s, i)] == '}',
    decreases s.len() - i,
{
    if i < s.len() && s[i] != '{' && s[i] != '}' {
        lemma_scan_plain(s, i + 1);
    }
}

pub proof fn lemma_scan_plain_exact(s: Seq<char>, i: int, j: int)
    requires
        0 <= i <= j <= s.len(),
        forall|k: int| i <= k < j ==> s[k] != '{' && s[k] != '}',
        j == s.len() || s[j] == '{' || s[j] == '}',
    ensures
        scan_plain(s, i) == j,
    decreases j - i,
{
    if i < j {
        lemma_scan_plain_exact(s, i + 1, j);
    }
}

/// The token `t` stands at position `i` of `s`.
pub open spec fn match_at(s: Seq<char>, i: int, t: Seq<char>) -> bool {
    0 <= i && i + t.len() <= s.len() && s.subrange(i, i + t.len() as int) == t
}

/// The part-of-speech token standing at position `i`, if any.
/// No token is a prefix of another, so at most one can match.
pub open spec fn tok_at(s: Seq<char>, i: int) -> Option<Speech> {
    if match_at(s, i, speech_token(Speech::Adj)) {
        Some(Speech::Adj)
    } else if match_at(s, i, speech_token(Speech::Adv)) {
        Some(Speech::Adv)
    } else if match_at(s, i, speech_token(Speech::Prep)) {
        Some(Speech::Prep)
    } else if match_at(s, i, speech_token(Speech::Pron)) {
        Some(Speech::Pron)
    } else if match_at(s, i, speech_token(Speech::N)) {
        Some(Speech::N)
    } else if match_at(s, i, speech_token(Speech::V)) {
        Some(Speech::V)
    } else if match_at(s, i, speech_token(Speech::O)) {
        Some(Speech::O)
    } else {
        None
    }
}

/// A node begins at `i`: a tag token, optional whitespace, then `{`.
pub open spec fn node_head_at(s: Seq<char>, i: int) -> bool {
    match tok_at(s, i) {
        Some(sp) => {
            let j = skip_ws(s, i + speech_token(sp).len() as int);
            j < s.len() && s[j] == '{'
        },
        None => false,
    }
}

/// End of a free-text run: first brace or node head at or after `i`
/// (or the end).
pub open spec fn scan_vtext(s: Seq<char>, i: int) -> int
    decreases s.len() - i,
{
    if i < 0 || i >= s.len() {
        i
    } else if s[i] == '{' || s[i] == '}' || node_head_at(s, i) {
        i
    } else {
        scan_vtext(s, i + 1)
    }
}

pub proof fn lemma_scan_vtext(s: Seq<char>, i: int)
    requires
        0 <= i <= s.len(),
    ensures
        i <= scan_vtext(s, i) <= s.len(),
        forall|k: int|
            i <= k < scan_vtext(s, i) ==> s[k] != '{' && s[k] != '}' && !node_head_at(s, k),
        scan_vtext(s, i) < s.len() ==> s[scan_vtext(s, i)] == '{' || s[scan_vtext(s, i)] == '}'
            || node_head_at(s, scan_vtext(s, i)),
    decreases s.len() - i,
{
    if i < s.len() && s[i] != '{' && s[i] != '}' && !node_head_at(s, i) {
        lemma_scan_vtext(s, i + 1);
    }
}

pub proof fn lemma_scan_vtext_exact(s: Seq<char>, i: int, j: int)
    requires
        0 <= i <= j <= s.len(),
        forall|k: int| i <= k < j ==> s[k] != '{' && s[k] != '}' && !node_head_at(s, k),
        j == s.len() || s[j] == '{' || s[j] == '}' || node_head_at(s, j),
    ensures
        scan_vtext(s, i) == j,
    decreases j - i,
{
    if i < j {
        lemma_scan_vtext_exact(s, i + 1, j);
    }
}

/// Key segments from `i` up to the single `{` that opens the body.
/// `None` is a syntax error (end of input, stray `}`, or a bad cloze).
pub open spec fn parse_segs(s: Seq<char>, i: int) -> Option<(Seq<SegCstV>, int)>
    decreases s.len() - i,
    via parse_segs_dec
{
    if i < 0 || i >= s.len() {
        None
    } else if s[i] == '}' {
        None
    } else if s[i] == '{' {
        if i + 1 < s.len() && s[i + 1] == '{' {
            let e = scan_plain(s, i + 2);
            if e + 1 < s.len() && s[e] == '}' && s[e + 1] == '}' {
                match parse_segs(s, e + 2) {
                    None => None,
                    Some((rest, j)) => Some(
                        (seq![SegCstV::Cloze(s.subrange(i + 2, e))] + rest, j),
                    ),
                }
            } else {
                None
            }
        } else {
            Some((Seq::empty(), i))
        }
    } else {
        let e = scan_plain(s, i);
        match parse_segs(s, e) {
            None => None,
            Some((rest, j)) => Some((seq![SegCstV::Text(s.subrange(i, e))] + rest, j)),
        }
    }
}

#[via_fn]
proof fn parse_segs_dec(s: Seq<char>, i: int) {
    if 0 <= i < s.len() {
        if s[i] == '{' {
            if i + 1 < s.len() && s[i + 1] == '{' {
                lemma_scan_plain(s, i + 2);
            }
        } else if s[i] != '}' {
            lemma_scan_plain(s, i);
        }
    }
}

/// Body values from `i` up to (not including) the closing `}` of the pair.
/// `None` is a syntax error (end of input before `}`, or a stray `{`).
pub open spec fn parse_values(s: Seq<char>, i: int) -> Option<(Seq<ValueCstV>, int)>
    decreases s.len() - i,
    via parse_values_dec
{
    if i < 0 || i >= s.len() {
        None
    } else if s[i] == '}' {
        Some((Seq::empty(), i))
    } else if node_head_at(s, i) {
        let sp = tok_at(s, i)->Some_0;
        let j = skip_ws(s, i + speech_token(sp).len() as int);
        let e = scan_plain(s, j + 1);
        if e < s.len() && s[e] == '}' {
            match parse_values(s, e + 1) {
                None => None,
                Some((rest, k)) => Some(
                    (seq![ValueCstV::Node(speech_token(sp), s.subrange(j + 1, e))] + rest, k),
                ),
            }
        } else {
            None
        }
    } else if s[i] == '{' {
        None
    } else {
        let e = scan_vtext(s, i);
        match parse_values(s, e) {
            None => None,
            Some((rest, k)) => Some((seq![ValueCstV::Text(s.subrange(i, e))] + rest, k)),
        }
    }
}

#[via_fn]
proof fn parse_values_dec(s: Seq<char>, i: int) {
    if 0 <= i < s.len() && s[i] != '}' {
        if node_head_at(s, i) {
            let sp = tok_at(s, i)->Some_0;
            lemma_skip_ws(s, i + speech_token(sp).len() as int);
            let j = skip_ws(s, i + speech_token(sp).len() as int);
            lemma_scan_plain(s, j + 1);
        } else if s[i] != '{' {
            lemma_scan_vtext(s, i);
        }
    }
}

/// One pair `key { body }` starting at `i`; on success, the position just
/// after the closing brace.  A key whose grammar produced no segment at all
/// is refused.
pub open spec fn parse_pair(s: Seq<char>, i: int) -> Option<(PairCstV, int)> {
    match parse_segs(s, i) {
        None => None,
        Some((segs, j)) => if segs.len() == 0 {
            None
        } else {
            match parse_values(s, j + 1) {
                None => None,
                Some((vals, k)) => Some((PairCstV { key: segs, value: vals }, k + 1)),
            }
        },
    }
}

pub proof fn lemma_parse_segs_bounds(s: Seq<char>, i: int)
    requires
        0 <= i <= s.len(),
    ensures
        parse_segs(s, i) is Some ==> {
            let (segs, j) = parse_segs(s, i)->Some_0;
            &&& i <= j < s.len()
            &&& s[j] == '{'
            &&& (segs.len() > 0 ==> j > i)
        },
    decreases s.len() - i,
{
    if 0 <= i < s.len() && s[i] != '}' {
        if s[i] == '{' {
            if i + 1 < s.len() && s[i + 1] == '{' {
                lemma_scan_plain(s, i + 2);
                let e = scan_plain(s, i + 2);
                if e + 1 < s.len() && s[e] == '}' && s[e + 1] == '}' {
                    lemma_parse_segs_bounds(s, e + 2);
                }
            }
        } else {
            lemma_scan_plain(s, i);
            let e = scan_plain(s, i);
            lemma_parse_segs_bounds(s, e);
        }
    }
}

pub proof fn lemma_parse_values_bounds(s: Seq<char>, i: int)
    requires
        0 <= i <= s.len(),
    ensures
        parse_values(s, i) is Some ==> {
            let (vals, k) = parse_values(s, i)->Some_0;
            &&& i <= k < s.len()
            &&& s[k] == '}'
        },
    decreases s.len() - i,
{
    if 0 <= i < s.len() && s[i] != '}' {
        if node_head_at(s, i) {
            let sp = tok_at(s, i)->Some_0;
            lemma_skip_ws(s, i + speech_token(sp).len() as int);
            let j = skip_ws(s, i + speech_token(sp).len() as int);
            lemma_scan_plain(s, j + 1);
            let e = scan_plain(s, j + 1);
            if e < s.len() && s[e] == '}' {
                lemma_parse_values_bounds(s, e + 1);
            }
        } else if s[i] != '{' {
            lemma_scan_vtext(s, i);
            let e = scan_vtext(s, i);
            lemma_parse_values_bounds(s, e);
        }
    }
}

pub proof fn lemma_parse_pair_bounds(s: Seq<char>, i: int)
    requires
        0 <= i <= s.len(),
    ensures
        parse_pair(s, i) is Some ==> {
            let (p, j) = parse_pair(s, i)->Some_0;
            i < j <= s.len()
        },
{
    lemma_parse_segs_bounds(s, i);
    if parse_segs(s, i) is Some {
        let (segs, j) = parse_segs(s, i)->Some_0;
        if segs.len() > 0 {
            lemma_parse_values_bounds(s, j + 1);
        }
    }
}

/// The pairs of the document, starting at the non-whitespace position `i`.
pub open spec fn parse_pairs(s: Seq<char>, i: int) -> Option<Seq<PairCstV>>
    decreases s.len() - i,
    via parse_pairs_dec
{
    if i < 0 {
        None
    } else if i >= s.len() {
        Some(Seq::empty())
    } else {
        match parse_pair(s, i) {
            None => None,
            Some((p, j)) => match parse_pairs(s, skip_ws(s, j)) {
                None => None,
                Some(rest) => Some(seq![p] + rest),
            },
        }
    }
}

#[via_fn]
proof fn parse_pairs_dec(s: Seq<char>, i: int) {
    if 0 <= i < s.len() {
        lemma_parse_pair_bounds(s, i);
        if parse_pair(s, i) is Some {
            let (p, j) = parse_pair(s, i)->Some_0;
            lemma_skip_ws(s, j);
        }
    }
}

/// The whole grammar: a document is leading whitespace, then pairs
/// separated by whitespace, to the end of the input.
pub open spec fn spec_parse_cst(s: Seq<char>) -> Option<Seq<PairCstV>> {
    parse_pairs(s, skip_ws(s, 0))
}

fn skip_ws_exec(src: &Vec<char>, i: usize) -> (j: usize)
    requires
        i <= src@.len(),
    ensures
        j as int == skip_ws(src@, i as int),
        i <= j <= src@.len(),
{
    let n = src.len();
    let mut j: usize = i;
    while j < n && is_ws_exec(src[j])
        invariant
            i <= j <= n,
            n == src@.len(),
            forall|k: int| i <= k < j ==> is_ws(src@[k]),
        decreases n - j,
    {
        j = j + 1;
    }
    proof {
        lemma_skip_ws_exact(src@, i as int, j as int);
    }
    j
}

fn scan_plain_exec(src: &Vec<char>, i: usize) -> (e: usize)
    requires
        i <= src@.len(),
    ensures
        e as int == scan_plain(src@, i as int),
        i <= e <= src@.len(),
{
    let n = src.len();
    let mut j: usize = i;
    while j < n && src[j] != '{' && src[j] != '}'
        invariant
            i <= j <= n,
            n == src@.len(),
            forall|k: int| i <= k < j ==> src@[k] != '{' && src@[k] != '}',
        decreases n - j,
    {
        j = j + 1;
    }
    proof {
        lemma_scan_plain_exact(src@, i as int, j as int);
    }
    j
}

fn match1(src: &Vec<char>, i: usize, a: char) -> (r: bool)
    requires
        i <= src@.len(),
    ensures
        r == match_at(src@, i as int, seq![a]),
{
    let n = src.len();
    let ok = i < n && src[i] == a;
    proof {
        let t = seq![a];
        if ok {
            assert(src@.subrange(i as int, i + 1) =~= t);
        } else if match_at(src@, i as int, t) {
            assert(src@.subrange(i as int, i + 1)[0] == src@[i as int]);
        }
    }
    ok
}

fn match3(src: &Vec<char>, i: usize, a: char, b: char, c: char) -> (r: bool)
    requires
        i <= src@.len(),
    ensures
        r == match_at(src@, i as int, seq![a, b, c]),
{
    let n = src.len();
    let ok = n >= 3 && i <= n - 3 && src[i] == a && src[i + 1] == b && src[i + 2] == c;
    proof {
        let t = seq![a, b, c];
        if ok {
            assert(src@.subrange(i as int, i + 3) =~= t);
        } else if match_at(src@, i as int, t) {
            assert(src@.subrange(i as int, i + 3)[0] == src@[i as int]);
            assert(src@.subrange(i as int, i + 3)[1] == src@[i + 1]);
            assert(src@.subrange(i as int, i + 3)[2] == src@[i + 2]);
        }
    }
    ok
}

fn match4(src: &Vec<char>, i: usize, a: char, b: char, c: char, d: char) -> (r: bool)
    requires
        i <= src@.len(),
    ensures
        r == match_at(src@, i as int, seq![a, b, c, d]),
{
    let n = src.len();
    let ok = n >= 4 && i <= n - 4 && src[i] == a && src[i + 1] == b && src[i + 2] == c && src[i
        + 3] == d;
    proof {
        let t = seq![a, b, c, d];
        if ok {
            assert(src@.subrange(i as int, i + 4) =~= t);
        } else if match_at(src@, i as int, t) {
            assert(src@.subrange(i as int, i + 4)[0] == src@[i as int]);
            assert(src@.subrange(i as int, i + 4)[1] == src@[i + 1]);
            assert(src@.subrange(i as int, i + 4)[2] == src@[i + 2]);
            assert(src@.subrange(i as int, i + 4)[3] == src@[i + 3]);
        }
    }
    ok
}

fn tok_at_exec(src: &Vec<char>, i: usize) -> (r: Option<Speech>)
    requires
        i <= src@.len(),
    ensures
        r == tok_at(src@, i as int),
{
    if match3(src, i, 'a', 'd', 'j') {
        Some(Speech::Adj)
    } else if match3(src, i, 'a', 'd', 'v') {
        Some(Speech::Adv)
    } else if match4(src, i, 'p', 'r', 'e', 'p') {
        Some(Speech::Prep)
    } else if match4(src, i, 'p', 'r', 'o', 'n') {
        Some(Speech::Pron)
    } else if match1(src, i, 'n') {
        Some(Speech::N)
    } else if match1(src, i, 'v') {
        Some(Speech::V)
    } else if match1(src, i, 'o') {
        Some(Speech::O)
    } else {
        None
    }
}

fn speech_len(sp: Speech) -> (l: usize)
    ensures
        l as int == speech_token(sp).len(),
        1 <= l <= 4,
{
    match sp {
        Speech::N | Speech::V | Speech::O => 1,
        Speech::Adj | Speech::Adv => 3,
        Speech::Prep | Speech::Pron => 4,
    }
}

fn node_head_exec(src: &Vec<char>, i: usize) -> (r: bool)
    requires
        i <= src@.len(),
    ensures
        r == node_head_at(src@, i as int),
{
    let n = src.len();
    match tok_at_exec(src, i) {
        None => false,
        Some(sp) => {
            proof {
                assert(match_at(src@, i as int, speech_token(sp)));
            }
            let tl = speech_len(sp);
            proof {
                assert(i + tl <= n);
            }
            let j = skip_ws_exec(src, i + tl);
            j < n && src[j] == '{'
        },
    }
}

fn scan_vtext_exec(src: &Vec<char>, i: usize) -> (e: usize)
    requires
        i <= src@.len(),
    ensures
        e as int == scan_vtext(src@, i as int),
        i <= e <= src@.len(),
{
    let n = src.len();
    let mut j: usize = i;
    while j < n && src[j] != '{' && src[j] != '}' && !node_head_exec(src, j)
        invariant
            i <= j <= n,
            n == src@.len(),
            forall|k: int|
                i <= k < j ==> src@[k] != '{' && src@[k] != '}' && !node_head_at(src@, k),
        decreases n - j,
    {
        j = j + 1;
    }
    proof {
        lemma_scan_vtext_exact(src@, i as int, j as int);
    }
    j
}

fn parse_segs_exec(src: &Vec<char>, i: usize) -> (r: Result<(Vec<SegCst>, usize), usize>)
    requires
        i <= src@.len(),
    ensures
        r is Ok <==> parse_segs(src@, i as int) is Some,
        r is Ok ==> {
            let sv = parse_segs(src@, i as int)->Some_0;
            r->Ok_0.0.deep_view() == sv.0 && r->Ok_0.1 as int == sv.1 && r->Ok_0.1 <= src@.len()
        },
    decreases src@.len() - i,
{
    let n = src.len();
    if i >= n {
        return Err(i);
    }
    let c = src[i];
    if c == '}' {
        Err(i)
    } else if c == '{' {
        if i + 1 < n && src[i + 1] == '{' {
            let e = scan_plain_exec(src, i + 2);
            if e < n && e + 1 < n && src[e] == '}' && src[e + 1] == '}' {
                match parse_segs_exec(src, e + 2) {
                    Err(p) => Err(p),
                    Ok((mut rest, j)) => {
                        let seg = SegCst::Cloze(chars_range_to_string(src, i + 2, e));
                        rest.insert(0, seg);
                        proof {
                            let sv = parse_segs(src@, i as int)->Some_0;
                            assert(rest.deep_view() =~= sv.0);
                        }
                        Ok((rest, j))
                    },
                }
            } else {
                Err(e)
            }
        } else {
            let segs: Vec<SegCst> = Vec::new();
            proof {
                assert(segs.deep_view() =~= Seq::<SegCstV>::empty());
            }
            Ok((segs, i))
        }
    } else {
        let e = scan_plain_exec(src, i);
        proof {
            lemma_scan_plain(src@, i as int);
        }
        match parse_segs_exec(src, e) {
            Err(p) => Err(p),
            Ok((mut rest, j)) => {
                let seg = SegCst::Text(chars_range_to_string(src, i, e));
                rest.insert(0, seg);
                proof {
                    let sv = parse_segs(src@, i as int)->Some_0;
                    assert(rest.deep_view() =~= sv.0);
                }
                Ok((rest, j))
            },
        }
    }
}

fn parse_values_exec(src: &Vec<char>, i: usize) -> (r: Result<(Vec<ValueCst>, usize), usize>)
    requires
        i <= src@.len(),
    ensures
        r is Ok <==> parse_values(src@, i as int) is Some,
        r is Ok ==> {
            let sv = parse_values(src@, i as int)->Some_0;
            r->Ok_0.0.deep_view() == sv.0 && r->Ok_0.1 as int == sv.1 && r->Ok_0.1 < src@.len()
        },
    decreases src@.len() - i,
{
    let n = src.len();
    if i >= n {
        return Err(i);
    }
    if src[i] == '}' {
        let vals: Vec<ValueCst> = Vec::new();
        proof {
            assert(vals.deep_view() =~= Seq::<ValueCstV>::empty());
        }
        return Ok((vals, i));
    }
    if node_head_exec(src, i) {
        let sp = tok_at_exec(src, i).unwrap();
        proof {
            assert(match_at(src@, i as int, speech_token(sp)));
        }
        let tl = speech_len(sp);
        proof {
            assert(i + tl <= n);
        }
        let j = skip_ws_exec(src, i + tl);
        let e = scan_plain_exec(src, j + 1);
        if e < n && src[e] == '}' {
            match parse_values_exec(src, e + 1) {
                Err(p) => Err(p),
                Ok((mut rest, k)) => {
                    let tok = String::from_str(sp.as_str());
                    let txt = chars_range_to_string(src, j + 1, e);
                    rest.insert(0, ValueCst::Node(tok, txt));
                    proof {
                        let sv = parse_values(src@, i as int)->Some_0;
                        assert(rest.deep_view() =~= sv.0);
                    }
                    Ok((rest, k))
                },
            }
        } else {
            Err(if e < n {
                e
            } else {
                n
            })
        }
    } else if src[i] == '{' {
        Err(i)
    } else {
        let e = scan_vtext_exec(src, i);
        proof {
            lemma_scan_vtext(src@, i as int);
        }
        match parse_values_exec(src, e) {
            Err(p) => Err(p),
            Ok((mut rest, k)) => {
                rest.insert(0, ValueCst::Text(chars_range_to_string(src, i, e)));
                proof {
                    let sv = parse_values(src@, i as int)->Some_0;
                    assert(rest.deep_view() =~= sv.0);
                }
                Ok((rest, k))
            },
        }
    }
}

fn parse_pairs_exec(src: &Vec<char>, i: usize) -> (r: Result<Vec<PairCst>, usize>)
    requires
        i <= src@.len(),
    ensures
        r is Ok <==> parse_pairs(src@, i as int) is Some,
        r is Ok ==> r->Ok_0.deep_view() == parse_pairs(src@, i as int)->Some_0,
    decreases src@.len() - i,
{
    let n = src.len();
    if i >= n {
        let pairs: Vec<PairCst> = Vec::new();
        proof {
            assert(pairs.deep_view() =~= Seq::<PairCstV>::empty());
        }
        return Ok(pairs);
    }
    match parse_segs_exec(src, i) {
        Err(p) => Err(p),
        Ok((segs, j)) => {
            if segs.len() == 0 {
                return Err(i);
            }
            proof {
                lemma_parse_segs_bounds(src@, i as int);
            }
            match parse_values_exec(src, j + 1) {
                Err(p) => Err(p),
                Ok((vals, k)) => {
                    proof {
                        lemma_parse_values_bounds(src@, j + 1);
                    }
                    let pair = PairCst { key: segs, value: vals };
                    let i2 = skip_ws_exec(src, k + 1);
                    match parse_pairs_exec(src, i2) {
                        Err(p) => Err(p),
                        Ok(mut rest) => {
                            rest.insert(0, pair);
                            proof {
                                let sv = parse_pairs(src@, i as int)->Some_0;
                                assert(rest.deep_view() =~= sv);
                            }
                            Ok(rest)
                        },
                    }
                },
            }
        },
    }
}

/// Run the grammar over a source text: the concrete parse tree, or a
/// structured syntax error.  All-or-nothing: no partial tree comes back.
pub fn parse_concrete(input: &str) -> (r: Result<Cst, SyntaxError>)
    ensures
        r is Ok <==> spec_parse_cst(input@) is Some,
        r is Ok ==> r->Ok_0.deep_view() == spec_parse_cst(input@)->Some_0,
        r is Err ==> r->Err_0.pos <= input@.len(),
{
    let src = str_to_chars(input);
    let i0 = skip_ws_exec(&src, 0);
    match parse_pairs_exec(&src, i0) {
        Ok(cst) => Ok(cst),
        Err(p) => Err(
            SyntaxError {
                pos: if p <= src.len() {
                    p
                } else {
                    src.len()
                },
            },
        ),
    }
}

} // verus!
