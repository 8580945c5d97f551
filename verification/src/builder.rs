//! The AST builder: one pass over the concrete tree that trims text blocks,
//! drops key segments and free-text values that are empty once trimmed, and
//! maps tag tokens onto the closed `Speech` enumeration.

use vstd::prelude::*;
use crate::ast::Item;
use crate::ast::ItemV;
use crate::ast::Key;
use crate::ast::KeyV;
use crate::ast::Node;
use crate::ast::NodeV;
use crate::ast::Pair;
use crate::ast::PairV;
use crate::ast::Root;
use crate::ast::Speech;
use crate::ast::Value;
use crate::ast::ValueV;
use crate::ast::spec_speech_of;
use crate::ast::speech_token;
use crate::cst::Cst;
use crate::cst::PairCstV;
use crate::cst::SegCst;
use crate::cst::SegCstV;
use crate::cst::ValueCst;
use crate::cst::ValueCstV;
use crate::parser::SyntaxError;
use crate::parser::parse_concrete;
use crate::parser::parse_pair;
use crate::parser::parse_pairs;
use crate::parser::parse_segs;
use crate::parser::parse_values;
use crate::parser::spec_parse_cst;
use crate::text::spec_trim;
use crate::text::trim_str;
use crate::text::trim_string;

verus! {

/// What a raw key segment contributes to the cleaned key: its trimmed
/// payload under the same tag, or nothing when only whitespace is left.
pub open spec fn clean_seg(seg: SegCstV) -> Option<KeyV> {
    match seg {
        SegCstV::Text(s) => if spec_trim(s).len() == 0 {
            None
        } else {
            Some(KeyV::Text(spec_trim(s)))
        },
        SegCstV::Cloze(s) => if spec_trim(s).len() == 0 {
            None
        } else {
            Some(KeyV::Cloze(spec_trim(s)))
        },
    }
}

/// The cleaned key: segments in source order, empty ones absent.
pub open spec fn spec_clean_segs(segs: Seq<SegCstV>) -> Seq<KeyV>
    decreases segs.len(),
{
    if segs.len() == 0 {
        Seq::empty()
    } else {
        let rest = spec_clean_segs(segs.drop_first());
        match clean_seg(segs[0]) {
            None => rest,
            Some(k) => seq![k] + rest,
        }
    }
}

/// A raw value entry is well formed when a node's tag token is one of the
/// seven canonical tokens.  The grammar can produce no other token, so a
/// failure here is an internal invariant violation, not a user error.
pub open spec fn value_wf(v: ValueCstV) -> bool {
    match v {
        ValueCstV::Node(tok, _) => spec_speech_of(tok) is Some,
        ValueCstV::Text(_) => true,
    }
}

pub open spec fn pair_wf(p: PairCstV) -> bool {
    forall|k: int| 0 <= k < p.value.len() ==> value_wf(#[trigger] p.value[k])
}

pub open spec fn cst_wf(c: Seq<PairCstV>) -> bool {
    forall|k: int| 0 <= k < c.len() ==> pair_wf(#[trigger] c[k])
}

/// What a raw value entry contributes to the pair: a node keeps its tag and
/// its block-trimmed text; a free-text run is trimmed and dropped if empty.
pub open spec fn build_value(v: ValueCstV) -> Option<ValueV> {
    match v {
        ValueCstV::Node(tok, txt) => Some(
            ValueV::Node(NodeV { speech: spec_speech_of(tok)->Some_0, text: spec_trim(txt) }),
        ),
        ValueCstV::Text(s) => if spec_trim(s).len() == 0 {
            None
        } else {
            Some(ValueV::Text(spec_trim(s)))
        },
    }
}

pub open spec fn spec_build_values(vs: Seq<ValueCstV>) -> Seq<ValueV>
    decreases vs.len(),
{
    if vs.len() == 0 {
        Seq::empty()
    } else {
        let rest = spec_build_values(vs.drop_first());
        match build_value(vs[0]) {
            None => rest,
            Some(v) => seq![v] + rest,
        }
    }
}

pub open spec fn spec_build_pair(p: PairCstV) -> PairV {
    PairV { key: spec_clean_segs(p.key), value: spec_build_values(p.value) }
}

/// The typed AST of a well-formed concrete tree.
pub open spec fn spec_build_ast(c: Seq<PairCstV>) -> Seq<ItemV> {
    c.map_values(|p: PairCstV| ItemV::Pair(spec_build_pair(p)))
}

/// The composed parsing pipeline at the specification level.
pub open spec fn spec_parse(s: Seq<char>) -> Option<Seq<ItemV>> {
    match spec_parse_cst(s) {
        None => None,
        Some(c) => Some(spec_build_ast(c)),
    }
}

/// Trim a text span; `None` when nothing but whitespace is left.
pub fn clean_text<'a>(value: &'a str) -> (r: Option<&'a str>)
    ensures
        match r {
            Some(t) => spec_trim(value@).len() > 0 && t@ == spec_trim(value@),
            None => spec_trim(value@).len() == 0,
        },
{
    let t = trim_str(value);
    if t.is_empty() {
        None
    } else {
        Some(t)
    }
}

/// Map a tag token onto the `Speech` enumeration.
fn speech_of_exec(tok: &str) -> (r: Option<Speech>)
    ensures
        r == spec_speech_of(tok@),
{
    let n = tok.unicode_len();
    if n == 1 {
        let c = tok.get_char(0);
        let r = if c == 'n' {
            Some(Speech::N)
        } else if c == 'v' {
            Some(Speech::V)
        } else if c == 'o' {
            Some(Speech::O)
        } else {
            None
        };
        proof {
            if c == 'n' {
                assert(tok@ =~= speech_token(Speech::N));
            } else if c == 'v' {
                assert(tok@ =~= speech_token(Speech::V));
            } else if c == 'o' {
                assert(tok@ =~= speech_token(Speech::O));
            }
        }
        r
    } else if n == 3 {
        let a = tok.get_char(0);
        let b = tok.get_char(1);
        let c = tok.get_char(2);
        let r = if a == 'a' && b == 'd' && c == 'j' {
            Some(Speech::Adj)
        } else if a == 'a' && b == 'd' && c == 'v' {
            Some(Speech::Adv)
        } else {
            None
        };
        proof {
            if a == 'a' && b == 'd' && c == 'j' {
                assert(tok@ =~= speech_token(Speech::Adj));
            } else if a == 'a' && b == 'd' && c == 'v' {
                assert(tok@ =~= speech_token(Speech::Adv));
            }
        }
        r
    } else if n == 4 {
        let a = tok.get_char(0);
        let b = tok.get_char(1);
        let c = tok.get_char(2);
        let d = tok.get_char(3);
        let r = if a == 'p' && b == 'r' && c == 'e' && d == 'p' {
            Some(Speech::Prep)
        } else if a == 'p' && b == 'r' && c == 'o' && d == 'n' {
            Some(Speech::Pron)
        } else {
            None
        };
        proof {
            if a == 'p' && b == 'r' && c == 'e' && d == 'p' {
                assert(tok@ =~= speech_token(Speech::Prep));
            } else if a == 'p' && b == 'r' && c == 'o' && d == 'n' {
                assert(tok@ =~= speech_token(Speech::Pron));
            }
        }
        r
    } else {
        None
    }
}

/// Clean the key segments of one pair.
fn clean_segs_exec(segs: &Vec<SegCst>) -> (r: Vec<Key>)
    ensures
        r.deep_view() == spec_clean_segs(segs.deep_view()),
{
    let ghost all = segs.deep_view();
    let mut out: Vec<Key> = Vec::new();
    let mut i: usize = 0;
    proof {
        assert(all.subrange(0, all.len() as int) =~= all);
        assert(out.deep_view() =~= Seq::<KeyV>::empty());
    }
    while i < segs.len()
        invariant
            i <= segs.len(),
            all == segs.deep_view(),
            spec_clean_segs(all) == out.deep_view() + spec_clean_segs(
                all.subrange(i as int, all.len() as int),
            ),
        decreases segs.len() - i,
    {
        let ghost pre = out.deep_view();
        let ghost suf = all.subrange(i as int, all.len() as int);
        match &segs[i] {
            SegCst::Text(s) => {
                let t = trim_str(s.as_str());
                if !t.is_empty() {
                    out.push(Key::Text(trim_string(s.as_str())));
                }
            },
            SegCst::Cloze(s) => {
                let t = trim_str(s.as_str());
                if !t.is_empty() {
                    out.push(Key::Cloze(trim_string(s.as_str())));
                }
            },
        }
        proof {
            assert(suf[0] == all[i as int]);
            assert(suf.drop_first() =~= all.subrange(i + 1, all.len() as int));
            match clean_seg(all[i as int]) {
                None => {
                    assert(out.deep_view() =~= pre);
                },
                Some(k) => {
                    assert(out.deep_view() =~= pre + seq![k]);
                    assert(pre + (seq![k] + spec_clean_segs(suf.drop_first())) =~= (pre + seq![k])
                        + spec_clean_segs(suf.drop_first()));
                },
            }
        }
        i = i + 1;
    }
    proof {
        assert(all.subrange(i as int, all.len() as int).len() == 0);
        assert(out.deep_view() + spec_clean_segs(all.subrange(i as int, all.len() as int))
            =~= out.deep_view());
    }
    out
}

/// Build the value list of one pair; `None` on an unrecognized tag token.
fn build_values_exec(vs: &Vec<ValueCst>) -> (r: Option<Vec<Value>>)
    ensures
        r is Some <==> (forall|k: int|
            0 <= k < vs.deep_view().len() ==> value_wf(#[trigger] vs.deep_view()[k])),
        r is Some ==> r->Some_0.deep_view() == spec_build_values(vs.deep_view()),
{
    let ghost all = vs.deep_view();
    let mut out: Vec<Value> = Vec::new();
    let mut i: usize = 0;
    proof {
        assert(all.subrange(0, all.len() as int) =~= all);
        assert(out.deep_view() =~= Seq::<ValueV>::empty());
    }
    while i < vs.len()
        invariant
            i <= vs.len(),
            all == vs.deep_view(),
            forall|k: int| 0 <= k < i ==> value_wf(#[trigger] all[k]),
            spec_build_values(all) == out.deep_view() + spec_build_values(
                all.subrange(i as int, all.len() as int),
            ),
        decreases vs.len() - i,
    {
        let ghost pre = out.deep_view();
        let ghost suf = all.subrange(i as int, all.len() as int);
        match &vs[i] {
            ValueCst::Node(tok, txt) => {
                match speech_of_exec(tok.as_str()) {
                    None => {
                        proof {
                            assert(!value_wf(all[i as int]));
                        }
                        return None;
                    },
                    Some(sp) => {
                        out.push(Value::Node(Node { speech: sp, text: trim_string(txt.as_str()) }));
                    },
                }
            },
            ValueCst::Text(s) => {
                let t = trim_str(s.as_str());
                if !t.is_empty() {
                    out.push(Value::Text(trim_string(s.as_str())));
                }
            },
        }
        proof {
            assert(suf[0] == all[i as int]);
            assert(suf.drop_first() =~= all.subrange(i + 1, all.len() as int));
            match build_value(all[i as int]) {
                None => {
                    assert(out.deep_view() =~= pre);
                },
                Some(v) => {
                    assert(out.deep_view() =~= pre + seq![v]);
                    assert(pre + (seq![v] + spec_build_values(suf.drop_first())) =~= (pre + seq![v])
                        + spec_build_values(suf.drop_first()));
                },
            }
        }
        i = i + 1;
    }
    proof {
        assert(all.subrange(i as int, all.len() as int).len() == 0);
        assert(out.deep_view() + spec_build_values(all.subrange(i as int, all.len() as int))
            =~= out.deep_view());
    }
    Some(out)
}

/// Build the typed AST of a concrete tree.  `None` means a node carried a
/// tag token outside the closed table — an internal invariant violation
/// that the grammar itself can never produce.
pub fn build_ast(cst: &Cst) -> (r: Option<Root>)
    ensures
        r is Some <==> cst_wf(cst.deep_view()),
        r is Some ==> r->Some_0.deep_view() == spec_build_ast(cst.deep_view()),
{
    let ghost all = cst.deep_view();
    let mut out: Vec<Item> = Vec::new();
    let mut i: usize = 0;
    while i < cst.len()
        invariant
            i <= cst.len(),
            all == cst.deep_view(),
            forall|k: int| 0 <= k < i ==> pair_wf(#[trigger] all[k]),
            out.deep_view() =~= all.subrange(0, i as int).map_values(
                |p: PairCstV| ItemV::Pair(spec_build_pair(p)),
            ),
        decreases cst.len() - i,
    {
        let p = &cst[i];
        proof {
            assert(all[i as int] == cst[i as int].deep_view());
            assert(all[i as int].key == p.key.deep_view());
            assert(all[i as int].value == p.value.deep_view());
        }
        let key = clean_segs_exec(&p.key);
        match build_values_exec(&p.value) {
            None => {
                proof {
                    assert(!pair_wf(all[i as int]));
                }
                return None;
            },
            Some(value) => {
                let ghost prev = out.deep_view();
                let ghost it = ItemV::Pair(spec_build_pair(all[i as int]));
                proof {
                    assert(Item::Pair(Pair { key, value }).deep_view() == it);
                }
                out.push(Item::Pair(Pair { key, value }));
                proof {
                    assert(out.deep_view() =~= prev.push(it));
                    assert(prev.push(it) =~= all.subrange(0, i + 1).map_values(
                        |p: PairCstV| ItemV::Pair(spec_build_pair(p)),
                    ));
                }
            },
        }
        i = i + 1;
    }
    proof {
        assert(all.subrange(0, i as int) =~= all);
        assert(out.deep_view() =~= spec_build_ast(all));
    }
    Some(out)
}

/// Every tag token the grammar can emit is one of the seven canonical ones.
pub proof fn lemma_speech_roundtrip(sp: Speech)
    ensures
        spec_speech_of(speech_token(sp)) == Some(sp),
{
    assert(speech_token(Speech::N).len() == 1);
    assert(speech_token(Speech::V).len() == 1);
    assert(speech_token(Speech::O).len() == 1);
    assert(speech_token(Speech::Adj).len() == 3);
    assert(speech_token(Speech::Adv).len() == 3);
    assert(speech_token(Speech::Prep).len() == 4);
    assert(speech_token(Speech::Pron).len() == 4);
    assert(speech_token(Speech::N)[0] == 'n');
    assert(speech_token(Speech::V)[0] == 'v');
    assert(speech_token(Speech::O)[0] == 'o');
    assert(speech_token(Speech::Adj)[2] == 'j');
    assert(speech_token(Speech::Adv)[2] == 'v');
    assert(speech_token(Speech::Prep)[2] == 'e');
    assert(speech_token(Speech::Pron)[2] == 'o');
}

proof fn lemma_parse_values_wf(s: Seq<char>, i: int)
    requires
        0 <= i <= s.len(),
    ensures
        parse_values(s, i) is Some ==> {
            let (vals, k) = parse_values(s, i)->Some_0;
            forall|m: int| 0 <= m < vals.len() ==> value_wf(#[trigger] vals[m])
        },
    decreases s.len() - i,
{
    if 0 <= i < s.len() && s[i] != '}' {
        if crate::parser::node_head_at(s, i) {
            let sp = crate::parser::tok_at(s, i)->Some_0;
            crate::text::lemma_skip_ws(s, i + speech_token(sp).len() as int);
            let j = crate::text::skip_ws(s, i + speech_token(sp).len() as int);
            crate::parser::lemma_scan_plain(s, j + 1);
            let e = crate::parser::scan_plain(s, j + 1);
            if e < s.len() && s[e] == '}' {
                lemma_parse_values_wf(s, e + 1);
                lemma_speech_roundtrip(sp);
            }
        } else if s[i] != '{' {
            crate::parser::lemma_scan_vtext(s, i);
            let e = crate::parser::scan_vtext(s, i);
            lemma_parse_values_wf(s, e);
        }
    }
}

proof fn lemma_parse_pairs_wf(s: Seq<char>, i: int)
    requires
        0 <= i <= s.len(),
    ensures
        parse_pairs(s, i) is Some ==> cst_wf(parse_pairs(s, i)->Some_0),
    decreases s.len() - i,
{
    if 0 <= i < s.len() {
        crate::parser::lemma_parse_pair_bounds(s, i);
        if parse_pair(s, i) is Some {
            let (p, j) = parse_pair(s, i)->Some_0;
            crate::parser::lemma_parse_segs_bounds(s, i);
            let (segs, js) = parse_segs(s, i)->Some_0;
            if segs.len() > 0 {
                lemma_parse_values_wf(s, js + 1);
            }
            crate::text::lemma_skip_ws(s, j);
            lemma_parse_pairs_wf(s, crate::text::skip_ws(s, j));
        }
    }
}

/// A concrete tree that the grammar produced is always well formed.
pub proof fn lemma_parse_cst_wf(s: Seq<char>)
    ensures
        spec_parse_cst(s) is Some ==> cst_wf(spec_parse_cst(s)->Some_0),
{
    crate::text::lemma_skip_ws(s, 0);
    lemma_parse_pairs_wf(s, crate::text::skip_ws(s, 0));
}

/// Parse a source text into the typed AST: the concrete parser followed by
/// the AST builder.  All-or-nothing: a malformed document fails whole.
pub fn parse(s: &str) -> (r: Result<Root, SyntaxError>)
    ensures
        r is Ok <==> spec_parse(s@) is Some,
        r is Ok ==> r->Ok_0.deep_view() == spec_parse(s@)->Some_0,
        r is Err ==> r->Err_0.pos <= s@.len(),
{
    match parse_concrete(s) {
        Err(e) => Err(e),
        Ok(cst) => {
            proof {
                lemma_parse_cst_wf(s@);
            }
            match build_ast(&cst) {
                Some(root) => Ok(root),
                None => {
                    proof {
                        assert(false);
                    }
                    Err(SyntaxError { pos: 0 })
                },
            }
        },
    }
}

} // verus!
