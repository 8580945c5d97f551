//! Proved laws of the library: the key order is a total preorder, the
//! canonical rewrite sorts stably by it, key cleaning and line trimming
//! behave as stated, and the speech table round-trips.

use vstd::prelude::*;
use crate::ast::KeyV;
use crate::ast::PairV;
use crate::ast::chars_lt;
use crate::ast::key_lt;
use crate::ast::key_payload;
use crate::ast::key_rank;
use crate::ast::keyseq_lt;
use crate::ast::pair_lt;
use crate::builder::clean_seg;
use crate::builder::spec_clean_segs;
use crate::cst::SegCstV;
use crate::render::spec_insert_pair;
use crate::render::spec_sort_pairs;
use crate::text::block_lines;
use crate::text::is_trimmed;
use crate::text::lemma_trim_trimmed;
use crate::text::lines_for_block;
use crate::text::spec_trim;

verus! {

pub proof fn lemma_chars_lt_irrefl(a: Seq<char>)
    ensures
        !chars_lt(a, a),
    decreases a.len(),
{
    if a.len() > 0 {
        lemma_chars_lt_irrefl(a.drop_first());
    }
}

/// Distinct characters have distinct code points.
proof fn lemma_char_inj(a: char, b: char)
    ensures
        a as u32 == b as u32 ==> a == b,
{
    if a as u32 == b as u32 {
        vstd::utf8::char_u32_cast(a, a as u32);
        vstd::utf8::char_u32_cast(b, b as u32);
    }
}

pub proof fn lemma_chars_lt_connected(a: Seq<char>, b: Seq<char>)
    ensures
        !chars_lt(a, b) ==> a == b || chars_lt(b, a),
    decreases a.len(),
{
    if !chars_lt(a, b) {
        if b.len() == 0 {
            if a.len() == 0 {
                assert(a =~= b);
            }
        } else if a.len() == 0 {
        } else {
            lemma_char_inj(a[0], b[0]);
            if (a[0] as u32) < (b[0] as u32) {
            } else if a[0] == b[0] {
                lemma_chars_lt_connected(a.drop_first(), b.drop_first());
                if a.drop_first() == b.drop_first() {
                    assert(a.drop_first().len() == b.drop_first().len());
                    assert(a.len() == b.len());
                    assert forall|k: int| 0 <= k < a.len() implies a[k] == b[k] by {
                        if k > 0 {
                            assert(a[k] == a.drop_first()[k - 1]);
                            assert(b[k] == b.drop_first()[k - 1]);
                        }
                    }
                    assert(a =~= b);
                }
            }
        }
    }
}

pub proof fn lemma_chars_lt_trans(a: Seq<char>, b: Seq<char>, c: Seq<char>)
    ensures
        chars_lt(a, b) && chars_lt(b, c) ==> chars_lt(a, c),
    decreases a.len(),
{
    if chars_lt(a, b) && chars_lt(b, c) {
        if a.len() > 0 && b.len() > 0 && c.len() > 0 {
            if a[0] == b[0] && b[0] == c[0] {
                lemma_chars_lt_trans(a.drop_first(), b.drop_first(), c.drop_first());
            }
        }
    }
}

pub proof fn lemma_key_lt_connected(a: KeyV, b: KeyV)
    ensures
        !key_lt(a, b) ==> a == b || key_lt(b, a),
{
    if !key_lt(a, b) {
        if key_rank(a) == key_rank(b) {
            lemma_chars_lt_connected(key_payload(a), key_payload(b));
            if key_payload(a) == key_payload(b) {
                match (a, b) {
                    (KeyV::Text(x), KeyV::Text(y)) => assert(a == b),
                    (KeyV::Cloze(x), KeyV::Cloze(y)) => assert(a == b),
                    _ => assert(false),
                }
            }
        }
    }
}

pub proof fn lemma_key_lt_trans(a: KeyV, b: KeyV, c: KeyV)
    ensures
        key_lt(a, b) && key_lt(b, c) ==> key_lt(a, c),
{
    lemma_chars_lt_trans(key_payload(a), key_payload(b), key_payload(c));
}

pub proof fn lemma_keyseq_lt_irrefl(a: Seq<KeyV>)
    ensures
        !keyseq_lt(a, a),
    decreases a.len(),
{
    if a.len() > 0 {
        lemma_chars_lt_irrefl(key_payload(a[0]));
        lemma_keyseq_lt_irrefl(a.drop_first());
    }
}

pub proof fn lemma_keyseq_lt_connected(a: Seq<KeyV>, b: Seq<KeyV>)
    ensures
        !keyseq_lt(a, b) ==> a == b || keyseq_lt(b, a),
    decreases a.len(),
{
    if !keyseq_lt(a, b) {
        if b.len() == 0 {
            if a.len() == 0 {
                assert(a =~= b);
            }
        } else if a.len() == 0 {
        } else {
            lemma_key_lt_connected(a[0], b[0]);
            if a[0] == b[0] {
                lemma_keyseq_lt_connected(a.drop_first(), b.drop_first());
                if a.drop_first() == b.drop_first() {
                    assert(a.drop_first().len() == b.drop_first().len());
                    assert(a.len() == b.len());
                    assert forall|k: int| 0 <= k < a.len() implies a[k] == b[k] by {
                        if k > 0 {
                            assert(a[k] == a.drop_first()[k - 1]);
                            assert(b[k] == b.drop_first()[k - 1]);
                        }
                    }
                    assert(a =~= b);
                }
            }
        }
    }
}

pub proof fn lemma_keyseq_lt_trans(a: Seq<KeyV>, b: Seq<KeyV>, c: Seq<KeyV>)
    ensures
        keyseq_lt(a, b) && keyseq_lt(b, c) ==> keyseq_lt(a, c),
    decreases a.len(),
{
    if keyseq_lt(a, b) && keyseq_lt(b, c) {
        if a.len() > 0 && b.len() > 0 && c.len() > 0 {
            lemma_key_lt_trans(a[0], b[0], c[0]);
            if a[0] == b[0] && b[0] == c[0] {
                lemma_keyseq_lt_trans(a.drop_first(), b.drop_first(), c.drop_first());
            } else if key_lt(a[0], b[0]) && b[0] == c[0] {
            } else if a[0] == b[0] && key_lt(b[0], c[0]) {
            }
        }
    }
}

/// The pair order never both ways round.
pub proof fn lemma_pair_lt_asym(a: PairV, b: PairV)
    ensures
        pair_lt(a, b) ==> !pair_lt(b, a),
{
    if pair_lt(a, b) && pair_lt(b, a) {
        lemma_keyseq_lt_trans(a.key, b.key, a.key);
        lemma_keyseq_lt_irrefl(a.key);
    }
}

/// If `x` sorts below `b` and `a` does not, `x` sorts below `a`.
pub proof fn lemma_pair_lt_cross(x: PairV, a: PairV, b: PairV)
    ensures
        pair_lt(x, b) && !pair_lt(a, b) ==> pair_lt(x, a),
{
    if pair_lt(x, b) && !pair_lt(a, b) {
        lemma_keyseq_lt_connected(a.key, b.key);
        if a.key == b.key {
        } else {
            lemma_keyseq_lt_trans(x.key, b.key, a.key);
        }
    }
}

/// Pairs in non-decreasing key order under the comparison of the rewrite.
pub open spec fn sorted_by_key(s: Seq<PairV>) -> bool {
    forall|i: int, j: int|
        #![trigger s[i], s[j]]
        0 <= i <= j < s.len() ==> !pair_lt(s[j], s[i])
}

proof fn lemma_insert_pair_sorted(s: Seq<PairV>, x: PairV)
    requires
        sorted_by_key(s),
    ensures
        sorted_by_key(spec_insert_pair(s, x)),
    decreases s.len(),
{
    if s.len() == 0 {
        lemma_keyseq_lt_irrefl(x.key);
        assert(spec_insert_pair(s, x) == seq![x]);
    } else if pair_lt(x, s.last()) {
        let d = s.drop_last();
        assert(forall|i: int, j: int|
            #![trigger d[i], d[j]]
            0 <= i <= j < d.len() ==> !pair_lt(d[j], d[i]) && d[j] == s[j] && d[i] == s[i]);
        lemma_insert_pair_sorted(d, x);
        let r = spec_insert_pair(d, x);
        // everything already in the insertion is at most the old last element
        assert forall|m: int| 0 <= m < r.len() implies !pair_lt(s.last(), r[m]) by {
            lemma_insert_pair_members(d, x, m);
            if r[m] == x {
                lemma_pair_lt_asym(x, s.last());
            } else {
                let o = choose|o: int| 0 <= o < d.len() && d[o] == r[m];
                assert(!pair_lt(s[s.len() - 1], s[o]));
            }
        }
        assert(spec_insert_pair(s, x) == r.push(s.last()));
        assert forall|i: int, j: int|
            0 <= i <= j < r.push(s.last()).len() implies !pair_lt(
            #[trigger] r.push(s.last())[j],
            #[trigger] r.push(s.last())[i],
        ) by {
            if j < r.len() {
            } else if i < r.len() {
                assert(!pair_lt(s.last(), r[i]));
            } else {
                lemma_keyseq_lt_irrefl(s.last().key);
            }
        }
    } else {
        assert forall|i: int, j: int|
            0 <= i <= j < s.push(x).len() implies !pair_lt(
            #[trigger] s.push(x)[j],
            #[trigger] s.push(x)[i],
        ) by {
            if j < s.len() {
            } else if i < s.len() {
                // x is not below the last element, hence not below any
                assert(!pair_lt(s.last(), s[i]));
                lemma_pair_lt_cross(x, s.last(), s[i]);
            } else {
                lemma_keyseq_lt_irrefl(x.key);
            }
        }
    }
}

/// Every element of an insertion is the inserted pair or one of the old ones.
proof fn lemma_insert_pair_members(s: Seq<PairV>, x: PairV, m: int)
    requires
        0 <= m < spec_insert_pair(s, x).len(),
    ensures
        spec_insert_pair(s, x)[m] == x || exists|o: int| 0 <= o < s.len() && s[o] == spec_insert_pair(s, x)[m],
    decreases s.len(),
{
    if s.len() == 0 {
    } else if pair_lt(x, s.last()) {
        let r = spec_insert_pair(s.drop_last(), x);
        if m < r.len() {
            lemma_insert_pair_members(s.drop_last(), x, m);
            if r[m] != x {
                let o = choose|o: int| 0 <= o < s.drop_last().len() && s.drop_last()[o] == r[m];
                assert(s[o] == r[m]);
            }
        } else {
            assert(s[s.len() - 1] == spec_insert_pair(s, x)[m]);
        }
    } else {
        if m < s.len() {
            assert(s[m] == spec_insert_pair(s, x)[m]);
        }
    }
}

/// The canonical rewrite's sort really sorts: its result is in
/// non-decreasing key order.
pub proof fn lemma_sort_pairs_sorted(s: Seq<PairV>)
    ensures
        sorted_by_key(spec_sort_pairs(s)),
    decreases s.len(),
{
    if s.len() > 0 {
        lemma_sort_pairs_sorted(s.drop_last());
        lemma_insert_pair_sorted(spec_sort_pairs(s.drop_last()), s.last());
    }
}

/// Sorting a sequence already in order changes nothing; in particular one
/// sorting pass is idempotent.
pub proof fn lemma_sort_of_sorted(s: Seq<PairV>)
    requires
        sorted_by_key(s),
    ensures
        spec_sort_pairs(s) == s,
    decreases s.len(),
{
    if s.len() > 0 {
        let d = s.drop_last();
        assert(forall|i: int, j: int|
            #![trigger d[i], d[j]]
            0 <= i <= j < d.len() ==> d[j] == s[j] && d[i] == s[i]);
        lemma_sort_of_sorted(d);
        if d.len() > 0 {
            assert(!pair_lt(s.last(), d.last()));
        }
        assert(spec_insert_pair(d, s.last()) =~= s);
    }
}

/// Sorting twice is the same as sorting once.
pub proof fn lemma_sort_idempotent(s: Seq<PairV>)
    ensures
        spec_sort_pairs(spec_sort_pairs(s)) == spec_sort_pairs(s),
{
    lemma_sort_pairs_sorted(s);
    lemma_sort_of_sorted(spec_sort_pairs(s));
}

/// The subsequence of pairs whose key is exactly `k`, in order.
pub open spec fn with_key(s: Seq<PairV>, k: Seq<KeyV>) -> Seq<PairV>
    decreases s.len(),
{
    if s.len() == 0 {
        Seq::empty()
    } else if s.last().key == k {
        with_key(s.drop_last(), k).push(s.last())
    } else {
        with_key(s.drop_last(), k)
    }
}

proof fn lemma_insert_with_key(s: Seq<PairV>, x: PairV, k: Seq<KeyV>)
    ensures
        with_key(spec_insert_pair(s, x), k) == if x.key == k {
            with_key(s, k).push(x)
        } else {
            with_key(s, k)
        },
    decreases s.len(),
{
    if s.len() == 0 {
        assert(spec_insert_pair(s, x) == seq![x]);
        assert(seq![x].drop_last() =~= Seq::<PairV>::empty());
        assert(seq![x].last() == x);
        assert(with_key(s, k) == Seq::<PairV>::empty());
        if x.key == k {
            assert(with_key(seq![x], k) == with_key(seq![x].drop_last(), k).push(x));
            assert(with_key(seq![x].drop_last(), k) == Seq::<PairV>::empty());
        } else {
            assert(with_key(seq![x], k) == with_key(seq![x].drop_last(), k));
        }
    } else if pair_lt(x, s.last()) {
        // the insertion never passes a pair with the same key: equal keys
        // are never strictly ordered
        if x.key == s.last().key {
            lemma_keyseq_lt_irrefl(x.key);
        }
        let r = spec_insert_pair(s.drop_last(), x);
        assert(spec_insert_pair(s, x) == r.push(s.last()));
        assert(r.push(s.last()).drop_last() =~= r);
        assert(r.push(s.last()).last() == s.last());
        lemma_insert_with_key(s.drop_last(), x, k);
        if s.last().key == k {
            assert(with_key(spec_insert_pair(s, x), k) == with_key(r, k).push(s.last()));
            assert(with_key(s, k) == with_key(s.drop_last(), k).push(s.last()));
        } else {
            assert(with_key(spec_insert_pair(s, x), k) == with_key(r, k));
            assert(with_key(s, k) == with_key(s.drop_last(), k));
        }
    } else {
        assert(spec_insert_pair(s, x) == s.push(x));
        assert(s.push(x).drop_last() =~= s);
        assert(s.push(x).last() == x);
        if x.key == k {
            assert(with_key(s.push(x), k) == with_key(s, k).push(x));
        } else {
            assert(with_key(s.push(x), k) == with_key(s, k));
        }
    }
}

/// The sort is stable: for every key, the pairs carrying exactly that key
/// come out in the same order they went in.  Ties keep source order.
pub proof fn lemma_sort_pairs_stable(s: Seq<PairV>, k: Seq<KeyV>)
    ensures
        with_key(spec_sort_pairs(s), k) == with_key(s, k),
    decreases s.len(),
{
    if s.len() > 0 {
        lemma_sort_pairs_stable(s.drop_last(), k);
        lemma_insert_with_key(spec_sort_pairs(s.drop_last()), s.last(), k);
    }
}

/// A pair with no value entries renders as bare delimiters around an empty
/// body in the rewrite, and as a lone header line on the card.
pub proof fn lemma_empty_body(p: PairV)
    requires
        p.value.len() == 0,
    ensures
        crate::render::spec_fmt_pair(p) == crate::render::fmt_key(p.key) + " {\n}\n\n"@,
        p.key.len() > 0 && key_payload(p.key[0]).len() > 0 ==> crate::render::spec_md_pair(p)
            == Ok::<Seq<char>, crate::render::RenderError>(
            "- "@ + crate::render::md_key(p.key) + " #card #start_with_"@ + seq![
                key_payload(p.key[0])[0],
            ] + "\n"@,
        ),
{
    reveal_strlit(" {\n");
    reveal_strlit("}\n\n");
    reveal_strlit(" {\n}\n\n");
    assert(" {\n"@ + "}\n\n"@ =~= " {\n}\n\n"@);
    assert(crate::render::spec_fmt_values(p.value) =~= Seq::<char>::empty());
    assert(crate::render::fmt_key(p.key) + " {\n"@ + Seq::<char>::empty() + "}\n\n"@
        =~= crate::render::fmt_key(p.key) + " {\n}\n\n"@);
    if p.key.len() > 0 && key_payload(p.key[0]).len() > 0 {
        assert(crate::render::spec_md_values(p.value) == Ok::<Seq<char>,
            crate::render::RenderError,
        >(Seq::empty()));
        let hdr = "- "@ + crate::render::md_key(p.key) + " #card #start_with_"@ + seq![
            key_payload(p.key[0])[0],
        ] + "\n"@;
        assert(hdr + Seq::<char>::empty() =~= hdr);
    }
}

/// The raw payload of a key segment.
pub open spec fn seg_payload(seg: SegCstV) -> Seq<char> {
    match seg {
        SegCstV::Text(s) => s,
        SegCstV::Cloze(s) => s,
    }
}

/// Key cleaning: a segment of nothing but whitespace contributes no
/// segment; the cleaned key is non-empty exactly when some segment has
/// non-whitespace text; and every surviving segment is non-empty and
/// trimmed.
pub proof fn lemma_key_cleaning(segs: Seq<SegCstV>)
    ensures
        spec_clean_segs(segs).len() > 0 <==> exists|i: int|
            0 <= i < segs.len() && spec_trim(#[trigger] seg_payload(segs[i])).len() > 0,
        forall|j: int|
            0 <= j < spec_clean_segs(segs).len() ==> key_payload(
                #[trigger] spec_clean_segs(segs)[j],
            ).len() > 0 && is_trimmed(key_payload(spec_clean_segs(segs)[j])),
        // a segment trims to nothing exactly when it is whitespace only
        forall|i: int|
            0 <= i < segs.len() ==> ((spec_trim(#[trigger] seg_payload(segs[i])).len() == 0) <==> (
            forall|k: int|
                0 <= k < seg_payload(segs[i]).len() ==> crate::text::is_ws(
                    #[trigger] seg_payload(segs[i])[k],
                ))),
    decreases segs.len(),
{
    assert forall|i: int| 0 <= i < segs.len() implies ((spec_trim(
        #[trigger] seg_payload(segs[i]),
    ).len() == 0) <==> (forall|k: int|
        0 <= k < seg_payload(segs[i]).len() ==> crate::text::is_ws(
            #[trigger] seg_payload(segs[i])[k],
        ))) by {
        crate::text::lemma_trim_empty(seg_payload(segs[i]));
    }
    if segs.len() == 0 {
    } else {
        lemma_key_cleaning(segs.drop_first());
        let rest = spec_clean_segs(segs.drop_first());
        lemma_trim_trimmed(seg_payload(segs[0]));
        match clean_seg(segs[0]) {
            None => {
                if rest.len() > 0 {
                    let i = choose|i: int|
                        0 <= i < segs.drop_first().len() && spec_trim(
                            seg_payload(segs.drop_first()[i]),
                        ).len() > 0;
                    assert(spec_trim(seg_payload(segs[i + 1])).len() > 0);
                }
                if spec_clean_segs(segs).len() > 0 {
                }
                if exists|i: int|
                    0 <= i < segs.len() && spec_trim(#[trigger] seg_payload(segs[i])).len() > 0 {
                    let i = choose|i: int|
                        0 <= i < segs.len() && spec_trim(#[trigger] seg_payload(segs[i])).len() > 0;
                    if i > 0 {
                        assert(spec_trim(seg_payload(segs.drop_first()[i - 1])).len() > 0);
                    }
                }
            },
            Some(k) => {
                assert(spec_trim(seg_payload(segs[0])).len() > 0);
                assert(key_payload(k) == spec_trim(seg_payload(segs[0])));
                assert(forall|j: int|
                    0 <= j < rest.len() ==> (seq![k] + rest)[j + 1] == rest[j]);
            },
        }
    }
}

/// Line trimming: every line of a rendered block is free of leading and
/// trailing whitespace, and no interior line is lost — the rendered block
/// has exactly as many lines as the split of its text.
pub proof fn lemma_line_trimming(t: Seq<char>)
    ensures
        block_lines(t).len() == lines_for_block(t).len(),
        forall|i: int| 0 <= i < block_lines(t).len() ==> is_trimmed(#[trigger] block_lines(t)[i]),
{
    assert forall|i: int| 0 <= i < block_lines(t).len() implies is_trimmed(
        #[trigger] block_lines(t)[i],
    ) by {
        lemma_trim_trimmed(lines_for_block(t)[i]);
    }
}

} // verus!
