//! The three renderers over the typed AST: flashcard Markdown (`build`),
//! the canonical key-sorted rewrite in the original surface syntax
//! (`format`), and a complete structural dump (`render_debug`).

use vstd::prelude::*;
use vstd::string::StrSliceExecFns;
use vstd::string::StringExecFns;
use crate::ast::Item;
use crate::ast::ItemV;
use crate::ast::Key;
use crate::ast::KeyV;
use crate::ast::Pair;
use crate::ast::PairV;
use crate::ast::Root;
use crate::ast::Value;
use crate::ast::ValueV;
use crate::ast::key_payload;
use crate::ast::keyseq_lt_exec;
use crate::ast::pair_lt;
use crate::ast::speech_token;
use crate::text::append_escaped;
use crate::text::block_lines;
use crate::text::block_lines_exec;
use crate::text::esc;
use crate::text::lemma_split_lines_len;
use crate::text::lines_for_block;
use crate::text::push_char;
use crate::text::split_lines;

verus! {

/// Why the Markdown renderer can refuse a document: a pair whose cleaned
/// key has no segments, a first segment with empty text, or a value whose
/// text block is empty (it has no first line to put on the bullet).
#[derive(Clone, Copy, PartialEq, Eq, Structural, Debug)]
pub enum RenderError {
    EmptyKey,
    EmptyKeyText,
    EmptyBlock,
}

/// The pair an item carries.
pub open spec fn item_pair(it: ItemV) -> PairV {
    match it {
        ItemV::Pair(p) => p,
    }
}

/// The text block a value carries.
pub open spec fn value_text(v: ValueV) -> Seq<char> {
    match v {
        ValueV::Node(n) => n.text,
        ValueV::Text(s) => s,
    }
}

/// Lines each rendered as prefix, line, newline.
pub open spec fn prefixed_lines(pre: Seq<char>, ls: Seq<Seq<char>>) -> Seq<char>
    decreases ls.len(),
{
    if ls.len() == 0 {
        Seq::empty()
    } else {
        pre + ls[0] + "\n"@ + prefixed_lines(pre, ls.drop_first())
    }
}

/// Append `pre`, the line, and a newline, for every line from `from` on.
fn append_prefixed_lines(out: &mut String, pre: &str, ls: &Vec<String>, from: usize)
    requires
        from <= ls@.len(),
    ensures
        final(out)@ == old(out)@ + prefixed_lines(
            pre@,
            ls.deep_view().subrange(from as int, ls.deep_view().len() as int),
        ),
{
    let ghost all = ls.deep_view();
    let n = ls.len();
    let mut i: usize = from;
    proof {
        assert(old(out)@ + prefixed_lines(pre@, all.subrange(from as int, n as int)) =~= out@
            + prefixed_lines(pre@, all.subrange(from as int, n as int)));
    }
    while i < n
        invariant
            n == all.len(),
            all == ls.deep_view(),
            from <= i <= n,
            old(out)@ + prefixed_lines(pre@, all.subrange(from as int, n as int)) == out@
                + prefixed_lines(pre@, all.subrange(i as int, n as int)),
        decreases n - i,
    {
        let ghost suf = all.subrange(i as int, n as int);
        let ghost prev = out@;
        out.append(pre);
        out.append(ls[i].as_str());
        out.append("\n");
        proof {
            assert(suf[0] == all[i as int]);
            assert(all[i as int] == ls[i as int].deep_view());
            assert(suf.drop_first() =~= all.subrange(i + 1, n as int));
            assert(out@ =~= prev + (pre@ + suf[0] + "\n"@));
            assert(prev + (pre@ + suf[0] + "\n"@ + prefixed_lines(pre@, suf.drop_first())) =~= (prev
                + (pre@ + suf[0] + "\n"@)) + prefixed_lines(pre@, suf.drop_first()));
        }
        i = i + 1;
    }
    proof {
        assert(prefixed_lines(pre@, all.subrange(i as int, n as int)) =~= Seq::<char>::empty());
        assert(out@ + Seq::<char>::empty() =~= out@);
    }
}

// ------------------------------------------------------------------
// The Markdown (flashcard) renderer.
// ------------------------------------------------------------------
/// One key segment on the card header: literal text as it stands, a cloze
/// wrapped as a cloze marker padded by single spaces.
pub open spec fn md_key_seg(k: KeyV) -> Seq<char> {
    match k {
        KeyV::Text(s) => s,
        KeyV::Cloze(s) => " {{cloze "@ + s + "}} "@,
    }
}

/// The rendered key: all segments concatenated in order.
pub open spec fn md_key(keys: Seq<KeyV>) -> Seq<char>
    decreases keys.len(),
{
    if keys.len() == 0 {
        Seq::empty()
    } else {
        md_key_seg(keys[0]) + md_key(keys.drop_first())
    }
}

/// The bullet head of a value: bolded tag for a node, plain otherwise.
pub open spec fn md_value_head(v: ValueV) -> Seq<char> {
    match v {
        ValueV::Node(n) => "    - =="@ + speech_token(n.speech) + ".== "@,
        ValueV::Text(_) => "    - "@,
    }
}

/// One value block: its first line on the bullet, every further line as an
/// indented continuation line.
pub open spec fn spec_md_value(v: ValueV) -> Seq<char> {
    md_value_head(v) + block_lines(value_text(v))[0] + "\n"@ + prefixed_lines(
        "      "@,
        block_lines(value_text(v)).drop_first(),
    )
}

pub open spec fn spec_md_values(vs: Seq<ValueV>) -> Result<Seq<char>, RenderError>
    decreases vs.len(),
{
    if vs.len() == 0 {
        Ok(Seq::empty())
    } else if value_text(vs[0]).len() == 0 {
        Err(RenderError::EmptyBlock)
    } else {
        match spec_md_values(vs.drop_first()) {
            Err(e) => Err(e),
            Ok(rest) => Ok(spec_md_value(vs[0]) + rest),
        }
    }
}

/// One card: the header line with the key, the card tag and the
/// first-letter tag, then the value bullets in order.
pub open spec fn spec_md_pair(p: PairV) -> Result<Seq<char>, RenderError> {
    if p.key.len() == 0 {
        Err(RenderError::EmptyKey)
    } else if key_payload(p.key[0]).len() == 0 {
        Err(RenderError::EmptyKeyText)
    } else {
        match spec_md_values(p.value) {
            Err(e) => Err(e),
            Ok(vtxt) => Ok(
                "- "@ + md_key(p.key) + " #card #start_with_"@ + seq![key_payload(p.key[0])[0]]
                    + "\n"@ + vtxt,
            ),
        }
    }
}

/// The whole Markdown document, cards in source order.
pub open spec fn spec_md(items: Seq<ItemV>) -> Result<Seq<char>, RenderError>
    decreases items.len(),
{
    if items.len() == 0 {
        Ok(Seq::empty())
    } else {
        match spec_md_pair(item_pair(items[0])) {
            Err(e) => Err(e),
            Ok(txt) => match spec_md(items.drop_first()) {
                Err(e) => Err(e),
                Ok(rest) => Ok(txt + rest),
            },
        }
    }
}

fn append_md_key(out: &mut String, keys: &Vec<Key>)
    ensures
        final(out)@ == old(out)@ + md_key(keys.deep_view()),
{
    let ghost all = keys.deep_view();
    let n = keys.len();
    let mut i: usize = 0;
    proof {
        assert(all.subrange(0, n as int) =~= all);
        assert(old(out)@ + md_key(all) =~= out@ + md_key(all.subrange(0, n as int)));
    }
    while i < n
        invariant
            n == all.len(),
            all == keys.deep_view(),
            i <= n,
            old(out)@ + md_key(all) == out@ + md_key(all.subrange(i as int, n as int)),
        decreases n - i,
    {
        let ghost suf = all.subrange(i as int, n as int);
        let ghost prev = out@;
        proof {
            assert(suf[0] == all[i as int]);
            assert(all[i as int] == keys[i as int].deep_view());
            assert(suf.drop_first() =~= all.subrange(i + 1, n as int));
        }
        match &keys[i] {
            Key::Text(s) => {
                out.append(s.as_str());
            },
            Key::Cloze(s) => {
                out.append(" {{cloze ");
                out.append(s.as_str());
                out.append("}} ");
            },
        }
        proof {
            assert(out@ =~= prev + md_key_seg(suf[0]));
            assert(prev + (md_key_seg(suf[0]) + md_key(suf.drop_first())) =~= (prev + md_key_seg(
                suf[0],
            )) + md_key(suf.drop_first()));
        }
        i = i + 1;
    }
    proof {
        assert(md_key(all.subrange(i as int, n as int)) =~= Seq::<char>::empty());
        assert(out@ + Seq::<char>::empty() =~= out@);
    }
}

fn append_md_values(out: &mut String, vs: &Vec<Value>) -> (r: Result<(), RenderError>)
    ensures
        r is Ok <==> spec_md_values(vs.deep_view()) is Ok,
        r is Ok ==> final(out)@ == old(out)@ + spec_md_values(vs.deep_view())->Ok_0,
        r is Err ==> spec_md_values(vs.deep_view()) == Err::<Seq<char>, RenderError>(r->Err_0),
{
    let ghost all = vs.deep_view();
    let n = vs.len();
    let mut i: usize = 0;
    proof {
        assert(all.subrange(0, n as int) =~= all);
    }
    while i < n
        invariant
            n == all.len(),
            all == vs.deep_view(),
            i <= n,
            spec_md_values(all.subrange(i as int, n as int)) is Ok ==> spec_md_values(all) is Ok
                && out@ + spec_md_values(all.subrange(i as int, n as int))->Ok_0 == old(out)@
                + spec_md_values(all)->Ok_0,
            spec_md_values(all.subrange(i as int, n as int)) is Err ==> spec_md_values(all)
                == spec_md_values(all.subrange(i as int, n as int)),
        decreases n - i,
    {
        let ghost suf = all.subrange(i as int, n as int);
        let ghost prev = out@;
        proof {
            assert(suf[0] == all[i as int]);
            assert(all[i as int] == vs[i as int].deep_view());
            assert(suf.drop_first() =~= all.subrange(i + 1, n as int));
        }
        let text: &String = match &vs[i] {
            Value::Node(nd) => {
                proof {
                    assert(value_text(vs[i as int].deep_view()) == nd.text@);
                }
                &nd.text
            },
            Value::Text(s) => {
                proof {
                    assert(value_text(vs[i as int].deep_view()) == s@);
                }
                s
            },
        };
        proof {
            assert(value_text(suf[0]) == text@);
        }
        let lines = block_lines_exec(text.as_str());
        if lines.len() == 0 {
            proof {
                assert(lines.deep_view().len() == 0);
                assert(block_lines(text@).len() == 0);
                lemma_split_lines_len(text@);
                if text@.len() > 0 {
                    assert(lines_for_block(text@) == split_lines(text@));
                    assert(block_lines(text@).len() == lines_for_block(text@).len());
                }
                assert(value_text(suf[0]).len() == 0);
            }
            return Err(RenderError::EmptyBlock);
        }
        proof {
            lemma_split_lines_len(text@);
            if value_text(suf[0]).len() == 0 {
                assert(block_lines(text@).len() == 0);
            }
            assert(value_text(suf[0]).len() > 0);
        }
        match &vs[i] {
            Value::Node(nd) => {
                out.append("    - ==");
                out.append(nd.speech.as_str());
                out.append(".== ");
            },
            Value::Text(_) => {
                out.append("    - ");
            },
        }
        proof {
            assert(out@ =~= prev + md_value_head(suf[0]));
            assert(lines.deep_view()[0] == lines[0].deep_view());
        }
        let ghost prev2 = out@;
        out.append(lines[0].as_str());
        out.append("\n");
        let ghost prev3 = out@;
        append_prefixed_lines(out, "      ", &lines, 1);
        proof {
            let bl = block_lines(value_text(suf[0]));
            assert(lines.deep_view() == bl);
            assert(lines.deep_view().subrange(1, lines.deep_view().len() as int)
                =~= bl.drop_first());
            assert(out@ =~= prev3 + prefixed_lines("      "@, bl.drop_first()));
            assert(prev3 =~= prev2 + bl[0] + "\n"@);
            assert(out@ =~= prev + spec_md_value(suf[0]));
            match spec_md_values(suf.drop_first()) {
                Err(_) => {
                },
                Ok(rest) => {
                    assert(prev + (spec_md_value(suf[0]) + rest) =~= (prev + spec_md_value(suf[0]))
                        + rest);
                },
            }
        }
        i = i + 1;
    }
    proof {
        assert(spec_md_values(all.subrange(i as int, n as int))->Ok_0 =~= Seq::<char>::empty());
        assert(out@ + Seq::<char>::empty() =~= out@);
    }
    Ok(())
}

/// Render the flashcard Markdown document: one card per pair, in source
/// order, or the error for the first pair that cannot be rendered.
pub fn build(ast: &Root) -> (r: Result<String, RenderError>)
    ensures
        r is Ok <==> spec_md(ast.deep_view()) is Ok,
        r is Ok ==> r->Ok_0@ == spec_md(ast.deep_view())->Ok_0,
        r is Err ==> spec_md(ast.deep_view()) == Err::<Seq<char>, RenderError>(r->Err_0),
{
    let ghost all = ast.deep_view();
    let mut out = String::new();
    let n = ast.len();
    let mut i: usize = 0;
    proof {
        assert(all.subrange(0, n as int) =~= all);
    }
    while i < n
        invariant
            n == all.len(),
            all == ast.deep_view(),
            i <= n,
            spec_md(all.subrange(i as int, n as int)) is Ok ==> spec_md(all) is Ok,
            spec_md(all.subrange(i as int, n as int)) is Err ==> spec_md(all) == spec_md(
                all.subrange(i as int, n as int),
            ),
            spec_md(all.subrange(i as int, n as int)) is Ok ==> spec_md(all)->Ok_0 == out@
                + spec_md(all.subrange(i as int, n as int))->Ok_0,
        decreases n - i,
    {
        let ghost suf = all.subrange(i as int, n as int);
        let ghost prev = out@;
        proof {
            assert(suf[0] == all[i as int]);
            assert(all[i as int] == ast[i as int].deep_view());
            assert(suf.drop_first() =~= all.subrange(i + 1, n as int));
        }
        let Item::Pair(p) = &ast[i];
        proof {
            assert(item_pair(suf[0]) == p.deep_view());
        }
        if p.key.len() == 0 {
            return Err(RenderError::EmptyKey);
        }
        let s0: &String = match &p.key[0] {
            Key::Text(s) => s,
            Key::Cloze(s) => s,
        };
        proof {
            assert(p.deep_view().key[0] == p.key[0].deep_view());
            assert(s0@ == key_payload(p.deep_view().key[0]));
        }
        if s0.as_str().is_empty() {
            return Err(RenderError::EmptyKeyText);
        }
        out.append("- ");
        append_md_key(&mut out, &p.key);
        out.append(" #card #start_with_");
        push_char(&mut out, s0.as_str().get_char(0));
        out.append("\n");
        let ghost head = out@;
        match append_md_values(&mut out, &p.value) {
            Err(e) => {
                return Err(e);
            },
            Ok(()) => {
            },
        }
        proof {
            let pv = p.deep_view();
            assert(head =~= prev + ("- "@ + md_key(pv.key) + " #card #start_with_"@ + seq![
                key_payload(pv.key[0])[0],
            ] + "\n"@));
            assert(out@ =~= prev + spec_md_pair(pv)->Ok_0);
            match spec_md(suf.drop_first()) {
                Err(_) => {
                },
                Ok(rest) => {
                    assert(prev + (spec_md_pair(pv)->Ok_0 + rest) =~= (prev + spec_md_pair(
                        pv,
                    )->Ok_0) + rest);
                },
            }
        }
        i = i + 1;
    }
    proof {
        assert(spec_md(all.subrange(i as int, n as int))->Ok_0 =~= Seq::<char>::empty());
        assert(out@ + Seq::<char>::empty() =~= out@);
    }
    Ok(out)
}

// ------------------------------------------------------------------
// Stable sort by key for the canonical rewrite.
// ------------------------------------------------------------------
/// Stable insertion: the new pair goes right before the strictly greater
/// tail, so pairs with equal keys keep their relative order.
pub open spec fn spec_insert_pair(s: Seq<PairV>, x: PairV) -> Seq<PairV>
    decreases s.len(),
{
    if s.len() == 0 {
        seq![x]
    } else if pair_lt(x, s.last()) {
        spec_insert_pair(s.drop_last(), x).push(s.last())
    } else {
        s.push(x)
    }
}

/// Stable insertion sort of the pairs, by key.
pub open spec fn spec_sort_pairs(s: Seq<PairV>) -> Seq<PairV>
    decreases s.len(),
{
    if s.len() == 0 {
        s
    } else {
        spec_insert_pair(spec_sort_pairs(s.drop_last()), s.last())
    }
}

/// Where the insertion lands: right before the maximal strictly greater
/// suffix.
pub proof fn lemma_insert_pair_at(s: Seq<PairV>, x: PairV, k: int)
    requires
        0 <= k <= s.len(),
        forall|m: int| k <= m < s.len() ==> pair_lt(x, #[trigger] s[m]),
        k > 0 ==> !pair_lt(x, s[k - 1]),
    ensures
        spec_insert_pair(s, x) == s.subrange(0, k) + seq![x] + s.subrange(k, s.len() as int),
    decreases s.len(),
{
    if k == s.len() {
        assert(spec_insert_pair(s, x) =~= s.subrange(0, k) + seq![x] + s.subrange(
            k,
            s.len() as int,
        ));
    } else {
        assert(pair_lt(x, s.last()));
        let d = s.drop_last();
        assert(forall|m: int| k <= m < d.len() ==> pair_lt(x, #[trigger] d[m]));
        lemma_insert_pair_at(d, x, k);
        assert(spec_insert_pair(s, x) =~= s.subrange(0, k) + seq![x] + s.subrange(
            k,
            s.len() as int,
        ));
    }
}

/// Sort the pairs by key with a stable insertion sort.
fn sort_pairs(ps: Vec<Pair>) -> (r: Vec<Pair>)
    ensures
        r.deep_view() == spec_sort_pairs(ps.deep_view()),
{
    let ghost all = ps.deep_view();
    let mut rest = ps;
    let mut out: Vec<Pair> = Vec::new();
    proof {
        assert(all.subrange(0, 0) =~= Seq::<PairV>::empty());
        assert(out.deep_view() =~= spec_sort_pairs(all.subrange(0, 0)));
        assert(rest.deep_view() =~= all.subrange(0, all.len() as int));
    }
    while rest.len() > 0
        invariant
            rest.deep_view().len() <= all.len(),
            out.deep_view() == spec_sort_pairs(
                all.subrange(0, all.len() - rest.deep_view().len()),
            ),
            rest.deep_view() == all.subrange(
                all.len() - rest.deep_view().len(),
                all.len() as int,
            ),
        decreases rest.len(),
    {
        let ghost done = all.len() - rest.deep_view().len();
        let ghost prevrest = rest.deep_view();
        let ghost prevview = rest@;
        let x = rest.remove(0);
        proof {
            assert(x.deep_view() == prevrest[0]);
            assert(prevrest[0] == all[done as int]);
            assert forall|m: int| 0 <= m < rest.deep_view().len() implies rest.deep_view()[m]
                == all[done + 1 + m] by {
                assert(rest@[m] == prevview[m + 1]);
                assert(prevrest[m + 1] == all.subrange(done, all.len() as int)[m + 1]);
            }
            assert(rest.deep_view() =~= all.subrange(done + 1, all.len() as int));
        }
        let mut k = out.len();
        while k > 0 && keyseq_lt_exec(&x.key, &out[k - 1].key)
            invariant
                k <= out.deep_view().len(),
                out.deep_view().len() == out@.len(),
                forall|m: int|
                    k <= m < out.deep_view().len() ==> pair_lt(
                        x.deep_view(),
                        #[trigger] out.deep_view()[m],
                    ),
            decreases k,
        {
            proof {
                assert(out.deep_view()[k - 1] == out[k - 1].deep_view());
                assert(out[k - 1].deep_view().key == out[k - 1].key.deep_view());
                assert(x.deep_view().key == x.key.deep_view());
            }
            k = k - 1;
        }
        proof {
            if k > 0 {
                assert(out.deep_view()[k - 1] == out[k - 1].deep_view());
                assert(!pair_lt(x.deep_view(), out.deep_view()[k - 1]));
            }
            lemma_insert_pair_at(out.deep_view(), x.deep_view(), k as int);
        }
        let ghost prev = out.deep_view();
        out.insert(k, x);
        proof {
            assert(out.deep_view() =~= prev.subrange(0, k as int) + seq![x.deep_view()]
                + prev.subrange(k as int, prev.len() as int));
            assert(out.deep_view() == spec_insert_pair(prev, x.deep_view()));
            assert(all.subrange(0, done + 1).drop_last() =~= all.subrange(0, done));
            assert(all.subrange(0, done + 1).last() == all[done as int]);
        }
    }
    proof {
        assert(all.subrange(0, all.len() as int) =~= all);
    }
    out
}

// ------------------------------------------------------------------
// The canonical (sorted) rewrite in the surface syntax.
// ------------------------------------------------------------------
/// One key segment in the rewrite: a cloze keeps only its double braces,
/// without the cloze word the Markdown renderer uses.
pub open spec fn fmt_key_seg(k: KeyV) -> Seq<char> {
    match k {
        KeyV::Text(s) => s,
        KeyV::Cloze(s) => " {{"@ + s + "}} "@,
    }
}

pub open spec fn fmt_key(keys: Seq<KeyV>) -> Seq<char>
    decreases keys.len(),
{
    if keys.len() == 0 {
        Seq::empty()
    } else {
        fmt_key_seg(keys[0]) + fmt_key(keys.drop_first())
    }
}

/// One value in the rewrite: a node block with its lines indented inside
/// braces, or the bare indented lines of a free-text block.
pub open spec fn spec_fmt_value(v: ValueV) -> Seq<char> {
    match v {
        ValueV::Node(n) => "    "@ + speech_token(n.speech) + " {\n"@ + prefixed_lines(
            "        "@,
            block_lines(n.text),
        ) + "    }\n"@,
        ValueV::Text(s) => prefixed_lines("    "@, block_lines(s)),
    }
}

pub open spec fn spec_fmt_values(vs: Seq<ValueV>) -> Seq<char>
    decreases vs.len(),
{
    if vs.len() == 0 {
        Seq::empty()
    } else {
        spec_fmt_value(vs[0]) + spec_fmt_values(vs.drop_first())
    }
}

/// One pair in the rewrite: the key, an opening brace, the values, the
/// closing brace, and a blank separator line.
pub open spec fn spec_fmt_pair(p: PairV) -> Seq<char> {
    fmt_key(p.key) + " {\n"@ + spec_fmt_values(p.value) + "}\n\n"@
}

pub open spec fn spec_fmt_pairs(ps: Seq<PairV>) -> Seq<char>
    decreases ps.len(),
{
    if ps.len() == 0 {
        Seq::empty()
    } else {
        spec_fmt_pair(ps[0]) + spec_fmt_pairs(ps.drop_first())
    }
}

/// The pairs of a document, in source order.
pub open spec fn root_pairs(items: Seq<ItemV>) -> Seq<PairV> {
    items.map_values(|it: ItemV| item_pair(it))
}

/// The canonical rewrite: the pairs sorted stably by key, each re-emitted
/// in the surface syntax.
pub open spec fn spec_format(items: Seq<ItemV>) -> Seq<char> {
    spec_fmt_pairs(spec_sort_pairs(root_pairs(items)))
}

fn append_fmt_key(out: &mut String, keys: &Vec<Key>)
    ensures
        final(out)@ == old(out)@ + fmt_key(keys.deep_view()),
{
    let ghost all = keys.deep_view();
    let n = keys.len();
    let mut i: usize = 0;
    proof {
        assert(all.subrange(0, n as int) =~= all);
        assert(old(out)@ + fmt_key(all) =~= out@ + fmt_key(all.subrange(0, n as int)));
    }
    while i < n
        invariant
            n == all.len(),
            all == keys.deep_view(),
            i <= n,
            old(out)@ + fmt_key(all) == out@ + fmt_key(all.subrange(i as int, n as int)),
        decreases n - i,
    {
        let ghost suf = all.subrange(i as int, n as int);
        let ghost prev = out@;
        proof {
            assert(suf[0] == all[i as int]);
            assert(all[i as int] == keys[i as int].deep_view());
            assert(suf.drop_first() =~= all.subrange(i + 1, n as int));
        }
        match &keys[i] {
            Key::Text(s) => {
                out.append(s.as_str());
            },
            Key::Cloze(s) => {
                out.append(" {{");
                out.append(s.as_str());
                out.append("}} ");
            },
        }
        proof {
            assert(out@ =~= prev + fmt_key_seg(suf[0]));
            assert(prev + (fmt_key_seg(suf[0]) + fmt_key(suf.drop_first())) =~= (prev + fmt_key_seg(
                suf[0],
            )) + fmt_key(suf.drop_first()));
        }
        i = i + 1;
    }
    proof {
        assert(fmt_key(all.subrange(i as int, n as int)) =~= Seq::<char>::empty());
        assert(out@ + Seq::<char>::empty() =~= out@);
    }
}

fn append_fmt_values(out: &mut String, vs: &Vec<Value>)
    ensures
        final(out)@ == old(out)@ + spec_fmt_values(vs.deep_view()),
{
    let ghost all = vs.deep_view();
    let n = vs.len();
    let mut i: usize = 0;
    proof {
        assert(all.subrange(0, n as int) =~= all);
        assert(old(out)@ + spec_fmt_values(all) =~= out@ + spec_fmt_values(
            all.subrange(0, n as int),
        ));
    }
    while i < n
        invariant
            n == all.len(),
            all == vs.deep_view(),
            i <= n,
            old(out)@ + spec_fmt_values(all) == out@ + spec_fmt_values(
                all.subrange(i as int, n as int),
            ),
        decreases n - i,
    {
        let ghost suf = all.subrange(i as int, n as int);
        let ghost prev = out@;
        proof {
            assert(suf[0] == all[i as int]);
            assert(all[i as int] == vs[i as int].deep_view());
            assert(suf.drop_first() =~= all.subrange(i + 1, n as int));
        }
        match &vs[i] {
            Value::Node(nd) => {
                out.append("    ");
                out.append(nd.speech.as_str());
                out.append(" {\n");
                let ghost mid = out@;
                let lines = block_lines_exec(nd.text.as_str());
                proof {
                    assert(lines.deep_view().subrange(0, lines.deep_view().len() as int)
                        =~= block_lines(nd.text@));
                }
                append_prefixed_lines(out, "        ", &lines, 0);
                out.append("    }\n");
                proof {
                    assert(mid =~= prev + ("    "@ + speech_token(nd.speech) + " {\n"@));
                    assert(out@ =~= prev + spec_fmt_value(suf[0]));
                }
            },
            Value::Text(s) => {
                let lines = block_lines_exec(s.as_str());
                proof {
                    assert(lines.deep_view().subrange(0, lines.deep_view().len() as int)
                        =~= block_lines(s@));
                }
                append_prefixed_lines(out, "    ", &lines, 0);
                proof {
                    assert(out@ =~= prev + spec_fmt_value(suf[0]));
                }
            },
        }
        proof {
            assert(prev + (spec_fmt_value(suf[0]) + spec_fmt_values(suf.drop_first())) =~= (prev
                + spec_fmt_value(suf[0])) + spec_fmt_values(suf.drop_first()));
        }
        i = i + 1;
    }
    proof {
        assert(spec_fmt_values(all.subrange(i as int, n as int)) =~= Seq::<char>::empty());
        assert(out@ + Seq::<char>::empty() =~= out@);
    }
}

/// Render the canonical rewrite: pairs sorted stably by key, re-emitted in
/// the surface syntax, each followed by a blank line.  The output parses
/// again under the same grammar whenever every key kept a segment.
pub fn format(ast: Root) -> (r: String)
    ensures
        r@ == spec_format(ast.deep_view()),
{
    let ghost all_items = ast.deep_view();
    let mut items = ast;
    let mut ps: Vec<Pair> = Vec::new();
    proof {
        assert(ps.deep_view() + root_pairs(items.deep_view()) =~= root_pairs(all_items));
    }
    while items.len() > 0
        invariant
            ps.deep_view() + root_pairs(items.deep_view()) == root_pairs(all_items),
        decreases items.len(),
    {
        let ghost previtems = items.deep_view();
        let ghost prevps = ps.deep_view();
        let it = items.remove(0);
        let Item::Pair(p) = it;
        ps.push(p);
        proof {
            assert(it.deep_view() == previtems[0]);
            assert(items.deep_view() =~= previtems.drop_first());
            assert(ps.deep_view() =~= prevps.push(item_pair(previtems[0])));
            assert(root_pairs(previtems) =~= seq![item_pair(previtems[0])] + root_pairs(
                previtems.drop_first(),
            ));
            assert(ps.deep_view() + root_pairs(items.deep_view()) =~= root_pairs(all_items));
        }
    }
    proof {
        assert(root_pairs(items.deep_view()) =~= Seq::<PairV>::empty());
        assert(ps.deep_view() =~= root_pairs(all_items));
    }
    let sorted = sort_pairs(ps);
    let ghost sp = spec_sort_pairs(root_pairs(all_items));
    let mut out = String::new();
    let n = sorted.len();
    let mut i: usize = 0;
    proof {
        assert(sp.subrange(0, n as int) =~= sp);
        assert(out@ + spec_fmt_pairs(sp) =~= spec_fmt_pairs(sp.subrange(0, n as int)));
    }
    while i < n
        invariant
            n == sp.len(),
            sp == sorted.deep_view(),
            sp == spec_sort_pairs(root_pairs(all_items)),
            i <= n,
            spec_fmt_pairs(sp) == out@ + spec_fmt_pairs(sp.subrange(i as int, n as int)),
        decreases n - i,
    {
        let ghost suf = sp.subrange(i as int, n as int);
        let ghost prev = out@;
        proof {
            assert(suf[0] == sp[i as int]);
            assert(sp[i as int] == sorted[i as int].deep_view());
            assert(suf.drop_first() =~= sp.subrange(i + 1, n as int));
        }
        let p = &sorted[i];
        append_fmt_key(&mut out, &p.key);
        out.append(" {\n");
        let ghost mid = out@;
        append_fmt_values(&mut out, &p.value);
        out.append("}\n\n");
        proof {
            assert(mid =~= prev + (fmt_key(p.deep_view().key) + " {\n"@));
            assert(out@ =~= prev + spec_fmt_pair(suf[0]));
            assert(prev + (spec_fmt_pair(suf[0]) + spec_fmt_pairs(suf.drop_first())) =~= (prev
                + spec_fmt_pair(suf[0])) + spec_fmt_pairs(suf.drop_first()));
        }
        i = i + 1;
    }
    proof {
        assert(spec_fmt_pairs(sp.subrange(i as int, n as int)) =~= Seq::<char>::empty());
        assert(out@ + Seq::<char>::empty() =~= out@);
    }
    out
}

// ------------------------------------------------------------------
// The structural dump.
// ------------------------------------------------------------------
/// One key segment in the dump: its tag and its escaped payload.
pub open spec fn dbg_key(k: KeyV) -> Seq<char> {
    match k {
        KeyV::Text(s) => "key text \""@ + esc(s) + "\"\n"@,
        KeyV::Cloze(s) => "key cloze \""@ + esc(s) + "\"\n"@,
    }
}

pub open spec fn dbg_keys(keys: Seq<KeyV>) -> Seq<char>
    decreases keys.len(),
{
    if keys.len() == 0 {
        Seq::empty()
    } else {
        dbg_key(keys[0]) + dbg_keys(keys.drop_first())
    }
}

/// One value in the dump: its tag, the node's speech token, and the
/// escaped text.
pub open spec fn dbg_value(v: ValueV) -> Seq<char> {
    match v {
        ValueV::Node(n) => "value node "@ + speech_token(n.speech) + " \""@ + esc(n.text) + "\"\n"@,
        ValueV::Text(s) => "value text \""@ + esc(s) + "\"\n"@,
    }
}

pub open spec fn dbg_values(vs: Seq<ValueV>) -> Seq<char>
    decreases vs.len(),
{
    if vs.len() == 0 {
        Seq::empty()
    } else {
        dbg_value(vs[0]) + dbg_values(vs.drop_first())
    }
}

/// One pair in the dump: a header line, its keys, its values, an end line.
pub open spec fn dbg_pair(p: PairV) -> Seq<char> {
    "pair\n"@ + dbg_keys(p.key) + dbg_values(p.value) + "end\n"@
}

/// The complete structural dump: every item, pair, key, value and speech
/// tag, in source order.  Deterministic, and unambiguous thanks to the
/// escaping, so the AST can be reconstructed from it exactly.
pub open spec fn spec_debug(items: Seq<ItemV>) -> Seq<char>
    decreases items.len(),
{
    if items.len() == 0 {
        Seq::empty()
    } else {
        dbg_pair(item_pair(items[0])) + spec_debug(items.drop_first())
    }
}

fn append_dbg_keys(out: &mut String, keys: &Vec<Key>)
    ensures
        final(out)@ == old(out)@ + dbg_keys(keys.deep_view()),
{
    let ghost all = keys.deep_view();
    let n = keys.len();
    let mut i: usize = 0;
    proof {
        assert(all.subrange(0, n as int) =~= all);
        assert(old(out)@ + dbg_keys(all) =~= out@ + dbg_keys(all.subrange(0, n as int)));
    }
    while i < n
        invariant
            n == all.len(),
            all == keys.deep_view(),
            i <= n,
            old(out)@ + dbg_keys(all) == out@ + dbg_keys(all.subrange(i as int, n as int)),
        decreases n - i,
    {
        let ghost suf = all.subrange(i as int, n as int);
        let ghost prev = out@;
        proof {
            assert(suf[0] == all[i as int]);
            assert(all[i as int] == keys[i as int].deep_view());
            assert(suf.drop_first() =~= all.subrange(i + 1, n as int));
        }
        match &keys[i] {
            Key::Text(s) => {
                out.append("key text \"");
                append_escaped(out, s.as_str());
                out.append("\"\n");
            },
            Key::Cloze(s) => {
                out.append("key cloze \"");
                append_escaped(out, s.as_str());
                out.append("\"\n");
            },
        }
        proof {
            assert(out@ =~= prev + dbg_key(suf[0]));
            assert(prev + (dbg_key(suf[0]) + dbg_keys(suf.drop_first())) =~= (prev + dbg_key(
                suf[0],
            )) + dbg_keys(suf.drop_first()));
        }
        i = i + 1;
    }
    proof {
        assert(dbg_keys(all.subrange(i as int, n as int)) =~= Seq::<char>::empty());
        assert(out@ + Seq::<char>::empty() =~= out@);
    }
}

fn append_dbg_values(out: &mut String, vs: &Vec<Value>)
    ensures
        final(out)@ == old(out)@ + dbg_values(vs.deep_view()),
{
    let ghost all = vs.deep_view();
    let n = vs.len();
    let mut i: usize = 0;
    proof {
        assert(all.subrange(0, n as int) =~= all);
        assert(old(out)@ + dbg_values(all) =~= out@ + dbg_values(all.subrange(0, n as int)));
    }
    while i < n
        invariant
            n == all.len(),
            all == vs.deep_view(),
            i <= n,
            old(out)@ + dbg_values(all) == out@ + dbg_values(all.subrange(i as int, n as int)),
        decreases n - i,
    {
        let ghost suf = all.subrange(i as int, n as int);
        let ghost prev = out@;
        proof {
            assert(suf[0] == all[i as int]);
            assert(all[i as int] == vs[i as int].deep_view());
            assert(suf.drop_first() =~= all.subrange(i + 1, n as int));
        }
        match &vs[i] {
            Value::Node(nd) => {
                out.append("value node ");
                out.append(nd.speech.as_str());
                out.append(" \"");
                append_escaped(out, nd.text.as_str());
                out.append("\"\n");
            },
            Value::Text(s) => {
                out.append("value text \"");
                append_escaped(out, s.as_str());
                out.append("\"\n");
            },
        }
        proof {
            assert(out@ =~= prev + dbg_value(suf[0]));
            assert(prev + (dbg_value(suf[0]) + dbg_values(suf.drop_first())) =~= (prev + dbg_value(
                suf[0],
            )) + dbg_values(suf.drop_first()));
        }
        i = i + 1;
    }
    proof {
        assert(dbg_values(all.subrange(i as int, n as int)) =~= Seq::<char>::empty());
        assert(out@ + Seq::<char>::empty() =~= out@);
    }
}

/// Render the structural dump of a whole document.
pub fn render_debug(ast: &Root) -> (r: String)
    ensures
        r@ == spec_debug(ast.deep_view()),
{
    let ghost all = ast.deep_view();
    let mut out = String::new();
    let n = ast.len();
    let mut i: usize = 0;
    proof {
        assert(all.subrange(0, n as int) =~= all);
        assert(out@ + spec_debug(all) =~= spec_debug(all.subrange(0, n as int)));
    }
    while i < n
        invariant
            n == all.len(),
            all == ast.deep_view(),
            i <= n,
            spec_debug(all) == out@ + spec_debug(all.subrange(i as int, n as int)),
        decreases n - i,
    {
        let ghost suf = all.subrange(i as int, n as int);
        let ghost prev = out@;
        proof {
            assert(suf[0] == all[i as int]);
            assert(all[i as int] == ast[i as int].deep_view());
            assert(suf.drop_first() =~= all.subrange(i + 1, n as int));
        }
        let Item::Pair(p) = &ast[i];
        out.append("pair\n");
        append_dbg_keys(&mut out, &p.key);
        append_dbg_values(&mut out, &p.value);
        out.append("end\n");
        proof {
            assert(item_pair(suf[0]) == p.deep_view());
            assert(out@ =~= prev + dbg_pair(item_pair(suf[0])));
            assert(prev + (dbg_pair(item_pair(suf[0])) + spec_debug(suf.drop_first())) =~= (prev
                + dbg_pair(item_pair(suf[0]))) + spec_debug(suf.drop_first()));
        }
        i = i + 1;
    }
    proof {
        assert(spec_debug(all.subrange(i as int, n as int)) =~= Seq::<char>::empty());
        assert(out@ + Seq::<char>::empty() =~= out@);
    }
    out
}

} // verus!
