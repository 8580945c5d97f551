//! Character-level text primitives shared by the parser, the AST builder and
//! the renderers: whitespace, trimming, line splitting and escaping, each with
//! an exact specification over `Seq<char>`.

use vstd::prelude::*;
use vstd::string::StrSliceExecFns;
use vstd::string::StringExecFns;

verus! {

/// Whitespace as the fla grammar understands it.
pub open spec fn is_ws(c: char) -> bool {
    c == ' ' || c == '\t' || c == '\r' || c == '\n'
}

/// First position at or after `i` that holds a non-whitespace character
/// (or the end of the text).
pub open spec fn skip_ws(s: Seq<char>, i: int) -> int
    decreases s.len() - i,
{
    if i < 0 || i >= s.len() {
        i
    } else if is_ws(s[i]) {
        skip_ws(s, i + 1)
    } else {
        i
    }
}

/// Last position at or before `j` such that everything from it up to `j`
/// is whitespace and the character just before it is not.
pub open spec fn rskip_ws(s: Seq<char>, j: int) -> int
    decreases j,
{
    if j <= 0 || j > s.len() {
        j
    } else if is_ws(s[j - 1]) {
        rskip_ws(s, j - 1)
    } else {
        j
    }
}

/// The text with leading and trailing whitespace removed.
pub open spec fn spec_trim(s: Seq<char>) -> Seq<char> {
    let a = skip_ws(s, 0);
    let b = rskip_ws(s, s.len() as int);
    if a < b {
        s.subrange(a, b)
    } else {
        Seq::empty()
    }
}

/// No leading and no trailing whitespace.
pub open spec fn is_trimmed(s: Seq<char>) -> bool {
    s.len() > 0 ==> !is_ws(s[0]) && !is_ws(s[s.len() - 1])
}

pub proof fn lemma_skip_ws(s: Seq<char>, i: int)
    requires
        0 <= i <= s.len(),
    ensures
        i <= skip_ws(s, i) <= s.len(),
        forall|k: int| i <= k < skip_ws(s, i) ==> is_ws(s[k]),
        skip_ws(s, i) < s.len() ==> !is_ws(s[skip_ws(s, i)]),
    decreases s.len() - i,
{
    if i < s.len() && is_ws(s[i]) {
        lemma_skip_ws(s, i + 1);
    }
}

/// `j` is exactly where skipping whitespace from `i` ends.
pub proof fn lemma_skip_ws_exact(s: Seq<char>, i: int, j: int)
    requires
        0 <= i <= j <= s.len(),
        forall|k: int| i <= k < j ==> is_ws(s[k]),
        j == s.len() || !is_ws(s[j]),
    ensures
        skip_ws(s, i) == j,
    decreases j - i,
{
    if i < j {
        lemma_skip_ws_exact(s, i + 1, j);
    }
}

pub proof fn lemma_rskip_ws(s: Seq<char>, j: int)
    requires
        0 <= j <= s.len(),
    ensures
        0 <= rskip_ws(s, j) <= j,
        forall|k: int| rskip_ws(s, j) <= k < j ==> is_ws(s[k]),
        rskip_ws(s, j) > 0 ==> !is_ws(s[rskip_ws(s, j) - 1]),
    decreases j,
{
    if j > 0 && is_ws(s[j - 1]) {
        lemma_rskip_ws(s, j - 1);
    }
}

/// `b` is exactly where skipping whitespace backwards from `j` ends.
pub proof fn lemma_rskip_ws_exact(s: Seq<char>, b: int, j: int)
    requires
        0 <= b <= j <= s.len(),
        forall|k: int| b <= k < j ==> is_ws(s[k]),
        b == 0 || !is_ws(s[b - 1]),
    ensures
        rskip_ws(s, j) == b,
    decreases j - b,
{
    if b < j {
        lemma_rskip_ws_exact(s, b, j - 1);
    }
}

/// Trimming leaves no whitespace at either end.
pub proof fn lemma_trim_trimmed(s: Seq<char>)
    ensures
        is_trimmed(spec_trim(s)),
{
    lemma_skip_ws(s, 0);
    lemma_rskip_ws(s, s.len() as int);
}

/// A trim is empty exactly when the whole text is whitespace.
pub proof fn lemma_trim_empty(s: Seq<char>)
    ensures
        spec_trim(s).len() == 0 <==> (forall|k: int| 0 <= k < s.len() ==> is_ws(s[k])),
{
    lemma_skip_ws(s, 0);
    lemma_rskip_ws(s, s.len() as int);
    let a = skip_ws(s, 0);
    if a < s.len() {
        assert(!is_ws(s[a]));
        if rskip_ws(s, s.len() as int) <= a {
            assert(is_ws(s[a]));
        }
    }
}

pub fn is_ws_exec(c: char) -> (b: bool)
    ensures
        b == is_ws(c),
{
    c == ' ' || c == '\t' || c == '\r' || c == '\n'
}

/// Relies on String::push: appends exactly one character at the end.
#[verifier::external_body]
pub fn push_char(s: &mut String, c: char)
    ensures
        final(s)@ == old(s)@.push(c),
{
    s.push(c);
}

/// Collect the characters of a string slice into a vector.
pub fn str_to_chars(s: &str) -> (r: Vec<char>)
    ensures
        r@ == s@,
{
    let n = s.unicode_len();
    let mut r: Vec<char> = Vec::new();
    let mut i: usize = 0;
    while i < n
        invariant
            n == s@.len(),
            i <= n,
            r@ == s@.subrange(0, i as int),
        decreases n - i,
    {
        let c = s.get_char(i);
        r.push(c);
        i = i + 1;
        proof {
            assert(r@ =~= s@.subrange(0, i as int));
        }
    }
    proof {
        assert(r@ =~= s@);
    }
    r
}

/// Build a string out of a range of a character vector.
pub fn chars_range_to_string(v: &Vec<char>, lo: usize, hi: usize) -> (r: String)
    requires
        lo <= hi <= v@.len(),
    ensures
        r@ == v@.subrange(lo as int, hi as int),
{
    let mut r = String::new();
    let mut i: usize = lo;
    while i < hi
        invariant
            lo <= i <= hi <= v@.len(),
            r@ == v@.subrange(lo as int, i as int),
        decreases hi - i,
    {
        push_char(&mut r, v[i]);
        i = i + 1;
        proof {
            assert(r@ =~= v@.subrange(lo as int, i as int));
        }
    }
    r
}

/// The bounds of the trimmed middle of a string: start of the first
/// non-whitespace run and end of the last one.
fn trim_bounds(s: &str) -> (r: (usize, usize))
    ensures
        r.0 as int == skip_ws(s@, 0),
        r.1 as int == rskip_ws(s@, s@.len() as int),
{
    let n = s.unicode_len();
    let mut a: usize = 0;
    while a < n && is_ws_exec(s.get_char(a))
        invariant
            n == s@.len(),
            0 <= a <= n,
            forall|k: int| 0 <= k < a ==> is_ws(s@[k]),
        decreases n - a,
    {
        a = a + 1;
    }
    proof {
        lemma_skip_ws_exact(s@, 0, a as int);
    }
    let mut b: usize = n;
    while b > 0 && is_ws_exec(s.get_char(b - 1))
        invariant
            n == s@.len(),
            0 <= b <= n,
            forall|k: int| b <= k < n ==> is_ws(s@[k]),
        decreases b,
    {
        b = b - 1;
    }
    proof {
        lemma_rskip_ws_exact(s@, b as int, n as int);
    }
    (a, b)
}

/// Trim a string, borrowing the middle of the original.
pub fn trim_str<'a>(s: &'a str) -> (r: &'a str)
    ensures
        r@ == spec_trim(s@),
{
    let (a, b) = trim_bounds(s);
    proof {
        lemma_skip_ws(s@, 0);
        lemma_rskip_ws(s@, s@.len() as int);
    }
    if a < b {
        s.substring_char(a, b)
    } else {
        proof {
            assert(""@ =~= Seq::<char>::empty()) by {
                reveal_strlit("");
            }
        }
        ""
    }
}

/// Trim a string into an owned copy.
pub fn trim_string(s: &str) -> (r: String)
    ensures
        r@ == spec_trim(s@),
{
    String::from_str(trim_str(s))
}

/// Split on newline characters; the empty text counts as one empty line.
pub open spec fn split_lines(t: Seq<char>) -> Seq<Seq<char>>
    decreases t.len(),
{
    if t.len() == 0 {
        seq![Seq::<char>::empty()]
    } else if t[0] == '\n' {
        seq![Seq::<char>::empty()] + split_lines(t.drop_first())
    } else {
        let r = split_lines(t.drop_first());
        seq![seq![t[0]] + r[0]] + r.drop_first()
    }
}

pub proof fn lemma_split_lines_len(t: Seq<char>)
    ensures
        split_lines(t).len() >= 1,
    decreases t.len(),
{
    if t.len() != 0 {
        lemma_split_lines_len(t.drop_first());
    }
}

/// The lines of a text block: none at all for the empty block.
pub open spec fn lines_for_block(t: Seq<char>) -> Seq<Seq<char>> {
    if t.len() == 0 {
        Seq::empty()
    } else {
        split_lines(t)
    }
}

/// The lines of a block as every renderer emits them: split on newlines,
/// then each line trimmed on its own.  Interior blank lines stay.
pub open spec fn block_lines(t: Seq<char>) -> Seq<Seq<char>> {
    lines_for_block(t).map_values(|l: Seq<char>| spec_trim(l))
}

/// Splitting at the first newline peels off one line.
pub proof fn lemma_split_lines_at(t: Seq<char>, e: int)
    requires
        0 <= e < t.len(),
        t[e] == '\n',
        forall|k: int| 0 <= k < e ==> t[k] != '\n',
    ensures
        split_lines(t) == seq![t.subrange(0, e)] + split_lines(t.subrange(e + 1, t.len() as int)),
    decreases e,
{
    if e == 0 {
        assert(t.subrange(0, 0) =~= Seq::<char>::empty());
        assert(t.drop_first() =~= t.subrange(1, t.len() as int));
    } else {
        let u = t.drop_first();
        assert(forall|k: int| 0 <= k < e - 1 ==> u[k] == t[k + 1] && u[k] != '\n');
        lemma_split_lines_at(u, e - 1);
        let rest = split_lines(u.subrange(e, u.len() as int));
        assert((seq![u.subrange(0, e - 1)] + rest)[0] == u.subrange(0, e - 1));
        assert(seq![t[0]] + u.subrange(0, e - 1) =~= t.subrange(0, e));
        assert((seq![u.subrange(0, e - 1)] + rest).drop_first() =~= rest);
        assert(u.subrange(e, u.len() as int) =~= t.subrange(e + 1, t.len() as int));
        assert(split_lines(t) =~= seq![t.subrange(0, e)] + split_lines(
            t.subrange(e + 1, t.len() as int),
        ));
    }
}

/// A text without newlines is a single line.
pub proof fn lemma_split_lines_whole(t: Seq<char>)
    requires
        forall|k: int| 0 <= k < t.len() ==> t[k] != '\n',
    ensures
        split_lines(t) == seq![t],
    decreases t.len(),
{
    if t.len() == 0 {
        assert(t =~= Seq::<char>::empty());
        assert(split_lines(t) =~= seq![t]);
    } else {
        let u = t.drop_first();
        assert(forall|k: int| 0 <= k < u.len() ==> u[k] == t[k + 1] && u[k] != '\n');
        lemma_split_lines_whole(u);
        let r = split_lines(u);
        assert(t[0] != '\n');
        assert(split_lines(t) == seq![seq![t[0]] + r[0]] + r.drop_first());
        assert(r[0] == u);
        assert(seq![t[0]] + r[0] =~= t);
        assert(r.drop_first() =~= Seq::<Seq<char>>::empty());
        assert(split_lines(t).len() == 1);
        assert(split_lines(t)[0] == t);
        assert(split_lines(t) =~= seq![t]);
    }
}

/// The lines of a block, each trimmed, as the renderers emit them.
pub fn block_lines_exec(t: &str) -> (r: Vec<String>)
    ensures
        r.deep_view() == block_lines(t@),
{
    let n = t.unicode_len();
    let mut out: Vec<String> = Vec::new();
    if n == 0 {
        proof {
            assert(out.deep_view() =~= block_lines(t@));
        }
        return out;
    }
    let mut pos: usize = 0;
    proof {
        assert(t@.subrange(0, n as int) =~= t@);
        assert(out.deep_view() + split_lines(t@).map_values(|l: Seq<char>| spec_trim(l))
            =~= split_lines(t@).map_values(|l: Seq<char>| spec_trim(l)));
    }
    loop
        invariant_except_break
            n == t@.len(),
            n > 0,
            pos <= n,
            block_lines(t@) =~= out.deep_view() + split_lines(
                t@.subrange(pos as int, n as int),
            ).map_values(|l: Seq<char>| spec_trim(l)),
        ensures
            out.deep_view() =~= block_lines(t@),
        decreases n - pos,
    {
        let ghost suf = t@.subrange(pos as int, n as int);
        let mut j: usize = pos;
        while j < n && t.get_char(j) != '\n'
            invariant
                n == t@.len(),
                pos <= j <= n,
                forall|k: int| pos <= k < j ==> t@[k] != '\n',
            decreases n - j,
        {
            j = j + 1;
        }
        let line = trim_string(t.substring_char(pos, j));
        let ghost prev = out.deep_view();
        out.push(line);
        proof {
            assert(out.deep_view() =~= prev.push(spec_trim(t@.subrange(pos as int, j as int))));
        }
        if j == n {
            proof {
                assert(forall|k: int| 0 <= k < suf.len() ==> suf[k] == t@[pos + k] && suf[k] != '\n');
                lemma_split_lines_whole(suf);
                assert(suf =~= t@.subrange(pos as int, j as int));
                assert(seq![suf].map_values(|l: Seq<char>| spec_trim(l)) =~= seq![
                    spec_trim(t@.subrange(pos as int, j as int)),
                ]);
                assert(out.deep_view() =~= block_lines(t@));
            }
            break;
        }
        proof {
            let e = j - pos;
            assert(suf[e] == t@[j as int]);
            assert(forall|k: int| 0 <= k < e ==> suf[k] == t@[pos + k] && suf[k] != '\n');
            lemma_split_lines_at(suf, e);
            let tail = split_lines(suf.subrange(e + 1, suf.len() as int));
            assert(suf.subrange(0, e) =~= t@.subrange(pos as int, j as int));
            assert(suf.subrange(e + 1, suf.len() as int) =~= t@.subrange(j + 1, n as int));
            assert((seq![t@.subrange(pos as int, j as int)] + tail).map_values(
                |l: Seq<char>| spec_trim(l),
            ) =~= seq![spec_trim(t@.subrange(pos as int, j as int))] + tail.map_values(
                |l: Seq<char>| spec_trim(l),
            ));
            assert(block_lines(t@) =~= out.deep_view() + split_lines(
                t@.subrange(j + 1, n as int),
            ).map_values(|l: Seq<char>| spec_trim(l)));
        }
        pos = j + 1;
    }
    out
}

/// One character of the structural dump: backslash, newline and quote are
/// escaped so the dump stays unambiguous.
pub open spec fn esc_char(c: char) -> Seq<char> {
    if c == '\\' {
        seq!['\\', '\\']
    } else if c == '\n' {
        seq!['\\', 'n']
    } else if c == '"' {
        seq!['\\', '"']
    } else {
        seq![c]
    }
}

/// A text with its dump escaping applied.
pub open spec fn esc(s: Seq<char>) -> Seq<char>
    decreases s.len(),
{
    if s.len() == 0 {
        Seq::empty()
    } else {
        esc_char(s[0]) + esc(s.drop_first())
    }
}

/// Append the escaped form of `s` to `out`.
pub fn append_escaped(out: &mut String, s: &str)
    ensures
        final(out)@ == old(out)@ + esc(s@),
{
    let n = s.unicode_len();
    let mut i: usize = 0;
    proof {
        assert(s@.subrange(0, n as int) =~= s@);
        assert(old(out)@ + esc(s@.subrange(i as int, n as int)) =~= old(out)@ + esc(s@));
    }
    while i < n
        invariant
            n == s@.len(),
            i <= n,
            old(out)@ + esc(s@) == out@ + esc(s@.subrange(i as int, n as int)),
        decreases n - i,
    {
        let ghost suf = s@.subrange(i as int, n as int);
        let ghost prev = out@;
        let c = s.get_char(i);
        if c == '\\' {
            push_char(out, '\\');
            push_char(out, '\\');
        } else if c == '\n' {
            push_char(out, '\\');
            push_char(out, 'n');
        } else if c == '"' {
            push_char(out, '\\');
            push_char(out, '"');
        } else {
            push_char(out, c);
        }
        proof {
            assert(suf[0] == s@[i as int]);
            assert(suf.drop_first() =~= s@.subrange(i + 1, n as int));
            assert(out@ =~= prev + esc_char(s@[i as int]));
            assert(prev + (esc_char(suf[0]) + esc(suf.drop_first())) =~= (prev + esc_char(suf[0]))
                + esc(suf.drop_first()));
        }
        i = i + 1;
    }
    proof {
        assert(esc(s@.subrange(i as int, n as int)) =~= Seq::<char>::empty());
        assert(out@ + Seq::<char>::empty() =~= out@);
    }
}

} // verus!
