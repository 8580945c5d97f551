//! The typed abstract syntax tree of an fla document, its mathematical view,
//! the part-of-speech table, and the key ordering that the canonical rewrite
//! sorts by.

use vstd::prelude::*;

verus! {

/// The seven part-of-speech tags an fla node can carry.
#[derive(Clone, Copy, PartialEq, Eq, Structural, Debug)]
pub enum Speech {
    N,
    V,
    O,
    Adj,
    Adv,
    Prep,
    Pron,
}

/// One segment of a pair's key: literal text or a cloze span
/// (payload already stripped of its delimiters).
#[derive(Clone, Debug)]
pub enum Key {
    Text(String),
    Cloze(String),
}

/// A part-of-speech-tagged definition block.
#[derive(Clone, Debug)]
pub struct Node {
    pub speech: Speech,
    pub text: String,
}

/// One value entry of a pair: a tagged node or free text.
#[derive(Clone, Debug)]
pub enum Value {
    Node(Node),
    Text(String),
}

/// One note: a key made of segments and an ordered list of value blocks.
#[derive(Clone, Debug)]
pub struct Pair {
    pub key: Vec<Key>,
    pub value: Vec<Value>,
}

/// A document item. Comments parse but are not retained, so a pair is the
/// only variant.
#[derive(Clone, Debug)]
pub enum Item {
    Pair(Pair),
}

/// A whole document: its items in source order.
pub type Root = Vec<Item>;

/// Mathematical view of a key segment.
pub enum KeyV {
    Text(Seq<char>),
    Cloze(Seq<char>),
}

/// Mathematical view of a node.
pub struct NodeV {
    pub speech: Speech,
    pub text: Seq<char>,
}

/// Mathematical view of a value entry.
pub enum ValueV {
    Node(NodeV),
    Text(Seq<char>),
}

/// Mathematical view of a pair.
pub struct PairV {
    pub key: Seq<KeyV>,
    pub value: Seq<ValueV>,
}

/// Mathematical view of an item.
pub enum ItemV {
    Pair(PairV),
}

impl View for Key {
    type V = KeyV;

    open spec fn view(&self) -> KeyV {
        match self {
            Key::Text(s) => KeyV::Text(s@),
            Key::Cloze(s) => KeyV::Cloze(s@),
        }
    }
}

impl DeepView for Key {
    type V = KeyV;

    open spec fn deep_view(&self) -> KeyV {
        self.view()
    }
}

impl View for Node {
    type V = NodeV;

    open spec fn view(&self) -> NodeV {
        NodeV { speech: self.speech, text: self.text@ }
    }
}

impl DeepView for Node {
    type V = NodeV;

    open spec fn deep_view(&self) -> NodeV {
        self.view()
    }
}

impl View for Value {
    type V = ValueV;

    open spec fn view(&self) -> ValueV {
        match self {
            Value::Node(n) => ValueV::Node(n@),
            Value::Text(s) => ValueV::Text(s@),
        }
    }
}

impl DeepView for Value {
    type V = ValueV;

    open spec fn deep_view(&self) -> ValueV {
        self.view()
    }
}

impl View for Pair {
    type V = PairV;

    open spec fn view(&self) -> PairV {
        PairV { key: self.key.deep_view(), value: self.value.deep_view() }
    }
}

impl DeepView for Pair {
    type V = PairV;

    open spec fn deep_view(&self) -> PairV {
        self.view()
    }
}

impl View for Item {
    type V = ItemV;

    open spec fn view(&self) -> ItemV {
        match self {
            Item::Pair(p) => ItemV::Pair(p@),
        }
    }
}

impl DeepView for Item {
    type V = ItemV;

    open spec fn deep_view(&self) -> ItemV {
        self.view()
    }
}

/// The canonical token of a part-of-speech tag, as characters.
pub open spec fn speech_token(sp: Speech) -> Seq<char> {
    match sp {
        Speech::N => seq!['n'],
        Speech::V => seq!['v'],
        Speech::O => seq!['o'],
        Speech::Adj => seq!['a', 'd', 'j'],
        Speech::Adv => seq!['a', 'd', 'v'],
        Speech::Prep => seq!['p', 'r', 'e', 'p'],
        Speech::Pron => seq!['p', 'r', 'o', 'n'],
    }
}

/// The tag a token denotes, if it is one of the seven canonical tokens.
pub open spec fn spec_speech_of(t: Seq<char>) -> Option<Speech> {
    if t == speech_token(Speech::N) {
        Some(Speech::N)
    } else if t == speech_token(Speech::V) {
        Some(Speech::V)
    } else if t == speech_token(Speech::O) {
        Some(Speech::O)
    } else if t == speech_token(Speech::Adj) {
        Some(Speech::Adj)
    } else if t == speech_token(Speech::Adv) {
        Some(Speech::Adv)
    } else if t == speech_token(Speech::Prep) {
        Some(Speech::Prep)
    } else if t == speech_token(Speech::Pron) {
        Some(Speech::Pron)
    } else {
        None
    }
}

impl Speech {
    /// The canonical display form of the tag.
    pub fn as_str(&self) -> (r: &'static str)
        ensures
            r@ == speech_token(*self),
    {
        proof {
            reveal_strlit("n");
            reveal_strlit("v");
            reveal_strlit("o");
            reveal_strlit("adj");
            reveal_strlit("adv");
            reveal_strlit("prep");
            reveal_strlit("pron");
            assert("n"@ =~= speech_token(Speech::N));
            assert("v"@ =~= speech_token(Speech::V));
            assert("o"@ =~= speech_token(Speech::O));
            assert("adj"@ =~= speech_token(Speech::Adj));
            assert("adv"@ =~= speech_token(Speech::Adv));
            assert("prep"@ =~= speech_token(Speech::Prep));
            assert("pron"@ =~= speech_token(Speech::Pron));
        }
        match self {
            Speech::N => "n",
            Speech::V => "v",
            Speech::O => "o",
            Speech::Adj => "adj",
            Speech::Adv => "adv",
            Speech::Prep => "prep",
            Speech::Pron => "pron",
        }
    }
}

/// Variant rank of a key segment: literal text sorts before cloze.
pub open spec fn key_rank(k: KeyV) -> int {
    match k {
        KeyV::Text(_) => 0,
        KeyV::Cloze(_) => 1,
    }
}

/// Payload of a key segment.
pub open spec fn key_payload(k: KeyV) -> Seq<char> {
    match k {
        KeyV::Text(s) => s,
        KeyV::Cloze(s) => s,
    }
}

/// Strict lexicographic order on character sequences (by code point).
pub open spec fn chars_lt(a: Seq<char>, b: Seq<char>) -> bool
    decreases a.len(),
{
    if b.len() == 0 {
        false
    } else if a.len() == 0 {
        true
    } else if (a[0] as u32) < (b[0] as u32) {
        true
    } else if a[0] == b[0] {
        chars_lt(a.drop_first(), b.drop_first())
    } else {
        false
    }
}

/// Strict order on key segments: variant first, then payload.
pub open spec fn key_lt(a: KeyV, b: KeyV) -> bool {
    key_rank(a) < key_rank(b) || (key_rank(a) == key_rank(b) && chars_lt(
        key_payload(a),
        key_payload(b),
    ))
}

/// Strict lexicographic order on whole keys (sequences of segments).
pub open spec fn keyseq_lt(a: Seq<KeyV>, b: Seq<KeyV>) -> bool
    decreases a.len(),
{
    if b.len() == 0 {
        false
    } else if a.len() == 0 {
        true
    } else if key_lt(a[0], b[0]) {
        true
    } else if a[0] == b[0] {
        keyseq_lt(a.drop_first(), b.drop_first())
    } else {
        false
    }
}

/// Strict order on pairs, by key alone.
pub open spec fn pair_lt(a: PairV, b: PairV) -> bool {
    keyseq_lt(a.key, b.key)
}

/// Compare two strings lexicographically by code point.
pub fn chars_lt_exec(a: &str, b: &str) -> (r: bool)
    ensures
        r == chars_lt(a@, b@),
    decreases a@.len(),
{
    let an = a.unicode_len();
    let bn = b.unicode_len();
    let mut i: usize = 0;
    proof {
        assert(a@.subrange(0, an as int) =~= a@);
        assert(b@.subrange(0, bn as int) =~= b@);
    }
    loop
        invariant
            an == a@.len(),
            bn == b@.len(),
            i <= an,
            i <= bn,
            chars_lt(a@, b@) == chars_lt(
                a@.subrange(i as int, an as int),
                b@.subrange(i as int, bn as int),
            ),
        decreases an - i,
    {
        if i == bn {
            proof {
                assert(b@.subrange(i as int, bn as int).len() == 0);
            }
            return false;
        }
        if i == an {
            proof {
                assert(a@.subrange(i as int, an as int).len() == 0);
            }
            return true;
        }
        let ca = a.get_char(i);
        let cb = b.get_char(i);
        if (ca as u32) < (cb as u32) {
            return true;
        }
        if ca != cb {
            return false;
        }
        proof {
            let sa = a@.subrange(i as int, an as int);
            let sb = b@.subrange(i as int, bn as int);
            assert(sa.drop_first() =~= a@.subrange(i + 1, an as int));
            assert(sb.drop_first() =~= b@.subrange(i + 1, bn as int));
        }
        i = i + 1;
    }
}

impl Key {
    fn rank(&self) -> (r: u8)
        ensures
            r as int == key_rank(self@),
    {
        match self {
            Key::Text(_) => 0,
            Key::Cloze(_) => 1,
        }
    }

    fn payload(&self) -> (r: &String)
        ensures
            r@ == key_payload(self@),
    {
        match self {
            Key::Text(s) => s,
            Key::Cloze(s) => s,
        }
    }

    /// Whether `self` sorts strictly before `other`.
    pub fn lt(&self, other: &Key) -> (r: bool)
        ensures
            r == key_lt(self@, other@),
    {
        let ra = self.rank();
        let rb = other.rank();
        if ra < rb {
            true
        } else if ra > rb {
            false
        } else {
            chars_lt_exec(self.payload().as_str(), other.payload().as_str())
        }
    }

    fn eq_key(&self, other: &Key) -> (r: bool)
        ensures
            r == (self@ == other@),
    {
        let ra = self.rank();
        let rb = other.rank();
        if ra != rb {
            false
        } else {
            let e = self.payload().eq(other.payload());
            proof {
                match (self, other) {
                    (Key::Text(x), Key::Text(y)) => assert((x@ == y@) == (self@ == other@)),
                    (Key::Cloze(x), Key::Cloze(y)) => assert((x@ == y@) == (self@ == other@)),
                    _ => assert(false),
                }
            }
            e
        }
    }
}

/// Whether key `a` sorts strictly before key `b`.
pub fn keyseq_lt_exec(a: &Vec<Key>, b: &Vec<Key>) -> (r: bool)
    ensures
        r == keyseq_lt(a.deep_view(), b.deep_view()),
{
    let an = a.len();
    let bn = b.len();
    let mut i: usize = 0;
    proof {
        assert(a.deep_view().subrange(0, an as int) =~= a.deep_view());
        assert(b.deep_view().subrange(0, bn as int) =~= b.deep_view());
    }
    loop
        invariant
            an == a.deep_view().len(),
            bn == b.deep_view().len(),
            i <= an,
            i <= bn,
            keyseq_lt(a.deep_view(), b.deep_view()) == keyseq_lt(
                a.deep_view().subrange(i as int, an as int),
                b.deep_view().subrange(i as int, bn as int),
            ),
        decreases an - i,
    {
        if i == bn {
            return false;
        }
        if i == an {
            return true;
        }
        proof {
            assert(a.deep_view()[i as int] == a[i as int].deep_view());
            assert(b.deep_view()[i as int] == b[i as int].deep_view());
        }
        if a[i].lt(&b[i]) {
            return true;
        }
        if !a[i].eq_key(&b[i]) {
            return false;
        }
        proof {
            let sa = a.deep_view().subrange(i as int, an as int);
            let sb = b.deep_view().subrange(i as int, bn as int);
            assert(sa.drop_first() =~= a.deep_view().subrange(i + 1, an as int));
            assert(sb.drop_first() =~= b.deep_view().subrange(i + 1, bn as int));
        }
        i = i + 1;
    }
}

} // verus!
