//! The concrete parse tree: rule-tagged raw text, exactly as the grammar
//! recognized it, before trimming, cleaning and tag mapping.

use vstd::prelude::*;

verus! {

/// A raw key segment: literal text or the inside of a cloze marker,
/// both untrimmed.
#[derive(Clone, Debug)]
pub enum SegCst {
    Text(String),
    Cloze(String),
}

/// A raw value entry: a node (its tag token and its untrimmed inner text)
/// or an untrimmed free-text run.
#[derive(Clone, Debug)]
pub enum ValueCst {
    Node(String, String),
    Text(String),
}

/// One raw pair: its key segments and its body entries, in source order.
#[derive(Clone, Debug)]
pub struct PairCst {
    pub key: Vec<SegCst>,
    pub value: Vec<ValueCst>,
}

/// A whole raw document.
pub type Cst = Vec<PairCst>;

/// Mathematical view of a raw key segment.
pub enum SegCstV {
    Text(Seq<char>),
    Cloze(Seq<char>),
}

/// Mathematical view of a raw value entry.
pub enum ValueCstV {
    Node(Seq<char>, Seq<char>),
    Text(Seq<char>),
}

/// Mathematical view of a raw pair.
pub struct PairCstV {
    pub key: Seq<SegCstV>,
    pub value: Seq<ValueCstV>,
}

impl View for SegCst {
    type V = SegCstV;

    open spec fn view(&self) -> SegCstV {
        match self {
            SegCst::Text(s) => SegCstV::Text(s@),
            SegCst::Cloze(s) => SegCstV::Cloze(s@),
        }
    }
}

impl DeepView for SegCst {
    type V = SegCstV;

    open spec fn deep_view(&self) -> SegCstV {
        self.view()
    }
}

impl View for ValueCst {
    type V = ValueCstV;

    open spec fn view(&self) -> ValueCstV {
        match self {
            ValueCst::Node(t, x) => ValueCstV::Node(t@, x@),
            ValueCst::Text(s) => ValueCstV::Text(s@),
        }
    }
}

impl DeepView for ValueCst {
    type V = ValueCstV;

    open spec fn deep_view(&self) -> ValueCstV {
        self.view()
    }
}

impl View for PairCst {
    type V = PairCstV;

    open spec fn view(&self) -> PairCstV {
        PairCstV { key: self.key.deep_view(), value: self.value.deep_view() }
    }
}

impl DeepView for PairCst {
    type V = PairCstV;

    open spec fn deep_view(&self) -> PairCstV {
        self.view()
    }
}

} // verus!
