use vstd::prelude::*;

verus! {

/// The grammar's rules. The first group tags interior nodes, the second
/// tags string fragments: escapes, quoted runs, bare runs, and the quote
/// delimiters themselves.
#[derive(Clone, Copy, Debug, PartialEq, Eq, Structural)]
pub enum Rule {
    Main,
    Attrib,
    Value,
    Id,
    Number,
    Text,
    Array,
    Hash,
    Entry,
    StrSpace,
    StrQuote,
    StrDblQuote,
    StrBackslash,
    Alphanum,
    NoQuote,
    NoDblQuote,
    Quote,
    DblQuote,
}

/// A rule-tagged parse-tree node. `text` holds the matched span for leaf
/// rules (identifiers, number tokens, fragment runs); interior nodes carry
/// their children instead.
pub struct Node {
    pub rule: Rule,
    pub text: String,
    pub kids: Vec<Node>,
}

/// Mathematical model of a parse-tree node.
#[verifier::ext_equal]
pub struct STree {
    pub rule: Rule,
    pub text: Seq<char>,
    pub kids: Seq<STree>,
}

impl Node {
    pub open spec fn view(self) -> STree
        decreases self,
    {
        STree { rule: self.rule, text: self.text@, kids: view_nodes(self.kids@) }
    }
}

pub open spec fn view_nodes(ns: Seq<Node>) -> Seq<STree>
    decreases ns,
{
    if ns.len() == 0 {
        Seq::empty()
    } else {
        seq![ns[0].view()] + view_nodes(ns.drop_first())
    }
}

pub proof fn lemma_view_nodes(ns: Seq<Node>)
    ensures
        view_nodes(ns).len() == ns.len(),
        forall|i: int| 0 <= i < ns.len() ==> view_nodes(ns)[i] == ns[i].view(),
    decreases ns.len(),
{
    if ns.len() > 0 {
        lemma_view_nodes(ns.drop_first());
    }
}

/// A leaf of the model tree: a node with the given rule and text.
pub open spec fn leaf(rule: Rule, text: Seq<char>) -> STree {
    STree { rule, text, kids: Seq::empty() }
}

/// An interior node of the model tree.
pub open spec fn branch(rule: Rule, kids: Seq<STree>) -> STree {
    STree { rule, text: Seq::empty(), kids }
}

} // verus!
