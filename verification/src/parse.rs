use vstd::prelude::*;
use crate::err::ParseError;
use crate::grammar::{
    bare_end, blank, digits_end, frag_start, is_bare, is_digit, is_escapable, is_number_text,
    is_qsafe, is_ws, lemma_bare_end_bounds, lemma_digits_end_bounds, lemma_qrun_end_bounds,
    lemma_skip_ws_bounds, qrun_end, quote_rule, skip_ws, sp_attrib, sp_attribs, sp_entries, sp_escape,
    sp_fragment, sp_fragments, sp_items, sp_main, sp_qfrags, sp_token, sp_value,
};
use crate::reduce::{digits_end_x, lemma_sr_node_kinds, lift, reduce, sr_node};
use crate::tree::{branch, leaf, lemma_view_nodes, view_nodes, Node, Rule};
use crate::value::Value;

verus! {

// ---------------------------------------------------------------------------
// Character tests and scanners, each against its model.
// ---------------------------------------------------------------------------

fn ws_char(c: char) -> (b: bool)
    ensures
        b == is_ws(c),
{
    c == ' ' || c == '\t' || c == '\n' || c == '\r'
}

fn bare_char(c: char) -> (b: bool)
    ensures
        b == is_bare(c),
{
    let u = c as u32;
    !(c == ' ' || c == '\t' || c == '\n' || c == '\r') && !(c == '(' || c == ')' || c == '['
        || c == ']' || c == '=' || c == '\'' || c == '"' || c == '\\') && u >= 32
}

fn qsafe_char(c: char, q: char) -> (b: bool)
    ensures
        b == is_qsafe(c, q),
{
    let u = c as u32;
    c != q && c != '\\' && u >= 32
}

#[verifier::loop_isolation(false)]
fn skip_ws_x(s: &str, n: usize, i: usize) -> (r: usize)
    requires
        i <= n == s@.len(),
    ensures
        r == skip_ws(s@, i as int),
        i <= r <= n,
{
    let mut j = i;
    while j < n && ws_char(s.get_char(j))
        invariant
            i <= j <= n,
            skip_ws(s@, i as int) == skip_ws(s@, j as int),
        decreases n - j,
    {
        j = j + 1;
    }
    j
}

#[verifier::loop_isolation(false)]
fn bare_end_x(s: &str, n: usize, i: usize) -> (r: usize)
    requires
        i <= n == s@.len(),
    ensures
        r == bare_end(s@, i as int),
        i <= r <= n,
{
    let mut j = i;
    while j < n && bare_char(s.get_char(j))
        invariant
            i <= j <= n,
            bare_end(s@, i as int) == bare_end(s@, j as int),
        decreases n - j,
    {
        j = j + 1;
    }
    j
}

#[verifier::loop_isolation(false)]
fn qrun_end_x(s: &str, n: usize, i: usize, q: char) -> (r: usize)
    requires
        i <= n == s@.len(),
    ensures
        r == qrun_end(s@, i as int, q),
        i <= r <= n,
{
    let mut j = i;
    while j < n && qsafe_char(s.get_char(j), q)
        invariant
            i <= j <= n,
            qrun_end(s@, i as int, q) == qrun_end(s@, j as int, q),
        decreases n - j,
    {
        j = j + 1;
    }
    j
}

/// Whether a whole token has number shape, per `is_number_text`.
fn number_text_x(t: &str) -> (b: bool)
    ensures
        b == is_number_text(t@),
{
    let n = t.unicode_len();
    let neg = n > 0 && t.get_char(0) == '-';
    let st: usize = if neg {
        1
    } else {
        0
    };
    if st > n {
        return false;
    }
    let de = digits_end_x(t, n, st);
    de > st && (de == n || (de + 1 < n && t.get_char(de) == '.' && digits_end_x(t, n, de + 1)
        == n))
}

// ---------------------------------------------------------------------------
// Derivation: one function per rule, each producing exactly the nodes its
// model function derives, or a grammar error at the position that refused.
// ---------------------------------------------------------------------------

fn span(s: &str, from: usize, to: usize) -> (t: String)
    requires
        from <= to <= s@.len(),
    ensures
        t@ == s@.subrange(from as int, to as int),
{
    String::from_str(s.substring_char(from, to))
}

fn leaf_node(rule: Rule, text: String) -> (nd: Node)
    ensures
        nd@ == leaf(rule, text@),
{
    let nd = Node { rule, text, kids: Vec::new() };
    proof {
        assert(nd@ =~~= leaf(rule, nd.text@));
    }
    nd
}

fn d_escape(s: &str, n: usize, i: usize) -> (r: Result<(Node, usize), ParseError>)
    requires
        i <= n == s@.len(),
    ensures
        match r {
            Ok((nd, j)) => sp_escape(s@, i as int) == Some((nd@, j as int)) && i < j <= n,
            Err(e) => sp_escape(s@, i as int) is None && e is GrammarError,
        },
    decreases n - i, 1int,
{
    if i < n && i + 1 < n && s.get_char(i) == '\\' {
        let c = s.get_char(i + 1);
        if c == ' ' || c == '\'' || c == '"' || c == '\\' {
            let rule = if c == ' ' {
                Rule::StrSpace
            } else if c == '\'' {
                Rule::StrQuote
            } else if c == '"' {
                Rule::StrDblQuote
            } else {
                Rule::StrBackslash
            };
            Ok((leaf_node(rule, span(s, i, i + 2)), i + 2))
        } else {
            Err(ParseError::GrammarError(i))
        }
    } else {
        Err(ParseError::GrammarError(i))
    }
}

fn d_qfrags(s: &str, n: usize, i: usize, q: char) -> (r: Result<(Vec<Node>, usize), ParseError>)
    requires
        i <= n == s@.len(),
    ensures
        match r {
            Ok((ks, j)) => sp_qfrags(s@, i as int, q) == Some((view_nodes(ks@), j as int)) && i
                < j <= n,
            Err(e) => sp_qfrags(s@, i as int, q) is None && e is GrammarError,
        },
    decreases n - i, 2int,
{
    if i >= n {
        return Err(ParseError::GrammarError(i));
    }
    let c = s.get_char(i);
    if c == q {
        let rule = if q == '\'' {
            Rule::Quote
        } else {
            Rule::DblQuote
        };
        let mut ks: Vec<Node> = Vec::new();
        ks.push(leaf_node(rule, span(s, i, i + 1)));
        proof {
            lemma_view_nodes(ks@);
            assert(s@.subrange(i as int, i + 1) =~= seq![q]);
            assert(view_nodes(ks@) =~~= seq![leaf(quote_rule(q), seq![q])]);
        }
        return Ok((ks, i + 1));
    }
    if c == '\\' {
        match d_escape(s, n, i) {
            Err(e) => Err(e),
            Ok((t, j)) => match d_qfrags(s, n, j, q) {
                Err(e) => Err(e),
                Ok((mut rest, k)) => {
                    proof {
                        lemma_view_nodes(rest@);
                    }
                    let ghost old_rest = rest@;
                    rest.insert(0, t);
                    proof {
                        assert(rest@.drop_first() =~= old_rest);
                        lemma_view_nodes(rest@);
                        assert(view_nodes(rest@) =~= seq![rest@[0]@] + view_nodes(old_rest));
                    }
                    Ok((rest, k))
                },
            },
        }
    } else if qsafe_char(c, q) {
        let e = qrun_end_x(s, n, i, q);
        proof {
            lemma_qrun_end_bounds(s@, i + 1, q);
        }
        assert(e > i);
        match d_qfrags(s, n, e, q) {
            Err(er) => Err(er),
            Ok((mut rest, k)) => {
                let rule = if q == '\'' {
                    Rule::NoQuote
                } else {
                    Rule::NoDblQuote
                };
                let t = leaf_node(rule, span(s, i, e));
                proof {
                    lemma_view_nodes(rest@);
                }
                let ghost old_rest = rest@;
                rest.insert(0, t);
                proof {
                    assert(rest@.drop_first() =~= old_rest);
                    lemma_view_nodes(rest@);
                    assert(view_nodes(rest@) =~= seq![rest@[0]@] + view_nodes(old_rest));
                }
                Ok((rest, k))
            },
        }
    } else {
        Err(ParseError::GrammarError(i))
    }
}

fn d_fragment(s: &str, n: usize, i: usize) -> (r: Result<(Vec<Node>, usize), ParseError>)
    requires
        i <= n == s@.len(),
    ensures
        match r {
            Ok((ks, j)) => sp_fragment(s@, i as int) == Some((view_nodes(ks@), j as int)) && i
                < j <= n && ks@.len() > 0,
            Err(e) => sp_fragment(s@, i as int) is None && e is GrammarError,
        },
    decreases n - i, 3int,
{
    if i >= n {
        return Err(ParseError::GrammarError(i));
    }
    let c = s.get_char(i);
    if c == '\'' || c == '"' {
        match d_qfrags(s, n, i + 1, c) {
            Err(e) => Err(e),
            Ok((mut kids, j)) => {
                let rule = if c == '\'' {
                    Rule::Quote
                } else {
                    Rule::DblQuote
                };
                let t = leaf_node(rule, span(s, i, i + 1));
                proof {
                    lemma_view_nodes(kids@);
                    assert(s@.subrange(i as int, i + 1) =~= seq![c]);
                }
                let ghost old_kids = kids@;
                kids.insert(0, t);
                proof {
                    assert(kids@.drop_first() =~= old_kids);
                    lemma_view_nodes(kids@);
                    assert(view_nodes(kids@) =~= seq![kids@[0]@] + view_nodes(old_kids));
                }
                Ok((kids, j))
            },
        }
    } else if c == '\\' {
        match d_escape(s, n, i) {
            Err(e) => Err(e),
            Ok((t, j)) => {
                let mut ks: Vec<Node> = Vec::new();
                let ghost tv = t@;
                ks.push(t);
                proof {
                    lemma_view_nodes(ks@);
                    assert(view_nodes(ks@) =~= seq![tv]);
                }
                Ok((ks, j))
            },
        }
    } else if bare_char(c) {
        let e = bare_end_x(s, n, i);
        proof {
            lemma_bare_end_bounds(s@, i + 1);
        }
        assert(e > i);
        let t = leaf_node(Rule::Alphanum, span(s, i, e));
        let mut ks: Vec<Node> = Vec::new();
        let ghost tv = t@;
        ks.push(t);
        proof {
            lemma_view_nodes(ks@);
            assert(view_nodes(ks@) =~= seq![tv]);
        }
        Ok((ks, e))
    } else {
        Err(ParseError::GrammarError(i))
    }
}

fn d_fragments(s: &str, n: usize, i: usize) -> (r: Result<(Vec<Node>, usize), ParseError>)
    requires
        i <= n == s@.len(),
    ensures
        match r {
            Ok((ks, j)) => sp_fragments(s@, i as int) == Some((view_nodes(ks@), j as int)) && i
                <= j <= n && (ks@.len() > 0 ==> i < j),
            Err(e) => sp_fragments(s@, i as int) is None && e is GrammarError,
        },
    decreases n - i, 4int,
{
    let start = i < n && {
        let c = s.get_char(i);
        c == '\'' || c == '"' || c == '\\' || bare_char(c)
    };
    if !start {
        let ks: Vec<Node> = Vec::new();
        proof {
            lemma_view_nodes(ks@);
            assert(view_nodes(ks@) =~= Seq::<crate::tree::STree>::empty());
        }
        Ok((ks, i))
    } else {
        match d_fragment(s, n, i) {
            Err(e) => Err(e),
            Ok((mut ks, j)) => match d_fragments(s, n, j) {
                Err(e) => Err(e),
                Ok((mut rest, k)) => {
                    proof {
                        lemma_view_nodes(ks@);
                        lemma_view_nodes(rest@);
                    }
                    let ghost ksv = ks@;
                    let ghost restv = rest@;
                    ks.append(&mut rest);
                    proof {
                        lemma_view_nodes(ks@);
                        assert(view_nodes(ks@) =~= view_nodes(ksv) + view_nodes(restv));
                    }
                    Ok((ks, k))
                },
            },
        }
    }
}

fn d_token(s: &str, n: usize, i: usize) -> (r: Result<(Node, usize), ParseError>)
    requires
        i <= n == s@.len(),
    ensures
        match r {
            Ok((nd, j)) => sp_token(s@, i as int) == Some((nd@, j as int)) && i < j <= n,
            Err(e) => sp_token(s@, i as int) is None && e is GrammarError,
        },
    decreases n - i, 5int,
{
    match d_fragments(s, n, i) {
        Err(e) => Err(e),
        Ok((ks, j)) => {
            proof {
                lemma_view_nodes(ks@);
            }
            if ks.len() == 0 {
                Err(ParseError::GrammarError(i))
            } else if ks.len() == 1 && ks[0].rule == Rule::Alphanum && number_text_x(
                ks[0].text.as_str(),
            ) {
                let nd = leaf_node(Rule::Number, ks[0].text.clone());
                Ok((nd, j))
            } else {
                let nd = Node { rule: Rule::Text, text: String::new(), kids: ks };
                proof {
                    assert(nd@ =~~= branch(Rule::Text, view_nodes(nd.kids@)));
                }
                Ok((nd, j))
            }
        },
    }
}

fn d_value(s: &str, n: usize, i: usize) -> (r: Result<(Node, usize), ParseError>)
    requires
        i <= n == s@.len(),
    ensures
        match r {
            Ok((nd, j)) => sp_value(s@, i as int) == Some((nd@, j as int)) && i < j <= n,
            Err(e) => sp_value(s@, i as int) is None && e is GrammarError,
        },
    decreases n - i, 6int,
{
    if i >= n {
        return Err(ParseError::GrammarError(i));
    }
    if s.get_char(i) == '(' {
        let j = skip_ws_x(s, n, i + 1);
        if j < n && s.get_char(j) == '[' {
            match d_entries(s, n, j) {
                Err(e) => Err(e),
                Ok((ks, k)) => Ok((wrap_container(Rule::Hash, ks), k)),
            }
        } else {
            match d_items(s, n, j) {
                Err(e) => Err(e),
                Ok((ks, k)) => Ok((wrap_container(Rule::Array, ks), k)),
            }
        }
    } else {
        match d_token(s, n, i) {
            Err(e) => Err(e),
            Ok((t, j)) => {
                let ghost tv = t@;
                let mut kids: Vec<Node> = Vec::new();
                kids.push(t);
                let nd = Node { rule: Rule::Value, text: String::new(), kids };
                proof {
                    lemma_view_nodes(nd.kids@);
                    assert(view_nodes(nd.kids@) =~= seq![tv]);
                    assert(nd@ =~~= branch(Rule::Value, seq![tv]));
                }
                Ok((nd, j))
            },
        }
    }
}

/// A `value` node around a freshly derived `array` or `hash` node.
fn wrap_container(rule: Rule, ks: Vec<Node>) -> (nd: Node)
    ensures
        nd@ == branch(Rule::Value, seq![branch(rule, view_nodes(ks@))]),
{
    let ghost ksv = ks@;
    let inner = Node { rule, text: String::new(), kids: ks };
    proof {
        assert(inner@ =~~= branch(rule, view_nodes(ksv)));
    }
    let ghost iv = inner@;
    let mut kids: Vec<Node> = Vec::new();
    kids.push(inner);
    let nd = Node { rule: Rule::Value, text: String::new(), kids };
    proof {
        lemma_view_nodes(nd.kids@);
        assert(view_nodes(nd.kids@) =~= seq![iv]);
        assert(nd@ =~~= branch(Rule::Value, seq![iv]));
    }
    nd
}

fn d_items(s: &str, n: usize, i: usize) -> (r: Result<(Vec<Node>, usize), ParseError>)
    requires
        i <= n == s@.len(),
    ensures
        match r {
            Ok((ks, j)) => sp_items(s@, i as int) == Some((view_nodes(ks@), j as int)) && i < j
                <= n,
            Err(e) => sp_items(s@, i as int) is None && e is GrammarError,
        },
    decreases n - i, 7int,
{
    let j = skip_ws_x(s, n, i);
    if j >= n {
        return Err(ParseError::GrammarError(j));
    }
    if s.get_char(j) == ')' {
        let ks: Vec<Node> = Vec::new();
        proof {
            lemma_view_nodes(ks@);
            assert(view_nodes(ks@) =~= Seq::<crate::tree::STree>::empty());
        }
        return Ok((ks, j + 1));
    }
    match d_value(s, n, j) {
        Err(e) => Err(e),
        Ok((v, k)) => {
            if k < n && (ws_char(s.get_char(k)) || s.get_char(k) == ')') {
                match d_items(s, n, k) {
                    Err(e) => Err(e),
                    Ok((mut rest, e)) => {
                        proof {
                            lemma_view_nodes(rest@);
                        }
                        let ghost old_rest = rest@;
                        rest.insert(0, v);
                        proof {
                            assert(rest@.drop_first() =~= old_rest);
                            lemma_view_nodes(rest@);
                            assert(view_nodes(rest@) =~= seq![rest@[0]@] + view_nodes(old_rest));
                        }
                        Ok((rest, e))
                    },
                }
            } else {
                Err(ParseError::GrammarError(k))
            }
        },
    }
}

fn d_entries(s: &str, n: usize, i: usize) -> (r: Result<(Vec<Node>, usize), ParseError>)
    requires
        i <= n == s@.len(),
    ensures
        match r {
            Ok((ks, j)) => sp_entries(s@, i as int) == Some((view_nodes(ks@), j as int)) && i < j
                <= n,
            Err(e) => sp_entries(s@, i as int) is None && e is GrammarError,
        },
    decreases n - i, 7int,
{
    let j = skip_ws_x(s, n, i);
    if j >= n {
        return Err(ParseError::GrammarError(j));
    }
    if s.get_char(j) == ')' {
        let ks: Vec<Node> = Vec::new();
        proof {
            lemma_view_nodes(ks@);
            assert(view_nodes(ks@) =~= Seq::<crate::tree::STree>::empty());
        }
        return Ok((ks, j + 1));
    }
    if s.get_char(j) != '[' {
        return Err(ParseError::GrammarError(j));
    }
    let b = bare_end_x(s, n, j + 1);
    if b <= j + 1 {
        return Err(ParseError::GrammarError(b));
    }
    if !(b < n && b + 1 < n && s.get_char(b) == ']' && s.get_char(b + 1) == '=') {
        return Err(ParseError::GrammarError(b));
    }
    let p = b + 2;
    let id = leaf_node(Rule::Id, span(s, j + 1, b));
    let ghost idv = id@;
    if p < n && !ws_char(s.get_char(p)) && s.get_char(p) != ')' {
        match d_value(s, n, p) {
            Err(e) => Err(e),
            Ok((v, k)) => {
                if !(k < n && (ws_char(s.get_char(k)) || s.get_char(k) == ')')) {
                    return Err(ParseError::GrammarError(k));
                }
                match d_entries(s, n, k) {
                    Err(e) => Err(e),
                    Ok((mut rest, e)) => {
                        let ghost vv = v@;
                        let entry = make_entry(id, Some(v));
                        proof {
                            lemma_view_nodes(rest@);
                        }
                        let ghost old_rest = rest@;
                        let ghost ev = entry@;
                        rest.insert(0, entry);
                        proof {
                            assert(rest@.drop_first() =~= old_rest);
                            lemma_view_nodes(rest@);
                            assert(view_nodes(rest@) =~= seq![ev] + view_nodes(old_rest));
                        }
                        Ok((rest, e))
                    },
                }
            },
        }
    } else {
        match d_entries(s, n, p) {
            Err(e) => Err(e),
            Ok((mut rest, e)) => {
                let entry = make_entry(id, None);
                proof {
                    lemma_view_nodes(rest@);
                }
                let ghost old_rest = rest@;
                let ghost ev = entry@;
                rest.insert(0, entry);
                proof {
                    assert(rest@.drop_first() =~= old_rest);
                    lemma_view_nodes(rest@);
                    assert(view_nodes(rest@) =~= seq![ev] + view_nodes(old_rest));
                }
                Ok((rest, e))
            },
        }
    }
}

/// An `entry` or `attrib` node: the identifier and, where present, the
/// value.
fn make_entry_like(rule: Rule, id: Node, v: Option<Node>) -> (nd: Node)
    ensures
        nd@ == match v {
            Some(vn) => branch(rule, seq![id@, vn@]),
            None => branch(rule, seq![id@]),
        },
{
    let ghost idv = id@;
    let mut kids: Vec<Node> = Vec::new();
    kids.push(id);
    match v {
        Some(vn) => {
            let ghost vv = vn@;
            kids.push(vn);
            let nd = Node { rule, text: String::new(), kids };
            proof {
                lemma_view_nodes(nd.kids@);
                assert(view_nodes(nd.kids@) =~= seq![idv, vv]);
                assert(nd@ =~~= branch(rule, seq![idv, vv]));
            }
            nd
        },
        None => {
            let nd = Node { rule, text: String::new(), kids };
            proof {
                lemma_view_nodes(nd.kids@);
                assert(view_nodes(nd.kids@) =~= seq![idv]);
                assert(nd@ =~~= branch(rule, seq![idv]));
            }
            nd
        },
    }
}

fn make_entry(id: Node, v: Option<Node>) -> (nd: Node)
    ensures
        nd@ == match v {
            Some(vn) => branch(Rule::Entry, seq![id@, vn@]),
            None => branch(Rule::Entry, seq![id@]),
        },
{
    make_entry_like(Rule::Entry, id, v)
}

fn d_attrib(s: &str, n: usize, i: usize) -> (r: Result<(Node, usize), ParseError>)
    requires
        i <= n == s@.len(),
    ensures
        match r {
            Ok((nd, j)) => sp_attrib(s@, i as int) == Some((nd@, j as int)) && i < j <= n,
            Err(e) => sp_attrib(s@, i as int) is None && e is GrammarError,
        },
    decreases n - i, 7int,
{
    let b = bare_end_x(s, n, i);
    if b <= i || b >= n || s.get_char(b) != '=' {
        return Err(ParseError::GrammarError(b));
    }
    let p = b + 1;
    let id = leaf_node(Rule::Id, span(s, i, b));
    if p < n && !ws_char(s.get_char(p)) {
        match d_value(s, n, p) {
            Err(e) => Err(e),
            Ok((v, k)) => {
                if k < n && !ws_char(s.get_char(k)) {
                    Err(ParseError::GrammarError(k))
                } else {
                    Ok((make_entry_like(Rule::Attrib, id, Some(v)), k))
                }
            },
        }
    } else {
        Ok((make_entry_like(Rule::Attrib, id, None), p))
    }
}

fn d_attribs(s: &str, n: usize, i: usize) -> (r: Result<(Vec<Node>, usize), ParseError>)
    requires
        i <= n == s@.len(),
    ensures
        match r {
            Ok((ks, j)) => sp_attribs(s@, i as int) == Some((view_nodes(ks@), j as int)) && i < j
                <= n,
            Err(e) => sp_attribs(s@, i as int) is None && e is GrammarError,
        },
    decreases n - i, 8int,
{
    match d_attrib(s, n, i) {
        Err(e) => Err(e),
        Ok((a, j)) => {
            let k = skip_ws_x(s, n, j);
            if k >= n {
                let ghost av = a@;
                let mut ks: Vec<Node> = Vec::new();
                ks.push(a);
                proof {
                    lemma_view_nodes(ks@);
                    assert(view_nodes(ks@) =~= seq![av]);
                }
                Ok((ks, k))
            } else {
                match d_attribs(s, n, k) {
                    Err(e) => Err(e),
                    Ok((mut rest, e)) => {
                        let ghost av = a@;
                        proof {
                            lemma_view_nodes(rest@);
                        }
                        let ghost old_rest = rest@;
                        rest.insert(0, a);
                        proof {
                            assert(rest@.drop_first() =~= old_rest);
                            lemma_view_nodes(rest@);
                            assert(view_nodes(rest@) =~= seq![av] + view_nodes(old_rest));
                        }
                        Ok((rest, e))
                    },
                }
            }
        },
    }
}

/// Parse shell assignment text into a value: blank input is refused as
/// empty, text outside the grammar as a grammar error at the position that
/// refused, and a derived tree is reduced by [`crate::reduce::reduce`] —
/// so the result is exactly `sr_node` of the `sp_main` derivation.
pub fn parse(value: &str) -> (r: Result<Value, ParseError>)
    ensures
        blank(value@) <==> r == Err::<Value, _>(ParseError::EmptyInputError),
        !blank(value@) && sp_main(value@) is None ==> r is Err && (r matches Err(e)
            && e is GrammarError),
        sp_main(value@) matches Some(t) ==> lift(r) == sr_node(t),
{
    let s = value;
    let n = s.unicode_len();
    let i = skip_ws_x(s, n, 0);
    if i >= n {
        return Err(ParseError::EmptyInputError);
    }
    let b = bare_end_x(s, n, i);
    if b > i && b < n && s.get_char(b) == '=' {
        match d_attribs(s, n, i) {
            Err(e) => Err(e),
            Ok((ks, _j)) => {
                let main = Node { rule: Rule::Main, text: String::new(), kids: ks };
                proof {
                    assert(main@ =~~= branch(Rule::Main, view_nodes(main.kids@)));
                    lemma_sr_node_kinds(main@);
                }
                reduce(&main)
            },
        }
    } else {
        match d_value(s, n, i) {
            Err(e) => Err(e),
            Ok((v, j)) => {
                let e = skip_ws_x(s, n, j);
                if e == n {
                    let ghost vv = v@;
                    let mut kids: Vec<Node> = Vec::new();
                    kids.push(v);
                    let main = Node { rule: Rule::Main, text: String::new(), kids };
                    proof {
                        lemma_view_nodes(main.kids@);
                        assert(view_nodes(main.kids@) =~= seq![vv]);
                        assert(main@ =~~= branch(Rule::Main, seq![vv]));
                        lemma_sr_node_kinds(main@);
                    }
                    reduce(&main)
                } else {
                    Err(ParseError::GrammarError(e))
                }
            },
        }
    }
}

} // verus!
