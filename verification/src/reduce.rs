use vstd::prelude::*;
use crate::err::{kind_of, ErrKind, ParseError};
use crate::grammar::{digits_end, is_digit, is_number_text};
use crate::tree::{lemma_view_nodes, view_nodes, Node, Rule, STree};
use crate::value::{lemma_view_arr, lemma_view_obj, view_arr, view_obj, JNum, Jv, Number, Value};

verus! {

broadcast use vstd::std_specs::vec::axiom_vec_index_decreases;

/// The outcome of a reduction step in the model: the reduced value, or the
/// kind of failure.
pub open spec fn lift(r: Result<Value, ParseError>) -> Result<Jv, ErrKind> {
    match r {
        Ok(v) => Ok(v.view()),
        Err(e) => Err(kind_of(e)),
    }
}

// ---------------------------------------------------------------------------
// Number conversion.
// ---------------------------------------------------------------------------

pub open spec fn dval(c: char) -> nat {
    if is_digit(c) {
        (c as u32 - 48) as nat
    } else {
        0
    }
}

/// The digits of `t` in `[i, end)` read onto the accumulator `acc`,
/// most significant first.
pub open spec fn num_val(t: Seq<char>, i: int, end: int, acc: nat) -> nat
    decreases end - i,
{
    if !(i < end) || !(0 <= i < t.len()) {
        acc
    } else {
        num_val(t, i + 1, end, acc * 10 + dval(t[i]))
    }
}

/// The mantissa of a number token: its integer and fraction digits read as
/// one integer.
pub open spec fn mantissa_of(t: Seq<char>) -> nat {
    let st: int = if t.len() > 0 && t[0] == '-' {
        1
    } else {
        0
    };
    let de = digits_end(t, st);
    if de == t.len() {
        num_val(t, st, de, 0)
    } else {
        num_val(t, de + 1, t.len() as int, num_val(t, st, de, 0))
    }
}

pub open spec fn frac_len_of(t: Seq<char>) -> int {
    let st: int = if t.len() > 0 && t[0] == '-' {
        1
    } else {
        0
    };
    let de = digits_end(t, st);
    if de == t.len() {
        0
    } else {
        t.len() - de - 1
    }
}

/// Conversion of a token in number position. A token without number shape,
/// a mantissa beyond `u64`, or a fraction of more than 32767 digits does
/// not convert.
pub open spec fn sr_number(t: Seq<char>) -> Result<Jv, ErrKind> {
    if !is_number_text(t) {
        Err(ErrKind::NumberFormat)
    } else if mantissa_of(t) > u64::MAX || frac_len_of(t) > 32767 {
        Err(ErrKind::NumberFormat)
    } else {
        Ok(
            Jv::Num(
                JNum::Dec {
                    neg: t[0] == '-',
                    mant: mantissa_of(t) as u64,
                    exp: -frac_len_of(t),
                },
            ),
        )
    }
}

// ---------------------------------------------------------------------------
// Objects: insertion keeps the first position of a key and overwrites its
// value; a fresh key goes to the end.
// ---------------------------------------------------------------------------

pub open spec fn key_idx(es: Seq<(Seq<char>, Jv)>, k: Seq<char>, i: int) -> int
    decreases es.len() - i,
{
    if !(0 <= i < es.len()) {
        -1
    } else if es[i].0 == k {
        i
    } else {
        key_idx(es, k, i + 1)
    }
}

pub open spec fn obj_insert(es: Seq<(Seq<char>, Jv)>, k: Seq<char>, v: Jv) -> Seq<
    (Seq<char>, Jv),
> {
    let at = key_idx(es, k, 0);
    if at < 0 {
        es.push((k, v))
    } else {
        es.update(at, (k, v))
    }
}

// ---------------------------------------------------------------------------
// Reduction of a parse tree to a value, in the model. Any node outside the
// rule set expected at its position fails rather than being passed over.
// ---------------------------------------------------------------------------

/// What a string fragment contributes: a space, quote, double quote or
/// backslash for the escapes; its own text for a run; nothing for a quote
/// delimiter. Other rules do not stand in a string.
pub open spec fn frag_text(t: STree) -> Option<Seq<char>> {
    match t.rule {
        Rule::StrSpace => Some(seq![' ']),
        Rule::StrQuote => Some(seq!['\'']),
        Rule::StrDblQuote => Some(seq!['"']),
        Rule::StrBackslash => Some(seq!['\\']),
        Rule::Alphanum => Some(t.text),
        Rule::NoQuote => Some(t.text),
        Rule::NoDblQuote => Some(t.text),
        Rule::Quote => Some(Seq::empty()),
        Rule::DblQuote => Some(Seq::empty()),
        _ => None,
    }
}

pub open spec fn sr_frags(ks: Seq<STree>, i: int) -> Result<Seq<char>, ErrKind>
    decreases ks.len() - i,
{
    if !(0 <= i < ks.len()) {
        Ok(Seq::empty())
    } else {
        match frag_text(ks[i]) {
            None => Err(ErrKind::UnexpectedToken),
            Some(tx) => match sr_frags(ks, i + 1) {
                Err(e) => Err(e),
                Ok(rest) => Ok(tx + rest),
            },
        }
    }
}

/// The reduction of one node: `main` gives an object over its assignments
/// or the one bare value; `value` passes through to its child; identifiers
/// and strings give strings, number tokens numbers, arrays and hashes their
/// containers.
pub open spec fn sr_node(t: STree) -> Result<Jv, ErrKind>
    decreases t, 1int,
{
    match t.rule {
        Rule::Main => if t.kids.len() == 0 {
            Err(ErrKind::UnexpectedValue)
        } else if t.kids[0].rule == Rule::Attrib {
            match sr_kvs(t.kids, 0, Rule::Attrib, Seq::empty()) {
                Err(e) => Err(e),
                Ok(es) => Ok(Jv::Obj(es)),
            }
        } else if t.kids[0].rule == Rule::Value && t.kids.len() == 1 {
            sr_node(t.kids[0])
        } else {
            Err(ErrKind::UnexpectedValue)
        },
        Rule::Value => if t.kids.len() == 1 {
            sr_node(t.kids[0])
        } else {
            Err(ErrKind::UnexpectedValue)
        },
        Rule::Id => Ok(Jv::Str(t.text)),
        Rule::Number => sr_number(t.text),
        Rule::Text => match sr_frags(t.kids, 0) {
            Err(e) => Err(e),
            Ok(cs) => Ok(Jv::Str(cs)),
        },
        Rule::Array => match sr_items(t.kids, 0) {
            Err(e) => Err(e),
            Ok(vs) => Ok(Jv::Arr(vs)),
        },
        Rule::Hash => match sr_kvs(t.kids, 0, Rule::Entry, Seq::empty()) {
            Err(e) => Err(e),
            Ok(es) => Ok(Jv::Obj(es)),
        },
        _ => Err(ErrKind::UnexpectedToken),
    }
}

pub open spec fn sr_items(ks: Seq<STree>, i: int) -> Result<Seq<Jv>, ErrKind>
    decreases ks, ks.len() - i,
{
    if !(0 <= i < ks.len()) {
        Ok(Seq::empty())
    } else if ks[i].rule != Rule::Value {
        Err(ErrKind::UnexpectedToken)
    } else {
        match sr_node(ks[i]) {
            Err(e) => Err(e),
            Ok(v) => match sr_items(ks, i + 1) {
                Err(e) => Err(e),
                Ok(rest) => Ok(seq![v] + rest),
            },
        }
    }
}

/// One assignment or hash entry: an identifier and an optional value, an
/// absent value meaning the empty string.
pub open spec fn sr_kv(n: STree) -> Result<(Seq<char>, Jv), ErrKind>
    decreases n, 0int,
{
    if n.kids.len() == 1 && n.kids[0].rule == Rule::Id {
        Ok((n.kids[0].text, Jv::Str(Seq::empty())))
    } else if n.kids.len() == 2 && n.kids[0].rule == Rule::Id && n.kids[1].rule == Rule::Value {
        match sr_node(n.kids[1]) {
            Err(e) => Err(e),
            Ok(v) => Ok((n.kids[0].text, v)),
        }
    } else {
        Err(ErrKind::UnexpectedToken)
    }
}

pub open spec fn sr_kvs(ks: Seq<STree>, i: int, want: Rule, acc: Seq<(Seq<char>, Jv)>) -> Result<
    Seq<(Seq<char>, Jv)>,
    ErrKind,
>
    decreases ks, ks.len() - i,
{
    if !(0 <= i < ks.len()) {
        Ok(acc)
    } else if ks[i].rule != want {
        Err(ErrKind::UnexpectedToken)
    } else {
        match sr_kv(ks[i]) {
            Err(e) => Err(e),
            Ok((k, v)) => sr_kvs(ks, i + 1, want, obj_insert(acc, k, v)),
        }
    }
}

// ---------------------------------------------------------------------------
// Reduction fails only with the reducer's own kinds: never with the empty
// input or grammar kinds, which belong to derivation.
// ---------------------------------------------------------------------------

pub open spec fn reducer_kind(k: ErrKind) -> bool {
    k != ErrKind::EmptyInput && k != ErrKind::Grammar
}

pub proof fn lemma_sr_frags_kinds(ks: Seq<STree>, i: int)
    ensures
        sr_frags(ks, i) matches Err(k) ==> reducer_kind(k),
    decreases ks.len() - i,
{
    if 0 <= i < ks.len() {
        lemma_sr_frags_kinds(ks, i + 1);
    }
}

pub proof fn lemma_sr_node_kinds(t: STree)
    ensures
        sr_node(t) matches Err(k) ==> reducer_kind(k),
    decreases t, 1int,
{
    match t.rule {
        Rule::Main => {
            if t.kids.len() > 0 && t.kids[0].rule == Rule::Attrib {
                lemma_sr_kvs_kinds(t.kids, 0, Rule::Attrib, Seq::empty());
            } else if t.kids.len() == 1 && t.kids[0].rule == Rule::Value {
                lemma_sr_node_kinds(t.kids[0]);
            }
        },
        Rule::Value => {
            if t.kids.len() == 1 {
                lemma_sr_node_kinds(t.kids[0]);
            }
        },
        Rule::Text => {
            lemma_sr_frags_kinds(t.kids, 0);
        },
        Rule::Array => {
            lemma_sr_items_kinds(t.kids, 0);
        },
        Rule::Hash => {
            lemma_sr_kvs_kinds(t.kids, 0, Rule::Entry, Seq::empty());
        },
        _ => {},
    }
}

pub proof fn lemma_sr_items_kinds(ks: Seq<STree>, i: int)
    ensures
        sr_items(ks, i) matches Err(k) ==> reducer_kind(k),
    decreases ks, ks.len() - i,
{
    if 0 <= i < ks.len() && ks[i].rule == Rule::Value {
        lemma_sr_node_kinds(ks[i]);
        lemma_sr_items_kinds(ks, i + 1);
    }
}

pub proof fn lemma_sr_kv_kinds(n: STree)
    ensures
        sr_kv(n) matches Err(k) ==> reducer_kind(k),
    decreases n, 0int,
{
    if n.kids.len() == 2 && n.kids[0].rule == Rule::Id && n.kids[1].rule == Rule::Value {
        lemma_sr_node_kinds(n.kids[1]);
    }
}

pub proof fn lemma_sr_kvs_kinds(ks: Seq<STree>, i: int, want: Rule, acc: Seq<(Seq<char>, Jv)>)
    ensures
        sr_kvs(ks, i, want, acc) matches Err(k) ==> reducer_kind(k),
    decreases ks, ks.len() - i,
{
    if 0 <= i < ks.len() && ks[i].rule == want {
        lemma_sr_kv_kinds(ks[i]);
        match sr_kv(ks[i]) {
            Ok(kv) => {
                lemma_sr_kvs_kinds(ks, i + 1, want, obj_insert(acc, kv.0, kv.1));
            },
            Err(_) => {},
        }
    }
}

// ---------------------------------------------------------------------------
// The reducer.
// ---------------------------------------------------------------------------

proof fn lemma_num_val_ge(t: Seq<char>, i: int, end: int, acc: nat)
    ensures
        num_val(t, i, end, acc) >= acc,
    decreases end - i,
{
    if i < end && 0 <= i < t.len() {
        lemma_num_val_ge(t, i + 1, end, acc * 10 + dval(t[i]));
    }
}

pub(crate) fn is_digit_char(c: char) -> (b: bool)
    ensures
        b == is_digit(c),
{
    let u = c as u32;
    48 <= u && u <= 57
}

#[verifier::loop_isolation(false)]
pub(crate) fn digits_end_x(t: &str, n: usize, i: usize) -> (r: usize)
    requires
        i <= n == t@.len(),
    ensures
        r == digits_end(t@, i as int),
        i <= r <= n,
{
    let mut j = i;
    while j < n && is_digit_char(t.get_char(j))
        invariant
            i <= j <= n,
            digits_end(t@, i as int) == digits_end(t@, j as int),
        decreases n - j,
    {
        j = j + 1;
    }
    j
}

fn num_acc(t: &str, i: usize, end: usize, acc: u64) -> (r: Option<u64>)
    requires
        i <= end <= t@.len(),
    ensures
        match r {
            Some(m) => num_val(t@, i as int, end as int, acc as nat) == m,
            None => num_val(t@, i as int, end as int, acc as nat) > u64::MAX,
        },
    decreases end - i,
{
    if i >= end {
        Some(acc)
    } else {
        let c = t.get_char(i);
        let u = c as u32;
        let d: u64 = if 48 <= u && u <= 57 {
            (u - 48) as u64
        } else {
            0
        };
        assert(d == dval(t@[i as int]));
        if acc > (u64::MAX - d) / 10 {
            proof {
                assert((u64::MAX - d) / 10 * 10 + (u64::MAX - d) % 10 == u64::MAX - d);
                assert(acc as nat * 10 + d > u64::MAX);
                lemma_num_val_ge(t@, i + 1, end as int, acc as nat * 10 + dval(t@[i as int]));
            }
            None
        } else {
            assert(acc as nat * 10 + d <= u64::MAX) by {
                assert(acc * 10 <= (u64::MAX - d) / 10 * 10);
                assert((u64::MAX - d) / 10 * 10 + (u64::MAX - d) % 10 == u64::MAX - d);
            }
            num_acc(t, i + 1, end, acc * 10 + d)
        }
    }
}

/// Conversion of a token in number position, per `sr_number`.
fn reduce_number(t: &String) -> (r: Result<Value, ParseError>)
    ensures
        lift(r) == sr_number(t@),
{
    let s = t.as_str();
    let n = s.unicode_len();
    let neg = n > 0 && s.get_char(0) == '-';
    let st: usize = if neg {
        1
    } else {
        0
    };
    if st > n {
        return Err(ParseError::NumberFormatError(t.clone()));
    }
    let de = digits_end_x(s, n, st);
    let shape = de > st && (de == n || (de + 1 < n && s.get_char(de) == '.' && digits_end_x(
        s,
        n,
        de + 1,
    ) == n));
    assert(shape == is_number_text(t@));
    if !shape {
        return Err(ParseError::NumberFormatError(t.clone()));
    }
    let ip = match num_acc(s, st, de, 0) {
        None => {
            proof {
                if de < n {
                    lemma_num_val_ge(
                        t@,
                        de + 1,
                        n as int,
                        num_val(t@, st as int, de as int, 0),
                    );
                }
            }
            return Err(ParseError::NumberFormatError(t.clone()));
        },
        Some(m) => m,
    };
    let mant: u64;
    let fl: usize;
    if de == n {
        mant = ip;
        fl = 0;
    } else {
        mant = match num_acc(s, de + 1, n, ip) {
            None => {
                return Err(ParseError::NumberFormatError(t.clone()));
            },
            Some(m) => m,
        };
        fl = n - de - 1;
    }
    if fl > 32767 {
        return Err(ParseError::NumberFormatError(t.clone()));
    }
    let exp: i16 = -(fl as i16);
    Ok(Value::Num(Number::Dec { neg, mant, exp }))
}

/// Insert into an object vector: an existing key keeps its position and
/// takes the new value; a fresh key goes to the end.
#[verifier::loop_isolation(false)]
fn obj_set(es: &mut Vec<(String, Value)>, k: String, v: Value)
    ensures
        view_obj(final(es)@) == obj_insert(view_obj(old(es)@), k@, v@),
{
    proof {
        lemma_view_obj(es@);
    }
    let ghost ve = view_obj(es@);
    let mut i: usize = 0;
    while i < es.len()
        invariant
            i <= es@.len(),
            es@ == old(es)@,
            key_idx(ve, k@, 0) == key_idx(ve, k@, i as int),
        decreases es@.len() - i,
    {
        if es[i].0.eq(&k) {
            let _ = es.remove(i);
            es.insert(i, (k, v));
            proof {
                lemma_view_obj(es@);
                assert(view_obj(es@) =~= ve.update(i as int, (k@, v@)));
            }
            return ;
        }
        i = i + 1;
    }
    es.push((k, v));
    proof {
        lemma_view_obj(es@);
        assert(view_obj(es@) =~= ve.push((k@, v@)));
    }
}

/// The contribution of one fragment node, per `frag_text`.
fn frag_string(n: &Node) -> (r: Result<String, ParseError>)
    ensures
        match r {
            Ok(s) => frag_text(n@) == Some(s@),
            Err(e) => frag_text(n@) is None && kind_of(e) == ErrKind::UnexpectedToken,
        },
{
    proof {
        reveal_strlit(" ");
        reveal_strlit("'");
        reveal_strlit("\"");
        reveal_strlit("\\");
    }
    match n.rule {
        Rule::StrSpace => Ok(String::from_str(" ")),
        Rule::StrQuote => Ok(String::from_str("'")),
        Rule::StrDblQuote => Ok(String::from_str("\"")),
        Rule::StrBackslash => Ok(String::from_str("\\")),
        Rule::Alphanum => Ok(n.text.clone()),
        Rule::NoQuote => Ok(n.text.clone()),
        Rule::NoDblQuote => Ok(n.text.clone()),
        Rule::Quote => Ok(String::new()),
        Rule::DblQuote => Ok(String::new()),
        _ => Err(ParseError::UnexpectedTokenError(n.text.clone())),
    }
}

#[verifier::loop_isolation(false)]
fn reduce_frags(ks: &Vec<Node>, i: usize) -> (r: Result<String, ParseError>)
    requires
        i <= ks@.len(),
    ensures
        match r {
            Ok(s) => sr_frags(view_nodes(ks@), i as int) == Ok::<_, ErrKind>(s@),
            Err(e) => sr_frags(view_nodes(ks@), i as int) == Err::<Seq<char>, _>(kind_of(e)),
        },
    decreases ks@.len() - i,
{
    proof {
        lemma_view_nodes(ks@);
    }
    if i >= ks.len() {
        Ok(String::new())
    } else {
        match frag_string(&ks[i]) {
            Err(e) => Err(e),
            Ok(tx) => match reduce_frags(ks, i + 1) {
                Err(e) => Err(e),
                Ok(rest) => Ok(tx.concat(rest.as_str())),
            },
        }
    }
}

/// Reduce one parse-tree node to a value, per `sr_node`.
pub fn reduce(n: &Node) -> (r: Result<Value, ParseError>)
    ensures
        lift(r) == sr_node(n@),
    decreases n, 1int,
{
    proof {
        lemma_view_nodes(n.kids@);
    }
    match n.rule {
        Rule::Main => {
            if n.kids.len() == 0 {
                Err(ParseError::UnexpectedValueError(n.text.clone()))
            } else if n.kids[0].rule == Rule::Attrib {
                match reduce_kvs(&n.kids, 0, Rule::Attrib, Vec::new()) {
                    Err(e) => Err(e),
                    Ok(es) => Ok(Value::Obj(es)),
                }
            } else if n.kids[0].rule == Rule::Value && n.kids.len() == 1 {
                proof {
                    assert(decreases_to!(*n => n.kids));
                    assert(decreases_to!(n.kids => n.kids[0]));
                }
                reduce(&n.kids[0])
            } else {
                Err(ParseError::UnexpectedValueError(n.text.clone()))
            }
        },
        Rule::Value => {
            if n.kids.len() == 1 {
                proof {
                    assert(decreases_to!(*n => n.kids));
                    assert(decreases_to!(n.kids => n.kids[0]));
                }
                reduce(&n.kids[0])
            } else {
                Err(ParseError::UnexpectedValueError(n.text.clone()))
            }
        },
        Rule::Id => Ok(Value::Str(n.text.clone())),
        Rule::Number => reduce_number(&n.text),
        Rule::Text => match reduce_frags(&n.kids, 0) {
            Err(e) => Err(e),
            Ok(s) => Ok(Value::Str(s)),
        },
        Rule::Array => match reduce_items(&n.kids, 0) {
            Err(e) => Err(e),
            Ok(vs) => {
                proof {
                    lemma_view_arr(vs@);
                }
                Ok(Value::Arr(vs))
            },
        },
        Rule::Hash => match reduce_kvs(&n.kids, 0, Rule::Entry, Vec::new()) {
            Err(e) => Err(e),
            Ok(es) => Ok(Value::Obj(es)),
        },
        _ => Err(ParseError::UnexpectedTokenError(n.text.clone())),
    }
}

fn reduce_items(ks: &Vec<Node>, i: usize) -> (r: Result<Vec<Value>, ParseError>)
    requires
        i <= ks@.len(),
    ensures
        match r {
            Ok(vs) => sr_items(view_nodes(ks@), i as int) == Ok::<_, ErrKind>(view_arr(vs@)),
            Err(e) => sr_items(view_nodes(ks@), i as int) == Err::<Seq<Jv>, _>(kind_of(e)),
        },
    decreases ks, ks@.len() - i,
{
    proof {
        lemma_view_nodes(ks@);
    }
    if i >= ks.len() {
        let vs: Vec<Value> = Vec::new();
        proof {
            lemma_view_arr(vs@);
            assert(view_arr(vs@) =~= Seq::<Jv>::empty());
        }
        Ok(vs)
    } else if !(ks[i].rule == Rule::Value) {
        Err(ParseError::UnexpectedTokenError(ks[i].text.clone()))
    } else {
        proof {
            assert(decreases_to!(*ks => ks[i as int]));
        }
        match reduce(&ks[i]) {
            Err(e) => Err(e),
            Ok(v) => match reduce_items(ks, i + 1) {
                Err(e) => Err(e),
                Ok(mut rest) => {
                    proof {
                        lemma_view_arr(rest@);
                    }
                    let ghost old_rest = rest@;
                    rest.insert(0, v);
                    proof {
                        assert(rest@.drop_first() =~= old_rest);
                        lemma_view_arr(rest@);
                        assert(view_arr(rest@) =~= seq![v@] + view_arr(old_rest));
                    }
                    Ok(rest)
                },
            },
        }
    }
}

/// One assignment or hash entry, per `sr_kv`.
fn reduce_kv(n: &Node) -> (r: Result<(String, Value), ParseError>)
    ensures
        match r {
            Ok(kv) => sr_kv(n@) == Ok::<_, ErrKind>((kv.0@, kv.1.view())),
            Err(e) => sr_kv(n@) == Err::<(Seq<char>, Jv), _>(kind_of(e)),
        },
    decreases n, 0int,
{
    proof {
        lemma_view_nodes(n.kids@);
    }
    if n.kids.len() == 1 && n.kids[0].rule == Rule::Id {
        Ok((n.kids[0].text.clone(), Value::Str(String::new())))
    } else if n.kids.len() == 2 && n.kids[0].rule == Rule::Id && n.kids[1].rule == Rule::Value {
        proof {
            assert(decreases_to!(*n => n.kids));
            assert(decreases_to!(n.kids => n.kids[1]));
        }
        match reduce(&n.kids[1]) {
            Err(e) => Err(e),
            Ok(v) => Ok((n.kids[0].text.clone(), v)),
        }
    } else {
        Err(ParseError::UnexpectedTokenError(n.text.clone()))
    }
}

fn reduce_kvs(ks: &Vec<Node>, i: usize, want: Rule, acc: Vec<(String, Value)>) -> (r: Result<
    Vec<(String, Value)>,
    ParseError,
>)
    requires
        i <= ks@.len(),
    ensures
        match r {
            Ok(es) => sr_kvs(view_nodes(ks@), i as int, want, view_obj(acc@)) == Ok::<
                _,
                ErrKind,
            >(view_obj(es@)),
            Err(e) => sr_kvs(view_nodes(ks@), i as int, want, view_obj(acc@)) == Err::<
                Seq<(Seq<char>, Jv)>,
                _,
            >(kind_of(e)),
        },
    decreases ks, ks@.len() - i,
{
    proof {
        lemma_view_nodes(ks@);
    }
    if i >= ks.len() {
        Ok(acc)
    } else if !(ks[i].rule == want) {
        Err(ParseError::UnexpectedTokenError(ks[i].text.clone()))
    } else {
        proof {
            assert(decreases_to!(*ks => ks[i as int]));
        }
        match reduce_kv(&ks[i]) {
            Err(e) => Err(e),
            Ok((k, v)) => {
                let mut acc = acc;
                obj_set(&mut acc, k, v);
                reduce_kvs(ks, i + 1, want, acc)
            },
        }
    }
}

} // verus!
