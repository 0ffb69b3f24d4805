use vstd::prelude::*;
use crate::tree::{branch, leaf, Rule, STree};

verus! {

// ---------------------------------------------------------------------------
// Character classes.
//
// Whitespace separates values and assignments. The characters that carry
// structure — parentheses, brackets, `=`, the two quotes and the backslash —
// never appear bare; everything else printable is a bare (identifier) char.
// Control characters are not part of the language.
// ---------------------------------------------------------------------------

pub open spec fn is_ws(c: char) -> bool {
    c == ' ' || c == '\t' || c == '\n' || c == '\r'
}

pub open spec fn is_structural(c: char) -> bool {
    c == '(' || c == ')' || c == '[' || c == ']' || c == '=' || c == '\'' || c == '"' || c == '\\'
}

pub open spec fn is_bare(c: char) -> bool {
    !is_ws(c) && !is_structural(c) && c as u32 >= 32
}

pub open spec fn is_digit(c: char) -> bool {
    c as u32 >= 48 && c as u32 <= 57
}

/// A character that may stand unescaped inside a literal quoted by `q`.
pub open spec fn is_qsafe(c: char, q: char) -> bool {
    c != q && c != '\\' && c as u32 >= 32
}

// ---------------------------------------------------------------------------
// Scanners: the end position of a maximal run starting at `i`.
// ---------------------------------------------------------------------------

pub open spec fn skip_ws(s: Seq<char>, i: int) -> int
    decreases s.len() - i,
{
    if 0 <= i < s.len() && is_ws(s[i]) {
        skip_ws(s, i + 1)
    } else {
        i
    }
}

pub open spec fn bare_end(s: Seq<char>, i: int) -> int
    decreases s.len() - i,
{
    if 0 <= i < s.len() && is_bare(s[i]) {
        bare_end(s, i + 1)
    } else {
        i
    }
}

pub open spec fn digits_end(s: Seq<char>, i: int) -> int
    decreases s.len() - i,
{
    if 0 <= i < s.len() && is_digit(s[i]) {
        digits_end(s, i + 1)
    } else {
        i
    }
}

pub open spec fn qrun_end(s: Seq<char>, i: int, q: char) -> int
    decreases s.len() - i,
{
    if 0 <= i < s.len() && is_qsafe(s[i], q) {
        qrun_end(s, i + 1, q)
    } else {
        i
    }
}

pub proof fn lemma_skip_ws_bounds(s: Seq<char>, i: int)
    requires
        0 <= i <= s.len(),
    ensures
        i <= skip_ws(s, i) <= s.len(),
    decreases s.len() - i,
{
    if i < s.len() && is_ws(s[i]) {
        lemma_skip_ws_bounds(s, i + 1);
    }
}

pub proof fn lemma_bare_end_bounds(s: Seq<char>, i: int)
    requires
        0 <= i <= s.len(),
    ensures
        i <= bare_end(s, i) <= s.len(),
    decreases s.len() - i,
{
    if i < s.len() && is_bare(s[i]) {
        lemma_bare_end_bounds(s, i + 1);
    }
}

pub proof fn lemma_digits_end_bounds(s: Seq<char>, i: int)
    requires
        0 <= i <= s.len(),
    ensures
        i <= digits_end(s, i) <= s.len(),
    decreases s.len() - i,
{
    if i < s.len() && is_digit(s[i]) {
        lemma_digits_end_bounds(s, i + 1);
    }
}

pub proof fn lemma_qrun_end_bounds(s: Seq<char>, i: int, q: char)
    requires
        0 <= i <= s.len(),
    ensures
        i <= qrun_end(s, i, q) <= s.len(),
    decreases s.len() - i,
{
    if i < s.len() && is_qsafe(s[i], q) {
        lemma_qrun_end_bounds(s, i + 1, q);
    }
}

/// Blank input: nothing but whitespace.
pub open spec fn blank(s: Seq<char>) -> bool {
    skip_ws(s, 0) == s.len()
}

/// The shape of a number token: an optional minus sign, digits, and an
/// optional fraction introduced by a dot.
pub open spec fn is_number_text(t: Seq<char>) -> bool {
    let st: int = if t.len() > 0 && t[0] == '-' {
        1
    } else {
        0
    };
    let de = digits_end(t, st);
    &&& de > st
    &&& (de == t.len() || (de + 1 < t.len() && t[de] == '.' && digits_end(t, de + 1) == t.len()))
}

// ---------------------------------------------------------------------------
// The grammar itself, as one derivation function per rule. Each takes the
// input and a position and yields the derived node (or nodes) together with
// the position just past them, or nothing when the input does not match.
//
//   main   := attrib+ | value
//   attrib := id '=' value?
//   value  := string | number | array | hash
//   array  := '(' value* ')'
//   hash   := '(' entry* ')'
//   entry  := '[' id ']=' value?
//   string := (quoted | dbl_quoted | escape | bare_run)+
//   number := '-'? digit+ ('.' digit+)?
//   id     := bare_run
//
// An escape is a backslash before a space, a quote, a double quote or a
// backslash, and contributes that character; a quoted literal runs to the
// matching quote, with the same escapes available inside.
// ---------------------------------------------------------------------------

pub open spec fn quote_rule(q: char) -> Rule {
    if q == '\'' {
        Rule::Quote
    } else {
        Rule::DblQuote
    }
}

pub open spec fn qrun_rule(q: char) -> Rule {
    if q == '\'' {
        Rule::NoQuote
    } else {
        Rule::NoDblQuote
    }
}

pub open spec fn escape_rule(c: char) -> Rule {
    if c == ' ' {
        Rule::StrSpace
    } else if c == '\'' {
        Rule::StrQuote
    } else if c == '"' {
        Rule::StrDblQuote
    } else {
        Rule::StrBackslash
    }
}

pub open spec fn is_escapable(c: char) -> bool {
    c == ' ' || c == '\'' || c == '"' || c == '\\'
}

/// A fragment may start wherever a bare character, a quote, or an escape
/// stands.
pub open spec fn frag_start(s: Seq<char>, i: int) -> bool {
    0 <= i < s.len() && (s[i] == '\'' || s[i] == '"' || s[i] == '\\' || is_bare(s[i]))
}

pub open spec fn sp_escape(s: Seq<char>, i: int) -> Option<(STree, int)>
    decreases s.len() - i, 1int,
{
    if 0 <= i && i + 1 < s.len() && s[i] == '\\' && is_escapable(s[i + 1]) {
        Some((leaf(escape_rule(s[i + 1]), s.subrange(i, i + 2)), i + 2))
    } else {
        None
    }
}

/// Inside a literal quoted by `q`: runs and escapes up to and including the
/// closing quote, whose token is the last of the derived fragments.
pub open spec fn sp_qfrags(s: Seq<char>, i: int, q: char) -> Option<(Seq<STree>, int)>
    decreases s.len() - i, 2int,
{
    if !(0 <= i < s.len()) {
        None
    } else if s[i] == q {
        Some((seq![leaf(quote_rule(q), seq![q])], i + 1))
    } else if s[i] == '\\' {
        match sp_escape(s, i) {
            None => None,
            Some((t, j)) => if j <= i {
                None
            } else {
                match sp_qfrags(s, j, q) {
                    None => None,
                    Some((rest, k)) => Some((seq![t] + rest, k)),
                }
            },
        }
    } else if is_qsafe(s[i], q) {
        let e = qrun_end(s, i, q);
        if e <= i || e > s.len() {
            None
        } else {
            match sp_qfrags(s, e, q) {
                None => None,
                Some((rest, k)) => Some((seq![leaf(qrun_rule(q), s.subrange(i, e))] + rest, k)),
            }
        }
    } else {
        None
    }
}

/// One string fragment: a quoted literal (which contributes its delimiter
/// tokens and inner runs), an escape, or a bare run.
pub open spec fn sp_fragment(s: Seq<char>, i: int) -> Option<(Seq<STree>, int)>
    decreases s.len() - i, 3int,
{
    if !(0 <= i < s.len()) {
        None
    } else if s[i] == '\'' || s[i] == '"' {
        let q = s[i];
        match sp_qfrags(s, i + 1, q) {
            None => None,
            Some((kids, j)) => Some((seq![leaf(quote_rule(q), seq![q])] + kids, j)),
        }
    } else if s[i] == '\\' {
        match sp_escape(s, i) {
            None => None,
            Some((t, j)) => Some((seq![t], j)),
        }
    } else if is_bare(s[i]) {
        let e = bare_end(s, i);
        if e <= i {
            None
        } else {
            Some((seq![leaf(Rule::Alphanum, s.subrange(i, e))], e))
        }
    } else {
        None
    }
}

/// All adjacent fragments from `i` on; possibly none.
pub open spec fn sp_fragments(s: Seq<char>, i: int) -> Option<(Seq<STree>, int)>
    decreases s.len() - i, 4int,
{
    if !frag_start(s, i) {
        Some((Seq::empty(), i))
    } else {
        match sp_fragment(s, i) {
            None => None,
            Some((ks, j)) => if j <= i || j > s.len() {
                None
            } else {
                match sp_fragments(s, j) {
                    None => None,
                    Some((rest, k)) => Some((ks + rest, k)),
                }
            },
        }
    }
}

/// A scalar token: its fragments, derived as a number when they are one
/// bare run of number shape, and as a string otherwise.
pub open spec fn sp_token(s: Seq<char>, i: int) -> Option<(STree, int)>
    decreases s.len() - i, 5int,
{
    match sp_fragments(s, i) {
        None => None,
        Some((ks, j)) => if ks.len() == 0 {
            None
        } else if ks.len() == 1 && ks[0].rule == Rule::Alphanum && is_number_text(ks[0].text) {
            Some((leaf(Rule::Number, ks[0].text), j))
        } else {
            Some((branch(Rule::Text, ks), j))
        },
    }
}

/// A value: a parenthesized array or hash, or a scalar token. A hash is
/// told from an array by the bracket that opens its first entry.
pub open spec fn sp_value(s: Seq<char>, i: int) -> Option<(STree, int)>
    decreases s.len() - i, 6int,
{
    if !(0 <= i < s.len()) {
        None
    } else if s[i] == '(' {
        let j = skip_ws(s, i + 1);
        if j <= i || j > s.len() {
            None
        } else if j < s.len() && s[j] == '[' {
            match sp_entries(s, j) {
                None => None,
                Some((ks, k)) => Some((branch(Rule::Value, seq![branch(Rule::Hash, ks)]), k)),
            }
        } else {
            match sp_items(s, j) {
                None => None,
                Some((ks, k)) => Some((branch(Rule::Value, seq![branch(Rule::Array, ks)]), k)),
            }
        }
    } else {
        match sp_token(s, i) {
            None => None,
            Some((t, j)) => Some((branch(Rule::Value, seq![t]), j)),
        }
    }
}

/// Array elements up to and past the closing parenthesis.
pub open spec fn sp_items(s: Seq<char>, i: int) -> Option<(Seq<STree>, int)>
    decreases s.len() - i, 7int,
{
    let j = skip_ws(s, i);
    if j < i || !(j < s.len()) {
        None
    } else if s[j] == ')' {
        Some((Seq::empty(), j + 1))
    } else {
        match sp_value(s, j) {
            None => None,
            Some((v, k)) => if k <= j {
                None
            } else if k < s.len() && (is_ws(s[k]) || s[k] == ')') {
                match sp_items(s, k) {
                    None => None,
                    Some((rest, e)) => Some((seq![v] + rest, e)),
                }
            } else {
                None
            },
        }
    }
}

/// Hash entries up to and past the closing parenthesis. An entry whose `=`
/// is followed by a separator has no value node.
pub open spec fn sp_entries(s: Seq<char>, i: int) -> Option<(Seq<STree>, int)>
    decreases s.len() - i, 7int,
{
    let j = skip_ws(s, i);
    if j < i || !(j < s.len()) {
        None
    } else if s[j] == ')' {
        Some((Seq::empty(), j + 1))
    } else if s[j] == '[' {
        let b = bare_end(s, j + 1);
        if b <= j + 1 {
            None
        } else if b + 1 < s.len() && s[b] == ']' && s[b + 1] == '=' {
            let p = b + 2;
            let id = leaf(Rule::Id, s.subrange(j + 1, b));
            if p < s.len() && !is_ws(s[p]) && s[p] != ')' {
                match sp_value(s, p) {
                    None => None,
                    Some((v, k)) => if k <= p || !(k < s.len() && (is_ws(s[k]) || s[k] == ')')) {
                        None
                    } else {
                        match sp_entries(s, k) {
                            None => None,
                            Some((rest, e)) => Some(
                                (seq![branch(Rule::Entry, seq![id, v])] + rest, e),
                            ),
                        }
                    },
                }
            } else {
                match sp_entries(s, p) {
                    None => None,
                    Some((rest, e)) => Some((seq![branch(Rule::Entry, seq![id])] + rest, e)),
                }
            }
        } else {
            None
        }
    } else {
        None
    }
}

/// One assignment: an identifier, `=`, and an optional value running to the
/// next whitespace or the end of input.
pub open spec fn sp_attrib(s: Seq<char>, i: int) -> Option<(STree, int)>
    decreases s.len() - i, 7int,
{
    let b = bare_end(s, i);
    if b <= i || !(b < s.len()) || s[b] != '=' {
        None
    } else {
        let p = b + 1;
        let id = leaf(Rule::Id, s.subrange(i, b));
        if p < s.len() && !is_ws(s[p]) {
            match sp_value(s, p) {
                None => None,
                Some((v, k)) => if k < s.len() && !is_ws(s[k]) {
                    None
                } else {
                    Some((branch(Rule::Attrib, seq![id, v]), k))
                },
            }
        } else {
            Some((branch(Rule::Attrib, seq![id]), p))
        }
    }
}

/// One or more assignments, running to the end of input.
pub open spec fn sp_attribs(s: Seq<char>, i: int) -> Option<(Seq<STree>, int)>
    decreases s.len() - i, 8int,
{
    match sp_attrib(s, i) {
        None => None,
        Some((a, j)) => if j <= i {
            None
        } else {
            let k = skip_ws(s, j);
            if k < j {
                None
            } else if k >= s.len() {
                Some((seq![a], k))
            } else {
                match sp_attribs(s, k) {
                    None => None,
                    Some((rest, e)) => Some((seq![a] + rest, e)),
                }
            }
        },
    }
}

/// The top-level derivation: assignments when the first bare run is
/// followed by `=`, a single value otherwise, with nothing but whitespace
/// around either.
pub open spec fn sp_main(s: Seq<char>) -> Option<STree> {
    let i = skip_ws(s, 0);
    if !(0 <= i < s.len()) {
        None
    } else {
        let b = bare_end(s, i);
        if b > i && b < s.len() && s[b] == '=' {
            match sp_attribs(s, i) {
                None => None,
                Some((ks, _)) => Some(branch(Rule::Main, ks)),
            }
        } else {
            match sp_value(s, i) {
                None => None,
                Some((v, j)) => if skip_ws(s, j) == s.len() {
                    Some(branch(Rule::Main, seq![v]))
                } else {
                    None
                },
            }
        }
    }
}

} // verus!
