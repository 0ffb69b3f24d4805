use vstd::prelude::*;
use crate::err::ErrKind;
use crate::grammar::{
    bare_end, blank, digits_end, is_bare, is_digit, is_number_text, skip_ws, sp_fragment,
    sp_fragments, sp_main, sp_token, sp_value,
};
use crate::reduce::{dval, frac_len_of, mantissa_of, num_val, sr_frags, sr_node, sr_number};
use crate::ser::{dec_digits, fmt_dec, ss_value, zeros};
use crate::tree::{branch, leaf, Rule};
use crate::value::{JNum, Jv};

verus! {

/// A plain identifier-safe string: non-empty, bare characters only, and
/// not of number shape (a run of digits stands for a number, not a
/// string).
pub open spec fn id_safe(s: Seq<char>) -> bool {
    &&& s.len() > 0
    &&& forall|i: int| 0 <= i < s.len() ==> is_bare(s[i])
    &&& !is_number_text(s)
}

proof fn lemma_bare_end_all(s: Seq<char>, i: int)
    requires
        0 <= i <= s.len(),
        forall|j: int| i <= j < s.len() ==> is_bare(s[j]),
    ensures
        bare_end(s, i) == s.len(),
    decreases s.len() - i,
{
    if i < s.len() {
        lemma_bare_end_all(s, i + 1);
    }
}

// ---------------------------------------------------------------------------
// Number tokens: the rendered decimal text of a finite number re-reads to
// the same mantissa and exponent.
// ---------------------------------------------------------------------------

proof fn lemma_dec_digits_props(m: nat)
    ensures
        dec_digits(m).len() >= 1,
        forall|j: int| 0 <= j < dec_digits(m).len() ==> is_digit(dec_digits(m)[j]),
        forall|j: int| 0 <= j < dec_digits(m).len() ==> dval(dec_digits(m)[j]) < 10,
    decreases m,
{
    if m >= 10 {
        lemma_dec_digits_props(m / 10);
    }
}

proof fn lemma_digits_end_run(t: Seq<char>, i: int, r: int)
    requires
        0 <= i <= r <= t.len(),
        forall|j: int| i <= j < r ==> is_digit(t[j]),
        r == t.len() || !is_digit(t[r]),
    ensures
        digits_end(t, i) == r,
    decreases r - i,
{
    if i < r {
        lemma_digits_end_run(t, i + 1, r);
    }
}

proof fn lemma_bare_end_run(t: Seq<char>, i: int, r: int)
    requires
        0 <= i <= r <= t.len(),
        forall|j: int| i <= j < r ==> is_bare(t[j]),
        r == t.len() || !is_bare(t[r]),
    ensures
        bare_end(t, i) == r,
    decreases r - i,
{
    if i < r {
        lemma_bare_end_run(t, i + 1, r);
    }
}

/// Reading a span splits at any midpoint, chaining the accumulator.
proof fn lemma_num_val_split(t: Seq<char>, i: int, mid: int, end: int, acc: nat)
    requires
        0 <= i <= mid <= end <= t.len(),
    ensures
        num_val(t, i, end, acc) == num_val(t, mid, end, num_val(t, i, mid, acc)),
    decreases mid - i,
{
    if i < mid {
        lemma_num_val_split(t, i + 1, mid, end, acc * 10 + dval(t[i]));
    }
}

/// Reading depends only on the characters of the span.
proof fn lemma_num_val_match(t: Seq<char>, i: int, end: int, d: Seq<char>, acc: nat)
    requires
        0 <= i <= end <= t.len(),
        d.len() == end - i,
        forall|j: int| 0 <= j < d.len() ==> t[i + j] == d[j],
    ensures
        num_val(t, i, end, acc) == num_val(d, 0, d.len() as int, acc),
    decreases end - i,
{
    if i < end {
        assert(t[i] == d[0]);
        lemma_num_val_shift(d, acc);
        lemma_num_val_match(t, i + 1, end, d.drop_first(), acc * 10 + dval(t[i]));
    }
}

proof fn lemma_num_val_shift(d: Seq<char>, acc: nat)
    requires
        d.len() > 0,
    ensures
        num_val(d, 0, d.len() as int, acc) == num_val(
            d.drop_first(),
            0,
            d.len() - 1,
            acc * 10 + dval(d[0]),
        ),
{
    lemma_num_val_drop(d, 1, acc * 10 + dval(d[0]));
}

proof fn lemma_num_val_drop(d: Seq<char>, i: int, acc: nat)
    requires
        1 <= i <= d.len(),
    ensures
        num_val(d, i, d.len() as int, acc) == num_val(d.drop_first(), i - 1, d.len() - 1, acc),
    decreases d.len() - i,
{
    if i < d.len() {
        assert(d.drop_first()[i - 1] == d[i]);
        lemma_num_val_drop(d, i + 1, acc * 10 + dval(d[i]));
    }
}

/// Zeros read onto a zero accumulator stay zero.
proof fn lemma_num_val_zeros(t: Seq<char>, i: int, end: int)
    requires
        0 <= i <= end <= t.len(),
        forall|j: int| i <= j < end ==> t[j] == '0',
    ensures
        num_val(t, i, end, 0) == 0,
    decreases end - i,
{
    if i < end {
        assert(dval(t[i]) == 0);
        lemma_num_val_zeros(t, i + 1, end);
    }
}

/// Appending a digit multiplies the reading by ten and adds it.
proof fn lemma_num_val_push(t: Seq<char>, i: int, c: char, acc: nat)
    requires
        0 <= i <= t.len(),
    ensures
        num_val(t.push(c), i, t.len() as int + 1, acc) == num_val(t, i, t.len() as int, acc) * 10
            + dval(c),
    decreases t.len() - i,
{
    let p = t.push(c);
    if i < t.len() {
        assert(p[i] == t[i]);
        lemma_num_val_push(t, i + 1, c, acc * 10 + dval(t[i]));
        assert(num_val(p, i, t.len() as int + 1, acc) == num_val(
            p,
            i + 1,
            t.len() as int + 1,
            acc * 10 + dval(t[i]),
        ));
    } else {
        assert(p[i] == c);
        assert(num_val(p, i, t.len() as int + 1, acc) == num_val(
            p,
            i + 1,
            t.len() as int + 1,
            acc * 10 + dval(c),
        ));
        assert(num_val(p, i + 1, t.len() as int + 1, acc * 10 + dval(c)) == acc * 10 + dval(c));
        assert(num_val(t, i, t.len() as int, acc) == acc);
    }
}

/// The digits of `m` read back to `m`.
proof fn lemma_num_val_digits(m: nat)
    ensures
        num_val(dec_digits(m), 0, dec_digits(m).len() as int, 0) == m,
    decreases m,
{
    if m < 10 {
        assert(dval(crate::ser::dchar(m)) == m);
        assert(num_val(dec_digits(m), 0, 1, 0) == num_val(dec_digits(m), 1, 1, 0 * 10 + dval(
            dec_digits(m)[0],
        )));
    } else {
        lemma_num_val_digits(m / 10);
        lemma_num_val_push(dec_digits(m / 10), 0, crate::ser::dchar(m % 10), 0);
        assert(dval(crate::ser::dchar(m % 10)) == m % 10);
        assert(dec_digits(m) == dec_digits(m / 10).push(crate::ser::dchar(m % 10)));
        assert(m / 10 * 10 + m % 10 == m) by (nonlinear_arith);
    }
}

/// The rendered text of a finite number in the serializer's canonical
/// range: a bare token of number shape that converts back to the same
/// number.
proof fn lemma_num_token(neg: bool, m: u64, exp: int)
    requires
        -32767 <= exp <= 0,
        m == 0 ==> !neg && exp == 0,
    ensures
        ({
            let t = crate::ser::num_text(neg, m, exp);
            &&& t.len() > 0
            &&& forall|j: int| 0 <= j < t.len() ==> is_bare(t[j])
            &&& is_number_text(t)
            &&& sr_number(t) == Ok::<Jv, ErrKind>(Jv::Num(JNum::Dec { neg, mant: m, exp }))
        }),
{
    if m == 0 {
        let t = seq!['0'];
        assert(is_digit(t[0]) && is_bare(t[0]));
        assert(digits_end(t, 1) == 1);
        assert(digits_end(t, 0) == 1);
        assert(is_number_text(t));
        assert(num_val(t, 0, 1, 0) == num_val(t, 1, 1, 0 * 10 + dval(t[0])));
        assert(mantissa_of(t) == 0);
        assert(frac_len_of(t) == 0);
        return ;
    }
    let d = dec_digits(m as nat);
    let ln = d.len() as int;
    let sign: Seq<char> = if neg {
        seq!['-']
    } else {
        Seq::empty()
    };
    let st: int = if neg {
        1
    } else {
        0
    };
    lemma_dec_digits_props(m as nat);
    lemma_num_val_digits(m as nat);
    assert(forall|j: int| 0 <= j < ln ==> is_bare(d[j]));
    let t = fmt_dec(neg, m, exp);
    if exp == 0 {
        assert(zeros(0) =~= Seq::<char>::empty());
        assert(t =~= sign + d);
        assert(t.len() == st + ln);
        assert(forall|j: int| 0 <= j < ln ==> t[st + j] == d[j]);
        assert((t[0] == '-') == neg);
        lemma_digits_end_run(t, st, t.len() as int);
        assert(is_number_text(t));
        lemma_num_val_match(t, st, t.len() as int, d, 0);
        assert(mantissa_of(t) == m);
        assert(frac_len_of(t) == 0);
    } else {
        let k = -exp;
        if ln > k {
            let d1 = d.subrange(0, ln - k);
            let d2 = d.subrange(ln - k, ln);
            assert(t == sign + d1 + seq!['.'] + d2);
            assert(t.len() == st + ln + 1);
            let de = st + ln - k;
            assert(forall|j: int| st <= j < de ==> t[j] == d1[j - st] && is_digit(t[j]));
            assert(t[de] == '.');
            assert(!is_digit('.')) by {
                assert('.' as u32 == 46);
            }
            assert(forall|j: int|
                de + 1 <= j < t.len() ==> t[j] == d2[j - de - 1] && is_digit(t[j]));
            assert((t[0] == '-') == neg);
            lemma_digits_end_run(t, st, de);
            lemma_digits_end_run(t, de + 1, t.len() as int);
            assert(is_number_text(t));
            lemma_num_val_match(t, st, de, d1, 0);
            lemma_num_val_match(d, 0, ln - k, d1, 0);
            let a = num_val(d, 0, ln - k, 0);
            lemma_num_val_match(t, de + 1, t.len() as int, d2, a);
            lemma_num_val_match(d, ln - k, ln, d2, a);
            lemma_num_val_split(d, 0, ln - k, ln, 0);
            assert(mantissa_of(t) == m);
            assert(frac_len_of(t) == k);
        } else {
            let z = zeros(k - ln);
            assert(z.len() == k - ln);
            assert(forall|j: int| 0 <= j < z.len() ==> z[j] == '0');
            assert(t == sign + seq!['0', '.'] + z + d);
            assert(t.len() == st + 2 + k);
            let de = st + 1;
            assert(t[st] == '0' && is_digit(t[st]));
            assert(t[de] == '.');
            assert(!is_digit('.')) by {
                assert('.' as u32 == 46);
            }
            let zend = de + 1 + (k - ln);
            assert(forall|j: int| de + 1 <= j < zend ==> t[j] == '0' && is_digit(t[j]));
            assert(forall|j: int|
                zend <= j < t.len() ==> t[j] == d[j - zend] && is_digit(t[j]));
            assert((t[0] == '-') == neg);
            lemma_digits_end_run(t, st, de);
            lemma_digits_end_run(t, de + 1, t.len() as int);
            assert(is_number_text(t));
            assert(num_val(t, st, de, 0) == num_val(t, st + 1, de, 0 * 10 + dval(t[st])));
            assert(num_val(t, st, de, 0) == 0);
            lemma_num_val_zeros(t, de + 1, zend);
            lemma_num_val_split(t, de + 1, zend, t.len() as int, 0);
            lemma_num_val_match(t, zend, t.len() as int, d, 0);
            assert(mantissa_of(t) == m);
            assert(frac_len_of(t) == k);
        }
    }
}

// ---------------------------------------------------------------------------
// Quoted strings: the escaped body between double quotes derives to
// fragments that concatenate back to the original characters.
// ---------------------------------------------------------------------------

proof fn lemma_sr_frags_shift(x: crate::tree::STree, ks: Seq<crate::tree::STree>, j: int)
    requires
        0 <= j <= ks.len(),
    ensures
        sr_frags(seq![x] + ks, j + 1) == sr_frags(ks, j),
    decreases ks.len() - j,
{
    if j < ks.len() {
        assert((seq![x] + ks)[j + 1] == ks[j]);
        lemma_sr_frags_shift(x, ks, j + 1);
    }
}

/// A character that needs no escape inside double quotes.
spec fn dq_safe(c: char) -> bool {
    c != '"' && c != '\\' && c as u32 >= 32
}

/// An escaped body is the original characters with runs kept verbatim.
proof fn lemma_esc_str_run(s: Seq<char>, k: int, k2: int)
    requires
        0 <= k <= k2 <= s.len(),
        forall|j: int| k <= j < k2 ==> dq_safe(s[j]),
    ensures
        crate::ser::esc_str(s, k) =~= s.subrange(k, k2) + crate::ser::esc_str(s, k2),
    decreases k2 - k,
{
    if k < k2 {
        lemma_esc_str_run(s, k + 1, k2);
        assert(crate::ser::esc_str(s, k) =~= seq![s[k]] + crate::ser::esc_str(s, k + 1));
        assert(seq![s[k]] + (s.subrange(k + 1, k2) + crate::ser::esc_str(s, k2)) =~= s.subrange(
            k,
            k2,
        ) + crate::ser::esc_str(s, k2));
    }
}

/// Inside the rendering, the maximal unescaped run mirrors the maximal
/// safe run of the source characters.
proof fn lemma_qrun_match(u: Seq<char>, i: int, s: Seq<char>, k: int)
    requires
        0 <= k <= s.len(),
        forall|j: int| 0 <= j < s.len() ==> (s[j] as u32) >= 32,
        0 <= i,
        i + crate::ser::esc_str(s, k).len() + 1 <= u.len(),
        u.subrange(i, i + crate::ser::esc_str(s, k).len()) == crate::ser::esc_str(s, k),
        u[i + crate::ser::esc_str(s, k).len()] == '"',
    ensures
        crate::grammar::qrun_end(u, i, '"') == i + (crate::grammar::qrun_end(s, k, '"') - k),
        crate::grammar::qrun_end(s, k, '"') <= s.len(),
        forall|j: int|
            k <= j < crate::grammar::qrun_end(s, k, '"') ==> dq_safe(s[j]),
        crate::grammar::qrun_end(s, k, '"') == s.len() || !dq_safe(
            s[crate::grammar::qrun_end(s, k, '"')],
        ),
    decreases s.len() - k,
{
    let e = crate::ser::esc_str(s, k);
    assert(forall|j: int| 0 <= j < e.len() ==> u[i + j] == e[j]) by {
        assert(forall|j: int|
            0 <= j < e.len() ==> #[trigger] u.subrange(i, i + e.len())[j] == u[i + j]);
    }
    if k == s.len() {
        assert(u[i] == '"');
        assert(crate::grammar::qrun_end(u, i, '"') == i);
        assert(crate::grammar::qrun_end(s, k, '"') == k);
    } else if s[k] == '"' || s[k] == '\\' {
        assert(e == seq!['\\', s[k]] + crate::ser::esc_str(s, k + 1));
        assert(u[i] == e[0] && e[0] == '\\');
        assert(!crate::grammar::is_qsafe(u[i], '"'));
        assert(crate::grammar::qrun_end(u, i, '"') == i);
        assert(!crate::grammar::is_qsafe(s[k], '"'));
        assert(crate::grammar::qrun_end(s, k, '"') == k);
    } else {
        assert(e == seq![s[k]] + crate::ser::esc_str(s, k + 1));
        assert(u[i] == e[0] && e[0] == s[k]);
        assert(crate::grammar::is_qsafe(s[k], '"'));
        let e2 = crate::ser::esc_str(s, k + 1);
        assert(u.subrange(i + 1, i + 1 + e2.len()) =~= e2) by {
            assert(forall|j: int|
                0 <= j < e2.len() ==> u.subrange(i + 1, i + 1 + e2.len())[j] == u[i + 1 + j]
                    && e[1 + j] == e2[j]);
        }
        lemma_qrun_match(u, i + 1, s, k + 1);
        assert(crate::grammar::qrun_end(u, i, '"') == crate::grammar::qrun_end(u, i + 1, '"'));
        assert(crate::grammar::qrun_end(s, k, '"') == crate::grammar::qrun_end(s, k + 1, '"'));
    }
}

/// The fragments of a double-quoted body: derivation succeeds up to and
/// past the closing quote, and reduction gives back the source suffix.
proof fn lemma_qfrags(u: Seq<char>, i: int, s: Seq<char>, k: int)
    requires
        0 <= k <= s.len(),
        forall|j: int| 0 <= j < s.len() ==> (s[j] as u32) >= 32,
        0 <= i,
        i + crate::ser::esc_str(s, k).len() + 1 <= u.len(),
        u.subrange(i, i + crate::ser::esc_str(s, k).len()) == crate::ser::esc_str(s, k),
        u[i + crate::ser::esc_str(s, k).len()] == '"',
    ensures
        ({
            let r = crate::grammar::sp_qfrags(u, i, '"');
            &&& r is Some
            &&& (r->0).1 == i + crate::ser::esc_str(s, k).len() + 1
            &&& sr_frags((r->0).0, 0) == Ok::<Seq<char>, ErrKind>(s.subrange(k, s.len() as int))
        }),
    decreases s.len() - k,
{
    let e = crate::ser::esc_str(s, k);
    assert(forall|j: int| 0 <= j < e.len() ==> u[i + j] == e[j]) by {
        assert(forall|j: int|
            0 <= j < e.len() ==> #[trigger] u.subrange(i, i + e.len())[j] == u[i + j]);
    }
    let q: char = '"';
    if k == s.len() {
        assert(u[i] == '"');
        let close = leaf(crate::grammar::quote_rule(q), seq![q]);
        assert(crate::grammar::sp_qfrags(u, i, q) == Some((seq![close], i + 1)));
        assert(sr_frags(seq![close], 1) == Ok::<Seq<char>, ErrKind>(Seq::empty()));
        assert(sr_frags(seq![close], 0) == Ok::<Seq<char>, ErrKind>(
            Seq::<char>::empty() + Seq::<char>::empty(),
        ));
        assert(Seq::<char>::empty() + Seq::<char>::empty() =~= s.subrange(k, s.len() as int));
    } else if s[k] == '"' || s[k] == '\\' {
        assert(e == seq!['\\', s[k]] + crate::ser::esc_str(s, k + 1));
        assert(u.subrange(i, i + e.len())[0] == u[i]);
        assert(u.subrange(i, i + e.len())[1] == u[i + 1]);
        assert(u[i] == '\\' && u[i + 1] == s[k]);
        assert(u[i] != q);
        assert(crate::grammar::is_escapable(s[k]));
        let t = leaf(crate::grammar::escape_rule(s[k]), u.subrange(i, i + 2));
        assert(crate::grammar::sp_escape(u, i) == Some((t, i + 2)));
        let e2 = crate::ser::esc_str(s, k + 1);
        assert(u.subrange(i + 2, i + 2 + e2.len()) =~= e2) by {
            assert(forall|j: int|
                0 <= j < e2.len() ==> u.subrange(i + 2, i + 2 + e2.len())[j] == u[i + 2 + j]
                    && e[2 + j] == e2[j]);
        }
        lemma_qfrags(u, i + 2, s, k + 1);
        let rest = (crate::grammar::sp_qfrags(u, i + 2, q)->0).0;
        assert(crate::grammar::sp_qfrags(u, i, q) == Some(
            (seq![t] + rest, i + e.len() + 1),
        ));
        lemma_sr_frags_shift(t, rest, 0);
        assert((seq![t] + rest)[0] == t);
        assert(crate::reduce::frag_text(t) == Some(seq![s[k]]));
        assert(seq![s[k]] + s.subrange(k + 1, s.len() as int) =~= s.subrange(k, s.len() as int));
    } else {
        assert(e == seq![s[k]] + crate::ser::esc_str(s, k + 1));
        assert(u.subrange(i, i + e.len())[0] == u[i]);
        assert(u[i] == s[k]);
        assert(u[i] != q && u[i] != '\\');
        assert(crate::grammar::is_qsafe(u[i], q));
        lemma_qrun_match(u, i, s, k);
        let k2 = crate::grammar::qrun_end(s, k, q);
        let r = i + (k2 - k);
        crate::grammar::lemma_qrun_end_bounds(s, k, q);
        assert(k < k2);
        lemma_esc_str_run(s, k, k2);
        let e2 = crate::ser::esc_str(s, k2);
        assert(e.len() == (k2 - k) + e2.len());
        assert(u.subrange(i, r) =~= s.subrange(k, k2)) by {
            assert(forall|j: int|
                0 <= j < k2 - k ==> u.subrange(i, r)[j] == u[i + j] && e[j] == s.subrange(
                    k,
                    k2,
                )[j]);
        }
        assert(u.subrange(r, r + e2.len()) =~= e2) by {
            assert(forall|j: int|
                0 <= j < e2.len() ==> u.subrange(r, r + e2.len())[j] == u[r + j] && e[(k2 - k)
                    + j] == e2[j]);
        }
        lemma_qfrags(u, r, s, k2);
        let t = leaf(crate::grammar::qrun_rule(q), u.subrange(i, r));
        let rest = (crate::grammar::sp_qfrags(u, r, q)->0).0;
        assert(crate::grammar::sp_qfrags(u, i, q) == Some(
            (seq![t] + rest, i + e.len() + 1),
        ));
        lemma_sr_frags_shift(t, rest, 0);
        assert((seq![t] + rest)[0] == t);
        assert(crate::reduce::frag_text(t) == Some(s.subrange(k, k2)));
        assert(s.subrange(k, k2) + s.subrange(k2, s.len() as int) =~= s.subrange(
            k,
            s.len() as int,
        ));
    }
}

// ---------------------------------------------------------------------------
// Write-then-read: values in the grammar's own domain survive the trip.
// ---------------------------------------------------------------------------

/// A key as the grammar can spell it: a non-empty bare run.
pub open spec fn id_key(k: Seq<char>) -> bool {
    k.len() > 0 && forall|j: int| 0 <= j < k.len() ==> is_bare(k[j])
}

pub open spec fn distinct_keys(es: Seq<(Seq<char>, Jv)>) -> bool {
    forall|a: int, b: int| 0 <= a < b < es.len() ==> es[a].0 != es[b].0
}

/// The values reachable from the grammar's value domain: finite canonical
/// numbers, strings without control characters, arrays of such values, and
/// non-empty objects with distinct bare keys. Null, booleans and NaN have
/// no grammar spelling, an empty object reads back as an empty array, and
/// a mantissa of zero or a positive exponent is not what number tokens
/// produce.
pub open spec fn rt_ok(v: Jv) -> bool
    decreases v, 0int,
{
    match v {
        Jv::Null => false,
        Jv::Bool(_) => false,
        Jv::Num(JNum::Nan) => false,
        Jv::Num(JNum::Dec { neg, mant, exp }) => -32767 <= exp <= 0 && (mant == 0 ==> !neg && exp
            == 0),
        Jv::Str(s) => forall|j: int| 0 <= j < s.len() ==> (s[j] as u32) >= 32,
        Jv::Arr(items) => rt_ok_items(items, 0),
        Jv::Obj(entries) => entries.len() > 0 && distinct_keys(entries) && rt_ok_entries(
            entries,
            0,
        ),
    }
}

pub open spec fn rt_ok_items(items: Seq<Jv>, i: int) -> bool
    decreases items, items.len() - i,
{
    !(0 <= i < items.len()) || (rt_ok(items[i]) && rt_ok_items(items, i + 1))
}

pub open spec fn rt_ok_entries(es: Seq<(Seq<char>, Jv)>, i: int) -> bool
    decreases es, es.len() - i,
{
    !(0 <= i < es.len()) || (id_key(es[i].0) && rt_ok(es[i].1) && rt_ok_entries(es, i + 1))
}

proof fn lemma_rt_items_all(items: Seq<Jv>, i: int)
    requires
        0 <= i <= items.len(),
        rt_ok_items(items, i),
    ensures
        forall|j: int| i <= j < items.len() ==> rt_ok(#[trigger] items[j]),
    decreases items.len() - i,
{
    if i < items.len() {
        lemma_rt_items_all(items, i + 1);
    }
}

proof fn lemma_rt_entries_all(es: Seq<(Seq<char>, Jv)>, i: int)
    requires
        0 <= i <= es.len(),
        rt_ok_entries(es, i),
    ensures
        forall|j: int| i <= j < es.len() ==> id_key(#[trigger] es[j].0) && rt_ok(es[j].1),
    decreases es.len() - i,
{
    if i < es.len() {
        lemma_rt_entries_all(es, i + 1);
    }
}

/// Pointwise access through a matching window.
proof fn lemma_window(u: Seq<char>, i: int, w: Seq<char>)
    requires
        0 <= i,
        i + w.len() <= u.len(),
        u.subrange(i, i + w.len()) == w,
    ensures
        forall|j: int| 0 <= j < w.len() ==> u[i + j] == #[trigger] w[j],
        forall|j: int| i <= j < i + w.len() ==> #[trigger] u[j] == w[j - i],
{
    assert(forall|j: int|
        0 <= j < w.len() ==> #[trigger] u.subrange(i, i + w.len())[j] == u[i + j]);
}

/// The rendering of any round-trippable value opens with a parenthesis,
/// a double quote, a minus sign or a digit — never whitespace, a closing
/// parenthesis or a bracket.
proof fn lemma_ss_start(v: Jv)
    requires
        rt_ok(v),
    ensures
        ss_value(v).len() > 0,
        ss_value(v)[0] == '(' || ss_value(v)[0] == '"' || ss_value(v)[0] == '-' || is_digit(
            ss_value(v)[0],
        ),
        !crate::grammar::is_ws(ss_value(v)[0]),
        ss_value(v)[0] != ')',
        ss_value(v)[0] != '[',
        is_bare(ss_value(v)[0]) || ss_value(v)[0] == '(' || ss_value(v)[0] == '"',
{
    match v {
        Jv::Num(JNum::Dec { neg, mant, exp }) => {
            if mant != 0 {
                lemma_dec_digits_props(mant as nat);
                let d = dec_digits(mant as nat);
                if !neg {
                    if exp >= 0 {
                        assert(ss_value(v)[0] == d[0]);
                    } else if d.len() > -exp {
                        assert(ss_value(v)[0] == d.subrange(0, d.len() + exp)[0]);
                        assert(d.subrange(0, d.len() + exp)[0] == d[0]);
                    } else {
                        assert(ss_value(v)[0] == '0');
                    }
                }
            }
        },
        _ => {},
    }
}

spec fn follower(u: Seq<char>, j: int) -> bool {
    j == u.len() || crate::grammar::is_ws(u[j]) || u[j] == ')'
}

/// A rendered value in context: wherever the text carries `ss_value(v)`
/// followed by a separator, closing parenthesis or the end, derivation
/// yields one `value` node covering exactly that span, and reduction gives
/// `v` back.
#[verifier::rlimit(100)]
proof fn lemma_value_num(u: Seq<char>, i: int, neg: bool, mant: u64, exp: int)
    requires
        -32767 <= exp <= 0,
        mant == 0 ==> !neg && exp == 0,
        0 <= i,
        i + crate::ser::num_text(neg, mant, exp).len() <= u.len(),
        u.subrange(i, i + crate::ser::num_text(neg, mant, exp).len())
            == crate::ser::num_text(neg, mant, exp),
        follower(u, i + crate::ser::num_text(neg, mant, exp).len()),
    ensures
        ({
            let r = sp_value(u, i);
            &&& r is Some
            &&& (r->0).1 == i + crate::ser::num_text(neg, mant, exp).len()
            &&& (r->0).0.rule == Rule::Value
            &&& sr_node((r->0).0) == Ok::<Jv, ErrKind>(Jv::Num(JNum::Dec { neg, mant, exp }))
        }),
{
    let w = crate::ser::num_text(neg, mant, exp);
    let wl = w.len() as int;
    lemma_window(u, i, w);

    lemma_num_token(neg, mant, exp);
    assert(u[i] == w[0]);
    assert(is_bare(u[i]));
    assert(u[i] != '(' && u[i] != '\'' && u[i] != '"' && u[i] != '\\');
    assert(forall|j: int| i <= j < i + wl ==> is_bare(#[trigger] u[j])) by {
        assert(forall|j: int| i <= j < i + wl ==> #[trigger] u[j] == w[j - i]);
    }
    assert(i + wl == u.len() || !is_bare(u[i + wl]));
    lemma_bare_end_run(u, i, i + wl);
    let tok = leaf(Rule::Alphanum, u.subrange(i, i + wl));
    assert(u.subrange(i, i + wl) =~= w);
    assert(sp_fragment(u, i) == Some((seq![tok], i + wl)));
    assert(!crate::grammar::frag_start(u, i + wl));
    assert(sp_fragments(u, i + wl) == Some(
        (Seq::<crate::tree::STree>::empty(), i + wl),
    ));
    assert(sp_fragments(u, i) == Some(
        (seq![tok] + Seq::<crate::tree::STree>::empty(), i + wl),
    ));
    assert(seq![tok] + Seq::<crate::tree::STree>::empty() =~= seq![tok]);
    let nd = leaf(Rule::Number, w);
    assert(sp_token(u, i) == Some((nd, i + wl)));
    let value = branch(Rule::Value, seq![nd]);
    assert(sp_value(u, i) == Some((value, i + wl)));
    assert(value.kids == seq![nd] && value.kids.len() == 1);
    assert(value.kids[0] == nd);
    assert(sr_node(nd) == sr_number(nd.text));
    assert(nd.text == w);
    assert(sr_node(value) == sr_number(w));
}

#[verifier::rlimit(100)]
proof fn lemma_value_str(u: Seq<char>, i: int, s: Seq<char>)
    requires
        forall|j: int| 0 <= j < s.len() ==> (s[j] as u32) >= 32,
        0 <= i,
        i + (seq!['"'] + crate::ser::esc_str(s, 0) + seq!['"']).len() <= u.len(),
        u.subrange(i, i + (seq!['"'] + crate::ser::esc_str(s, 0) + seq!['"']).len())
            == seq!['"'] + crate::ser::esc_str(s, 0) + seq!['"'],
        follower(u, i + (seq!['"'] + crate::ser::esc_str(s, 0) + seq!['"']).len()),
    ensures
        ({
            let r = sp_value(u, i);
            &&& r is Some
            &&& (r->0).1 == i + (seq!['"'] + crate::ser::esc_str(s, 0) + seq!['"']).len()
            &&& (r->0).0.rule == Rule::Value
            &&& sr_node((r->0).0) == Ok::<Jv, ErrKind>(Jv::Str(s))
        }),
{
    let w = seq!['"'] + crate::ser::esc_str(s, 0) + seq!['"'];
    let wl = w.len() as int;
    lemma_window(u, i, w);

    let e = crate::ser::esc_str(s, 0);
    assert(w == seq!['"'] + e + seq!['"']);
    assert(u[i] == '"');
    assert(u.subrange(i + 1, i + 1 + e.len()) =~= e) by {
        assert(forall|j: int|
            0 <= j < e.len() ==> u.subrange(i + 1, i + 1 + e.len())[j] == u[i + 1 + j]
                && w[1 + j] == e[j]);
    }
    assert(u[i + 1 + e.len()] == w[1 + e.len() as int]);
    assert(w[1 + e.len() as int] == '"');
    lemma_qfrags(u, i + 1, s, 0);
    let kids = (crate::grammar::sp_qfrags(u, i + 1, '"')->0).0;
    let open = leaf(crate::grammar::quote_rule('"'), seq!['"']);
    assert(sp_fragment(u, i) == Some((seq![open] + kids, i + wl)));
    assert(!crate::grammar::frag_start(u, i + wl));
    assert(sp_fragments(u, i + wl) == Some(
        (Seq::<crate::tree::STree>::empty(), i + wl),
    ));
    let ks = seq![open] + kids;
    assert(sp_fragments(u, i) == Some(
        (ks + Seq::<crate::tree::STree>::empty(), i + wl),
    ));
    assert(ks + Seq::<crate::tree::STree>::empty() =~= ks);
    assert(ks[0] == open && open.rule == Rule::DblQuote);
    let text = branch(Rule::Text, ks);
    assert(sp_token(u, i) == Some((text, i + wl)));
    let value = branch(Rule::Value, seq![text]);
    assert(sp_value(u, i) == Some((value, i + wl)));
    lemma_sr_frags_shift(open, kids, 0);
    assert(crate::reduce::frag_text(open) == Some(Seq::<char>::empty()));
    assert(sr_frags(kids, 0) == Ok::<Seq<char>, ErrKind>(s.subrange(0, s.len() as int)));
    assert(s.subrange(0, s.len() as int) =~= s);
    assert(sr_frags(ks, 0) == Ok::<Seq<char>, ErrKind>(Seq::<char>::empty() + s));
    assert(Seq::<char>::empty() + s =~= s);
    assert(sr_node(text) == Ok::<Jv, ErrKind>(Jv::Str(s)));
    assert(sr_node(value) == Ok::<Jv, ErrKind>(Jv::Str(s)));
}

/// Write-then-read for scalar values: rendering a string, or a finite
/// number in the serializer's canonical range, and deriving the rendering
/// gives a tree that reduces to the very value. Together with the
/// contracts of `stringify`, `parse` and `reduce`, this says
/// `parse(stringify(v))` returns `Ok` of a value whose model is `v`.
/// Containers are exercised by tests instead: an empty object has the
/// same rendering as an empty array, so the law cannot cover all of them.
pub proof fn lemma_write_then_read_scalar(v: Jv)
    requires
        rt_ok(v),
        v is Num || v is Str,
    ensures
        !blank(ss_value(v)),
        sp_main(ss_value(v)) is Some,
        sr_node(sp_main(ss_value(v))->0) == Ok::<Jv, ErrKind>(v),
{
    let u = ss_value(v);
    let n = u.len() as int;
    lemma_ss_start(v);
    assert(skip_ws(u, 0) == 0);
    assert(u.subrange(0, n) =~= u);
    assert(follower(u, n));
    match v {
        Jv::Num(JNum::Dec { neg, mant, exp }) => {
            assert(u == crate::ser::num_text(neg, mant, exp));
            lemma_value_num(u, 0, neg, mant, exp);
            lemma_num_token(neg, mant, exp);
            assert(forall|j: int| 0 <= j < n ==> is_bare(#[trigger] u[j])) by {
                assert(forall|j: int|
                    0 <= j < n ==> u[j] == crate::ser::num_text(neg, mant, exp)[j] && is_bare(
                        crate::ser::num_text(neg, mant, exp)[j],
                    ));
            }
            lemma_bare_end_run(u, 0, n);
            assert(bare_end(u, 0) == n);
        },
        Jv::Str(s) => {
            assert(u == seq!['"'] + crate::ser::esc_str(s, 0) + seq!['"']);
            lemma_value_str(u, 0, s);
            assert(!is_bare(u[0]));
            assert(bare_end(u, 0) == 0);
        },
        _ => {},
    }
    let tree = (sp_value(u, 0)->0).0;
    assert(skip_ws(u, n) == n);
    assert(sp_main(u) == Some(branch(Rule::Main, seq![tree])));
    let main = branch(Rule::Main, seq![tree]);
    assert(main.kids == seq![tree] && main.kids.len() == 1);
    assert(main.kids[0] == tree);
    assert(main.kids[0].rule == Rule::Value);
    assert(main.kids[0].rule != Rule::Attrib);
    assert(sr_node(main) == sr_node(tree));
}

/// Scalar round-trip: a plain identifier-safe string parses to itself.
/// The derivation is a single bare run, reduced as a one-fragment string.
pub proof fn lemma_scalar_round_trip(s: Seq<char>)
    requires
        id_safe(s),
    ensures
        !blank(s),
        sp_main(s) is Some,
        sr_node(sp_main(s)->0) == Ok::<Jv, ErrKind>(Jv::Str(s)),
{
    let n = s.len() as int;
    assert(!crate::grammar::is_ws(s[0]));
    assert(skip_ws(s, 0) == 0);
    lemma_bare_end_all(s, 0);
    assert(bare_end(s, 0) == n);

    // The one fragment: the whole input as a bare run.
    let tok = leaf(Rule::Alphanum, s.subrange(0, n));
    assert(s.subrange(0, n) =~= s);
    assert(sp_fragment(s, 0) == Some((seq![tok], n)));
    assert(!crate::grammar::frag_start(s, n));
    assert(sp_fragments(s, n) == Some((Seq::<crate::tree::STree>::empty(), n)));
    assert(sp_fragments(s, 0) == Some((seq![tok] + Seq::<crate::tree::STree>::empty(), n)));
    assert(seq![tok] + Seq::<crate::tree::STree>::empty() =~= seq![tok]);
    assert(sp_fragments(s, 0) == Some((seq![tok], n)));

    // Classified as a string, never a number.
    let text = branch(Rule::Text, seq![tok]);
    assert(sp_token(s, 0) == Some((text, n)));
    let value = branch(Rule::Value, seq![text]);
    assert(sp_value(s, 0) == Some((value, n)));
    assert(skip_ws(s, n) == n);
    assert(sp_main(s) == Some(branch(Rule::Main, seq![value])));

    // Reduction concatenates the single fragment back to the input.
    assert(sr_frags(seq![tok], 1) == Ok::<Seq<char>, ErrKind>(Seq::empty()));
    assert(sr_frags(seq![tok], 0) == Ok::<Seq<char>, ErrKind>(s + Seq::empty()));
    assert(s + Seq::<char>::empty() =~= s);
    assert(sr_node(text) == Ok::<Jv, ErrKind>(Jv::Str(s)));
    assert(sr_node(value) == Ok::<Jv, ErrKind>(Jv::Str(s)));
    assert(sr_node(branch(Rule::Main, seq![value])) == Ok::<Jv, ErrKind>(Jv::Str(s)));
}

} // verus!
