use vstd::prelude::*;
use crate::value::{lemma_view_arr, lemma_view_obj, view_arr, view_obj, JNum, Jv, Number, Value};

verus! {

broadcast use vstd::std_specs::vec::axiom_vec_index_decreases;

/// Relies on String::push: appends the given character to the string.
pub assume_specification[ String::push ](s: &mut String, c: char)
    ensures
        final(s)@ == old(s)@.push(c),
;

// ---------------------------------------------------------------------------
// The rendering, as a function of the value model.
// ---------------------------------------------------------------------------

pub open spec fn dchar(d: nat) -> char {
    if d == 0 {
        '0'
    } else if d == 1 {
        '1'
    } else if d == 2 {
        '2'
    } else if d == 3 {
        '3'
    } else if d == 4 {
        '4'
    } else if d == 5 {
        '5'
    } else if d == 6 {
        '6'
    } else if d == 7 {
        '7'
    } else if d == 8 {
        '8'
    } else {
        '9'
    }
}

/// The decimal digits of `n`, most significant first.
pub open spec fn dec_digits(n: nat) -> Seq<char>
    decreases n,
{
    if n < 10 {
        seq![dchar(n)]
    } else {
        dec_digits(n / 10).push(dchar(n % 10))
    }
}

pub open spec fn zeros(k: int) -> Seq<char> {
    if k <= 0 {
        Seq::empty()
    } else {
        Seq::new(k as nat, |i: int| '0')
    }
}

/// The token for a finite number: `0` for either zero, decimal text
/// otherwise.
pub open spec fn num_text(neg: bool, mant: u64, exp: int) -> Seq<char> {
    if mant == 0 {
        seq!['0']
    } else {
        fmt_dec(neg, mant, exp)
    }
}

/// The text of the finite number `(-1)^neg * m * 10^exp`: the digits of `m`
/// shifted by `exp`, with a dot and leading zeros where the shift calls for
/// them.
pub open spec fn fmt_dec(neg: bool, m: u64, exp: int) -> Seq<char> {
    let d = dec_digits(m as nat);
    let sign: Seq<char> = if neg {
        seq!['-']
    } else {
        Seq::empty()
    };
    if exp >= 0 {
        sign + d + zeros(exp)
    } else if d.len() > -exp {
        sign + d.subrange(0, d.len() + exp) + seq!['.'] + d.subrange(d.len() + exp, d.len() as int)
    } else {
        sign + seq!['0', '.'] + zeros(-exp - d.len()) + d
    }
}

/// A string body with `"` and `\` escaped by a backslash, from `i` on.
pub open spec fn esc_str(s: Seq<char>, i: int) -> Seq<char>
    decreases s.len() - i,
{
    if !(0 <= i < s.len()) {
        Seq::empty()
    } else {
        (if s[i] == '"' || s[i] == '\\' {
            seq!['\\', s[i]]
        } else {
            seq![s[i]]
        }) + esc_str(s, i + 1)
    }
}

/// The shell-assignable rendering of a value: nothing for null, false and
/// NaN; `1` for true; `0` for either zero; decimal text for other numbers;
/// a double-quoted escaped literal for strings; parenthesized space-joined
/// elements for arrays; parenthesized `[key]=value` entries, in order, for
/// objects.
pub open spec fn ss_value(v: Jv) -> Seq<char>
    decreases v, 0int,
{
    match v {
        Jv::Null => Seq::empty(),
        Jv::Bool(b) => if b {
            seq!['1']
        } else {
            Seq::empty()
        },
        Jv::Num(JNum::Nan) => Seq::empty(),
        Jv::Num(JNum::Dec { neg, mant, exp }) => num_text(neg, mant, exp),
        Jv::Str(s) => seq!['"'] + esc_str(s, 0) + seq!['"'],
        Jv::Arr(items) => seq!['('] + ss_items(items, 0) + seq![')'],
        Jv::Obj(entries) => seq!['('] + ss_entries(entries, 0) + seq![')'],
    }
}

pub open spec fn ss_items(items: Seq<Jv>, i: int) -> Seq<char>
    decreases items, items.len() - i,
{
    if !(0 <= i < items.len()) {
        Seq::empty()
    } else {
        ss_value(items[i]) + (if i + 1 < items.len() {
            seq![' ']
        } else {
            Seq::empty()
        }) + ss_items(items, i + 1)
    }
}

pub open spec fn ss_entries(entries: Seq<(Seq<char>, Jv)>, i: int) -> Seq<char>
    decreases entries, entries.len() - i,
{
    if !(0 <= i < entries.len()) {
        Seq::empty()
    } else {
        seq!['['] + entries[i].0 + seq![']', '='] + ss_value(entries[i].1) + (if i + 1
            < entries.len() {
            seq![' ']
        } else {
            Seq::empty()
        }) + ss_entries(entries, i + 1)
    }
}

// ---------------------------------------------------------------------------
// The serializer.
// ---------------------------------------------------------------------------

fn digit_char(d: u64) -> (c: char)
    requires
        d < 10,
    ensures
        c == dchar(d as nat),
{
    if d == 0 {
        '0'
    } else if d == 1 {
        '1'
    } else if d == 2 {
        '2'
    } else if d == 3 {
        '3'
    } else if d == 4 {
        '4'
    } else if d == 5 {
        '5'
    } else if d == 6 {
        '6'
    } else if d == 7 {
        '7'
    } else if d == 8 {
        '8'
    } else {
        '9'
    }
}

fn digits_of(m: u64) -> (v: Vec<char>)
    ensures
        v@ == dec_digits(m as nat),
    decreases m,
{
    if m < 10 {
        let mut v: Vec<char> = Vec::new();
        v.push(digit_char(m));
        v
    } else {
        let mut v = digits_of(m / 10);
        v.push(digit_char(m % 10));
        v
    }
}

#[verifier::loop_isolation(false)]
fn push_range(out: &mut String, d: &Vec<char>, from: usize, to: usize)
    requires
        from <= to <= d@.len(),
    ensures
        final(out)@ == old(out)@ + d@.subrange(from as int, to as int),
{
    let mut i: usize = from;
    while i < to
        invariant
            from <= i <= to,
            out@ == old(out)@ + d@.subrange(from as int, i as int),
        decreases to - i,
    {
        out.push(d[i]);
        proof {
            assert(d@.subrange(from as int, i + 1) =~= d@.subrange(from as int, i as int).push(
                d@[i as int],
            ));
        }
        i = i + 1;
    }
}

#[verifier::loop_isolation(false)]
fn push_zeros(out: &mut String, k: usize)
    ensures
        final(out)@ == old(out)@ + zeros(k as int),
{
    let mut i: usize = 0;
    while i < k
        invariant
            i <= k,
            out@ == old(out)@ + zeros(i as int),
        decreases k - i,
    {
        out.push('0');
        proof {
            assert(zeros(i + 1) =~= zeros(i as int).push('0'));
        }
        i = i + 1;
    }
}

fn write_num(out: &mut String, neg: bool, m: u64, exp: i16)
    ensures
        final(out)@ == old(out)@ + fmt_dec(neg, m, exp as int),
{
    if neg {
        out.push('-');
    }
    let d = digits_of(m);
    if exp >= 0 {
        push_range(out, &d, 0, d.len());
        push_zeros(out, exp as usize);
        proof {
            assert(d@.subrange(0, d@.len() as int) =~= d@);
        }
    } else {
        let k: usize = (-(exp as i32)) as usize;
        if d.len() > k {
            push_range(out, &d, 0, d.len() - k);
            out.push('.');
            push_range(out, &d, d.len() - k, d.len());
        } else {
            out.push('0');
            out.push('.');
            push_zeros(out, k - d.len());
            push_range(out, &d, 0, d.len());
            proof {
                assert(d@.subrange(0, d@.len() as int) =~= d@);
            }
        }
    }
    proof {
        assert(out@ =~= old(out)@ + fmt_dec(neg, m, exp as int));
    }
}

#[verifier::loop_isolation(false)]
fn write_str(out: &mut String, s: &String)
    ensures
        final(out)@ == old(out)@ + seq!['"'] + esc_str(s@, 0) + seq!['"'],
{
    let n = s.as_str().unicode_len();
    out.push('"');
    let mut i: usize = 0;
    while i < n
        invariant
            i <= n == s@.len(),
            out@ + esc_str(s@, i as int) == old(out)@.push('"') + esc_str(s@, 0),
        decreases n - i,
    {
        let c = s.as_str().get_char(i);
        if c == '"' || c == '\\' {
            out.push('\\');
            out.push(c);
        } else {
            out.push(c);
        }
        proof {
            assert(out@ + esc_str(s@, i + 1) =~= old(out)@.push('"') + esc_str(s@, 0));
        }
        i = i + 1;
    }
    out.push('"');
    proof {
        assert(esc_str(s@, n as int) =~= Seq::empty());
        assert(out@ =~= old(out)@ + seq!['"'] + esc_str(s@, 0) + seq!['"']);
    }
}

#[verifier::loop_isolation(false)]
fn write_value(v: &Value, out: &mut String)
    ensures
        final(out)@ == old(out)@ + ss_value(v@),
    decreases v,
{
    match v {
        Value::Null => {
            proof {
                assert(out@ =~= old(out)@ + ss_value(v@));
            }
        },
        Value::Bool(b) => {
            if *b {
                out.push('1');
            }
            proof {
                assert(out@ =~= old(out)@ + ss_value(v@));
            }
        },
        Value::Num(num) => {
            match num {
                Number::Nan => {},
                Number::Dec { neg, mant, exp } => {
                    if *mant == 0 {
                        out.push('0');
                    } else {
                        write_num(out, *neg, *mant, *exp);
                    }
                },
            }
            proof {
                assert(out@ =~= old(out)@ + ss_value(v@));
            }
        },
        Value::Str(s) => {
            write_str(out, s);
        },
        Value::Arr(items) => {
            proof {
                lemma_view_arr(items@);
            }
            out.push('(');
            let ghost va = view_arr(items@);
            let mut i: usize = 0;
            while i < items.len()
                invariant
                    i <= items@.len(),
                    out@ + ss_items(va, i as int) == old(out)@.push('(') + ss_items(va, 0),
                decreases items@.len() - i,
            {
                proof {
                    assert(*v == Value::Arr(*items));
                    assert(decreases_to!(Value::Arr(*items) => *items));
                    assert(decreases_to!(*items => items[i as int]));
                }
                write_value(&items[i], out);
                if i + 1 < items.len() {
                    out.push(' ');
                }
                proof {
                    assert(out@ + ss_items(va, i + 1) =~= old(out)@.push('(') + ss_items(va, 0));
                }
                i = i + 1;
            }
            out.push(')');
            proof {
                assert(ss_items(va, items@.len() as int) =~= Seq::empty());
                assert(out@ =~= old(out)@ + ss_value(v@));
            }
        },
        Value::Obj(entries) => {
            proof {
                lemma_view_obj(entries@);
            }
            out.push('(');
            let ghost ve = view_obj(entries@);
            let mut i: usize = 0;
            while i < entries.len()
                invariant
                    i <= entries@.len(),
                    out@ + ss_entries(ve, i as int) == old(out)@.push('(') + ss_entries(ve, 0),
                decreases entries@.len() - i,
            {
                out.push('[');
                out.append(entries[i].0.as_str());
                out.push(']');
                out.push('=');
                proof {
                    assert(*v == Value::Obj(*entries));
                    assert(decreases_to!(Value::Obj(*entries) => *entries));
                    assert(decreases_to!(*entries => entries[i as int]));
                    assert(decreases_to!(entries[i as int] => entries[i as int].1));
                }
                write_value(&entries[i].1, out);
                if i + 1 < entries.len() {
                    out.push(' ');
                }
                proof {
                    assert(out@ + ss_entries(ve, i + 1) =~= old(out)@.push('(') + ss_entries(
                        ve,
                        0,
                    ));
                }
                i = i + 1;
            }
            out.push(')');
            proof {
                assert(ss_entries(ve, entries@.len() as int) =~= Seq::empty());
                assert(out@ =~= old(out)@ + ss_value(v@));
            }
        },
    }
}

/// Renders a value into a fresh string: the body of the crate's public
/// serializer entry point.
pub fn render(value: &Value) -> (r: String)
    ensures
        r@ == ss_value(value.view()),
{
    let mut out = String::new();
    write_value(value, &mut out);
    proof {
        assert(out@ =~= Seq::<char>::empty() + ss_value(value.view()));
    }
    out
}

} // verus!
