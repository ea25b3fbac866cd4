//! JSON text for a tree, and what parsing it gives back.
use vstd::prelude::*;
use crate::error::Error;
use crate::grammar::{
    document, elements_at, ends_with_trailing_comma, is_digit, is_escape_char, is_number_char,
    is_white_space, member_at, members_at, number_at, number_run_len, opt_len, string_at,
    string_body_len, value_at, ws_len,
};
use crate::number::{
    digit_run, digit_value, digits_value, fits_i64, float_text, has_fraction_mark,
    int_text_value, is_fraction_mark, number_literal, sign_len,
};
use crate::value::JsonTree;

verus! {

broadcast use {vstd::seq::axiom_seq_index_decreases, vstd::seq::axiom_seq_subrange_decreases};

/// The text of a string with its quotes.
pub open spec fn render_string(b: Seq<char>) -> Seq<char> {
    seq!['"'] + b + seq!['"']
}

/// The character of one decimal digit.
pub open spec fn digit_char(d: nat) -> char {
    if d == 0 { '0' } else if d == 1 { '1' } else if d == 2 { '2' } else if d == 3 { '3' }
    else if d == 4 { '4' } else if d == 5 { '5' } else if d == 6 { '6' } else if d == 7 { '7' }
    else if d == 8 { '8' } else { '9' }
}

/// The decimal digits of `n`, without leading zeros.
pub open spec fn render_digits(n: nat) -> Seq<char>
    decreases n,
{
    if n < 10 {
        seq![digit_char(n)]
    } else {
        render_digits(n / 10).push(digit_char(n % 10))
    }
}

/// An integer in decimal, with `-` when negative.
pub open spec fn render_integer(v: int) -> Seq<char> {
    if v < 0 {
        seq!['-'] + render_digits((-v) as nat)
    } else {
        render_digits(v as nat)
    }
}

/// Whitespace only.
pub open spec fn is_blank(w: Seq<char>) -> bool {
    forall|k: int| 0 <= k < w.len() ==> #[trigger] is_white_space(w[k])
}

/// The text of a value laid out with the whitespace `w` in every gap
/// between tokens, also inside empty objects and arrays.
/// With an empty `w` this is compact JSON.
pub open spec fn render(t: JsonTree, w: Seq<char>) -> Seq<char>
    decreases t, 0nat,
{
    match t {
        JsonTree::Object(ms) => if ms.len() == 0 {
            seq!['{'] + (w + seq!['}'])
        } else {
            seq!['{'] + (w + render_members(ms, w))
        },
        JsonTree::Array(a) => if a.len() == 0 {
            seq!['['] + (w + seq![']'])
        } else {
            seq!['['] + (w + render_elements(a, w))
        },
        JsonTree::String(b) => render_string(b),
        JsonTree::Integer(v) => render_integer(v),
        JsonTree::Decimal(d) => d,
        JsonTree::Boolean(b) => if b {
            seq!['t', 'r', 'u', 'e']
        } else {
            seq!['f', 'a', 'l', 's', 'e']
        },
        JsonTree::Null => seq!['n', 'u', 'l', 'l'],
    }
}

/// One member: key, `:` and value.
pub open spec fn render_member(key: Seq<char>, v: JsonTree, w: Seq<char>) -> Seq<char>
    decreases v, 1nat,
{
    render_string(key) + (w + (seq![':'] + (w + render(v, w))))
}

/// The members of a non-empty object, separated by commas, and its `}`.
pub open spec fn render_members(ms: Seq<(Seq<char>, JsonTree)>, w: Seq<char>) -> Seq<char>
    decreases ms, 0nat,
{
    if ms.len() == 0 {
        seq!['}']
    } else if ms.len() == 1 {
        render_member(ms[0].0, ms[0].1, w) + (w + seq!['}'])
    } else {
        render_member(ms[0].0, ms[0].1, w) + (w + (seq![','] + (w + render_members(
            ms.drop_first(),
            w,
        ))))
    }
}

/// The elements of a non-empty array, separated by commas, and its `]`.
pub open spec fn render_elements(a: Seq<JsonTree>, w: Seq<char>) -> Seq<char>
    decreases a, 0nat,
{
    if a.len() == 0 {
        seq![']']
    } else if a.len() == 1 {
        render(a[0], w) + (w + seq![']'])
    } else {
        render(a[0], w) + (w + (seq![','] + (w + render_elements(a.drop_first(), w))))
    }
}

/// A whole document: the value with `w` before and after it.
pub open spec fn render_document(t: JsonTree, w: Seq<char>) -> Seq<char> {
    w + (render(t, w) + w)
}

/// String text that reads back as it is: each backslash starts a legal
/// escape, and no quote, tab or newline stands raw.
pub open spec fn escaped_ok(b: Seq<char>, j: nat) -> bool
    decreases b.len() - j,
{
    if j >= b.len() {
        true
    } else if b[j as int] == '\\' {
        j + 1 < b.len() && is_escape_char(b[j + 1 as int]) && escaped_ok(b, j + 2)
    } else {
        b[j as int] != '"' && b[j as int] != '\t' && b[j as int] != '\n' && escaped_ok(b, j + 1)
    }
}

/// A string that reads back as it is: escapes are legal and it does not
/// start with whitespace (the parser skips whitespace after an opening quote).
pub open spec fn string_text_ok(b: Seq<char>) -> bool {
    escaped_ok(b, 0) && (b.len() == 0 || !is_white_space(b[0]))
}

/// A decimal literal that reads back as it is: a floating-point literal
/// with a `.`, an `e` or an `E`, which starts like a number.
pub open spec fn decimal_ok(d: Seq<char>) -> bool {
    &&& float_text(d)
    &&& has_fraction_mark(d)
    &&& d.len() > 0
    &&& (is_digit(d[0]) || d[0] == '-')
    &&& forall|k: int| 0 <= k < d.len() ==> #[trigger] is_number_char(d[k])
}

/// A tree whose compact text is valid JSON that the parser reads.
pub open spec fn renderable(t: JsonTree) -> bool
    decreases t,
{
    match t {
        JsonTree::Object(ms) => members_renderable(ms),
        JsonTree::Array(a) => elements_renderable(a),
        JsonTree::String(b) => string_text_ok(b),
        JsonTree::Integer(v) => fits_i64(v),
        JsonTree::Decimal(d) => decimal_ok(d),
        _ => true,
    }
}

/// Each key and each value of a list of members is renderable.
pub open spec fn members_renderable(ms: Seq<(Seq<char>, JsonTree)>) -> bool
    decreases ms,
{
    ms.len() > 0 ==> string_text_ok(ms[0].0) && renderable(ms[0].1) && members_renderable(
        ms.drop_first(),
    )
}

/// Each element of a list is renderable.
pub open spec fn elements_renderable(a: Seq<JsonTree>) -> bool
    decreases a,
{
    a.len() > 0 ==> renderable(a[0]) && elements_renderable(a.drop_first())
}

/// `r` stands in `s` from `i` on.
pub open spec fn occurs_at(s: Seq<char>, i: int, r: Seq<char>) -> bool {
    0 <= i && i + r.len() <= s.len() && forall|k: int| 0 <= k < r.len() ==> s[i + k] == r[k]
}

/// What may follow a value: the end, or a character that continues no
/// number and is no quote.
pub open spec fn closes_at(s: Seq<char>, e: int) -> bool {
    e == s.len() || (0 <= e < s.len() && !is_number_char(s[e]) && s[e] != '"')
}

proof fn lemma_occurs_split(s: Seq<char>, i: int, a: Seq<char>, b: Seq<char>)
    requires
        occurs_at(s, i, a + b),
    ensures
        occurs_at(s, i, a),
        occurs_at(s, i + a.len(), b),
{
    assert forall|k: int| 0 <= k < a.len() implies s[i + k] == a[k] by {
        assert((a + b)[k] == a[k]);
    }
    assert forall|k: int| 0 <= k < b.len() implies s[i + a.len() + k] == b[k] by {
        assert((a + b)[a.len() + k] == b[k]);
    }
}

proof fn lemma_occurs_join(s: Seq<char>, i: int, a: Seq<char>, b: Seq<char>)
    requires
        occurs_at(s, i, a),
        occurs_at(s, i + a.len(), b),
    ensures
        occurs_at(s, i, a + b),
{
    assert forall|k: int| 0 <= k < (a + b).len() implies s[i + k] == (a + b)[k] by {
        if k >= a.len() {
            assert(s[i + a.len() + (k - a.len())] == b[k - a.len()]);
        }
    }
}

proof fn lemma_string_body(s: Seq<char>, i: int, b: Seq<char>, j: int)
    requires
        0 <= j <= b.len(),
        escaped_ok(b, j as nat),
        occurs_at(s, i, b + seq!['"']),
    ensures
        string_body_len(s, (i + j) as nat) == Ok::<nat, Error>((b.len() - j) as nat),
    decreases b.len() - j,
{
    assert((b + seq!['"'])[b.len() as int] == '"');
    assert(s[i + b.len()] == '"');
    if j < b.len() {
        assert(s[i + j] == b[j]) by {
            assert((b + seq!['"'])[j] == b[j]);
        }
        if b[j] == '\\' {
            assert(s[i + j + 1] == b[j + 1]) by {
                assert((b + seq!['"'])[j + 1] == b[j + 1]);
            }
            lemma_string_body(s, i, b, j + 2);
            assert((i + j) as nat + 2 == (i + (j + 2)) as nat);
        } else {
            lemma_string_body(s, i, b, j + 1);
            assert((i + j) as nat + 1 == (i + (j + 1)) as nat);
        }
    }
}

proof fn lemma_string(s: Seq<char>, i: int, b: Seq<char>)
    requires
        string_text_ok(b),
        occurs_at(s, i, render_string(b)),
    ensures
        string_at(s, i as nat) == Ok::<(Seq<char>, nat), Error>((b, b.len() + 2)),
{
    assert(render_string(b) =~= seq!['"'] + (b + seq!['"']));
    lemma_occurs_split(s, i, seq!['"'], b + seq!['"']);
    assert(s[i] == '"') by {
        assert(render_string(b)[0] == '"');
    }
    assert(opt_len(s, i as nat, '"') == 1);
    if b.len() > 0 {
        assert(s[i + 1] == b[0]) by {
            assert((b + seq!['"'])[0] == b[0]);
        }
    } else {
        assert(s[i + 1] == '"') by {
            assert((b + seq!['"'])[0] == '"');
        }
    }
    assert(ws_len(s, (i + 1) as nat) == 0);
    lemma_string_body(s, i + 1, b, 0);
    assert(s.subrange(i + 1, i + 1 + b.len()) =~= b) by {
        assert forall|k: int| 0 <= k < b.len() implies s[i + 1 + k] == b[k] by {
            assert((b + seq!['"'])[k] == b[k]);
        }
    }
}

proof fn lemma_digit_char(d: nat)
    requires
        d < 10,
    ensures
        is_digit(digit_char(d)),
        digit_value(digit_char(d)) == d,
        (digit_char(d) == '0') == (d == 0),
{
}

proof fn lemma_digits(n: nat)
    ensures
        render_digits(n).len() >= 1,
        forall|k: int| 0 <= k < render_digits(n).len() ==> is_digit(#[trigger] render_digits(n)[k]),
        render_digits(n)[0] == '0' ==> n == 0 && render_digits(n).len() == 1,
        digits_value(render_digits(n)) == n,
    decreases n,
{
    if n < 10 {
        lemma_digit_char(n);
        let r = seq![digit_char(n)];
        assert(r.drop_last() =~= Seq::<char>::empty());
        assert(r.last() == digit_char(n));
        assert(digits_value(r) == 10 * digits_value(r.drop_last()) + digit_value(r.last()));
    } else {
        let x = render_digits(n / 10);
        lemma_digits(n / 10);
        lemma_digit_char(n % 10);
        let r = x.push(digit_char(n % 10));
        assert(r.drop_last() =~= x);
        assert(r.last() == digit_char(n % 10));
        assert(digits_value(r) == 10 * digits_value(r.drop_last()) + digit_value(r.last()));
        assert(10 * (n / 10) + n % 10 == n) by (nonlinear_arith);
        assert(x.push(digit_char(n % 10))[0] == x[0]);
    }
}

proof fn lemma_digit_run_all(t: Seq<char>, o: nat)
    requires
        o <= t.len(),
        forall|k: int| o <= k < t.len() ==> is_digit(#[trigger] t[k]),
    ensures
        digit_run(t, o) == t.len() - o,
    decreases t.len() - o,
{
    if o < t.len() {
        lemma_digit_run_all(t, o + 1);
    }
}

proof fn lemma_integer_literal(v: int)
    requires
        fits_i64(v),
    ensures
        number_literal(render_integer(v)) == Ok::<JsonTree, Error>(JsonTree::Integer(v)),
        render_integer(v).len() >= 1,
        is_digit(render_integer(v)[0]) || render_integer(v)[0] == '-',
        forall|k: int|
            0 <= k < render_integer(v).len() ==> #[trigger] is_number_char(render_integer(v)[k]),
{
    let t = render_integer(v);
    if v < 0 {
        let m = (-v) as nat;
        lemma_digits(m);
        let d = render_digits(m);
        assert(t == seq!['-'] + d);
        assert forall|k: int| 1 <= k < t.len() implies is_digit(#[trigger] t[k]) by {
            assert(t[k] == d[k - 1]);
        }
        assert(sign_len(t, 0) == 1);
        lemma_digit_run_all(t, 1);
        assert(t.subrange(1, t.len() as int) =~= d);
        assert forall|k: int| 0 <= k < t.len() implies !#[trigger] is_fraction_mark(t[k]) by {
            if k > 0 {
                assert(is_digit(t[k]));
            }
        }
        assert forall|k: int| 0 <= k < t.len() implies #[trigger] is_number_char(t[k]) by {
            if k > 0 {
                assert(is_digit(t[k]));
            }
        }
        assert(int_text_value(t) == Some(v));
    } else {
        let m = v as nat;
        lemma_digits(m);
        assert(sign_len(t, 0) == 0) by {
            assert(is_digit(t[0]));
        }
        lemma_digit_run_all(t, 0);
        assert(t.subrange(0, t.len() as int) =~= t);
        assert forall|k: int| 0 <= k < t.len() implies !#[trigger] is_fraction_mark(t[k]) by {
            assert(is_digit(t[k]));
        }
        assert forall|k: int| 0 <= k < t.len() implies #[trigger] is_number_char(t[k]) by {
            assert(is_digit(t[k]));
        }
        assert(int_text_value(t) == Some(v));
    }
}

proof fn lemma_number_run(s: Seq<char>, i: int, e: int)
    requires
        0 <= i <= e <= s.len(),
        forall|k: int| i <= k < e ==> #[trigger] is_number_char(s[k]),
        e == s.len() || !is_number_char(s[e]),
    ensures
        number_run_len(s, i as nat) == e - i,
    decreases e - i,
{
    if i < e {
        lemma_number_run(s, i + 1, e);
        assert((i + 1) as nat == i as nat + 1);
    }
}

proof fn lemma_number(s: Seq<char>, i: int, t: Seq<char>, tree: JsonTree)
    requires
        occurs_at(s, i, t),
        closes_at(s, i + t.len()),
        forall|k: int| 0 <= k < t.len() ==> #[trigger] is_number_char(t[k]),
        number_literal(t) == Ok::<JsonTree, Error>(tree),
    ensures
        number_at(s, i as nat) == Ok::<(JsonTree, nat), Error>((tree, t.len())),
{
    assert forall|k: int| i <= k < i + t.len() implies #[trigger] is_number_char(s[k]) by {
        assert(s[i + (k - i)] == t[k - i]);
    }
    lemma_number_run(s, i, i + t.len());
    assert(s.subrange(i, i + t.len()) =~= t);
}

proof fn lemma_blank_run(s: Seq<char>, i: int, e: int)
    requires
        0 <= i <= e <= s.len(),
        forall|k: int| i <= k < e ==> #[trigger] is_white_space(s[k]),
        e == s.len() || !is_white_space(s[e]),
    ensures
        ws_len(s, i as nat) == e - i,
    decreases e - i,
{
    if i < e {
        lemma_blank_run(s, i + 1, e);
        assert((i + 1) as nat == i as nat + 1);
    }
}

/// Whitespace `w` at `i`, followed by no more whitespace, is skipped whole.
proof fn lemma_blank(s: Seq<char>, i: int, w: Seq<char>)
    requires
        occurs_at(s, i, w),
        is_blank(w),
        i + w.len() == s.len() || !is_white_space(s[i + w.len()]),
    ensures
        ws_len(s, i as nat) == w.len(),
{
    assert forall|k: int| i <= k < i + w.len() implies #[trigger] is_white_space(s[k]) by {
        assert(s[i + (k - i)] == w[k - i]);
    }
    lemma_blank_run(s, i, i + w.len());
}

/// After a comma the parser takes a newline when present, then whitespace:
/// together they cover the whole gap.
proof fn lemma_comma_gap(s: Seq<char>, p: int, w: Seq<char>)
    requires
        occurs_at(s, p, w),
        is_blank(w),
        p + w.len() < s.len(),
        !is_white_space(s[p + w.len()]),
    ensures
        opt_len(s, p as nat, '\n') + ws_len(s, p as nat + opt_len(s, p as nat, '\n')) == w.len(),
{
    if w.len() > 0 && w[0] == '\n' {
        assert(s[p + 0] == w[0]);
        let rest = w.drop_first();
        assert(w =~= seq![w[0]] + rest);
        lemma_occurs_split(s, p, seq![w[0]], rest);
        assert forall|k: int| 0 <= k < rest.len() implies #[trigger] is_white_space(rest[k]) by {
            assert(rest[k] == w[k + 1]);
        }
        lemma_blank(s, p + 1, rest);
        assert((p + 1) as nat == p as nat + 1);
    } else {
        if w.len() > 0 {
            assert(s[p + 0] == w[0]);
        }
        lemma_blank(s, p, w);
    }
}

proof fn lemma_decimal_literal(d: Seq<char>)
    requires
        decimal_ok(d),
    ensures
        number_literal(d) == Ok::<JsonTree, Error>(JsonTree::Decimal(d)),
{
}

/// The first character of a written value is no whitespace and no closing
/// bracket; its last is neither whitespace nor a comma, and no comma
/// stands just before the closing bracket of an object or an array.
proof fn lemma_render_ends(t: JsonTree, w: Seq<char>)
    requires
        renderable(t),
        is_blank(w),
    ensures
        render(t, w).len() >= 1,
        !is_white_space(render(t, w)[0]),
        render(t, w)[0] != ']' && render(t, w)[0] != '}',
        !is_white_space(render(t, w).last()),
        render(t, w).last() != ',',
        (t is Object || t is Array) ==> render(t, w).len() >= 2 && render(t, w)[render(t, w).len()
            - 2] != ',',
    decreases t, 0nat,
{
    let r = render(t, w);
    match t {
        JsonTree::Object(ms) => {
            if ms.len() == 0 {
                assert(r =~= seq!['{'] + (w + seq!['}']));
                if w.len() > 0 {
                    assert(r[r.len() - 2] == w[w.len() - 1]);
                    assert(is_white_space(w[w.len() - 1]));
                }
            } else {
                lemma_members_ends(ms, w);
                let rm = render_members(ms, w);
                assert(r =~= seq!['{'] + (w + rm));
                assert(r.last() == rm.last());
                assert(r[r.len() - 2] == rm[rm.len() - 2]);
            }
        },
        JsonTree::Array(a) => {
            if a.len() == 0 {
                assert(r =~= seq!['['] + (w + seq![']']));
                if w.len() > 0 {
                    assert(r[r.len() - 2] == w[w.len() - 1]);
                    assert(is_white_space(w[w.len() - 1]));
                }
            } else {
                lemma_elements_ends(a, w);
                let ra = render_elements(a, w);
                assert(r =~= seq!['['] + (w + ra));
                assert(r.last() == ra.last());
                assert(r[r.len() - 2] == ra[ra.len() - 2]);
            }
        },
        JsonTree::Integer(v) => {
            lemma_integer_literal(v);
            assert(is_number_char(r[r.len() - 1]));
        },
        JsonTree::Decimal(d) => {
            assert(is_number_char(d[d.len() - 1]));
        },
        _ => {},
    }
}

proof fn lemma_members_ends(ms: Seq<(Seq<char>, JsonTree)>, w: Seq<char>)
    requires
        ms.len() >= 1,
        members_renderable(ms),
        is_blank(w),
    ensures
        render_members(ms, w).len() >= 2,
        render_members(ms, w).last() == '}',
        render_members(ms, w)[render_members(ms, w).len() - 2] != ',',
    decreases ms, 0nat,
{
    let key = ms[0].0;
    let v = ms[0].1;
    assert(string_text_ok(key) && renderable(v));
    lemma_render_ends(v, w);
    let m = render_member(key, v, w);
    let r = render_members(ms, w);
    assert(m.last() == render(v, w).last());
    if ms.len() == 1 {
        assert(r =~= m + (w + seq!['}']));
        if w.len() > 0 {
            assert(r[r.len() - 2] == w.last());
            assert(is_white_space(w[w.len() - 1]));
        } else {
            assert(r[r.len() - 2] == m.last());
        }
    } else {
        let rest = ms.drop_first();
        lemma_members_ends(rest, w);
        let rr = render_members(rest, w);
        assert(r =~= m + (w + (seq![','] + (w + rr))));
        assert(r.last() == rr.last());
        assert(r[r.len() - 2] == rr[rr.len() - 2]);
    }
}

proof fn lemma_elements_ends(a: Seq<JsonTree>, w: Seq<char>)
    requires
        a.len() >= 1,
        elements_renderable(a),
        is_blank(w),
    ensures
        render_elements(a, w).len() >= 2,
        render_elements(a, w).last() == ']',
        render_elements(a, w)[render_elements(a, w).len() - 2] != ',',
    decreases a, 0nat,
{
    let v = a[0];
    assert(renderable(v));
    lemma_render_ends(v, w);
    let rv = render(v, w);
    let r = render_elements(a, w);
    if a.len() == 1 {
        assert(r =~= rv + (w + seq![']']));
        if w.len() > 0 {
            assert(r[r.len() - 2] == w.last());
            assert(is_white_space(w[w.len() - 1]));
        } else {
            assert(r[r.len() - 2] == rv.last());
        }
    } else {
        let rest = a.drop_first();
        lemma_elements_ends(rest, w);
        let rr = render_elements(rest, w);
        assert(r =~= rv + (w + (seq![','] + (w + rr))));
        assert(r.last() == rr.last());
        assert(r[r.len() - 2] == rr[rr.len() - 2]);
    }
}

/// A written value at `i` is read back whole.
proof fn lemma_value(s: Seq<char>, i: int, t: JsonTree, w: Seq<char>)
    requires
        renderable(t),
        is_blank(w),
        occurs_at(s, i, render(t, w)),
        closes_at(s, i + render(t, w).len()),
    ensures
        value_at(s, i as nat) == Ok::<(JsonTree, nat), Error>((t, render(t, w).len())),
    decreases t, 0nat,
{
    lemma_render_ends(t, w);
    let r = render(t, w);
    assert(s[i + 0] == r[0]);
    assert(ws_len(s, i as nat) == 0);
    match t {
        JsonTree::Object(ms) => {
            lemma_object(s, i, ms, w);
        },
        JsonTree::Array(a) => {
            lemma_array(s, i, a, w);
        },
        JsonTree::String(b) => {
            lemma_string(s, i, b);
        },
        JsonTree::Integer(v) => {
            lemma_integer_literal(v);
            lemma_number(s, i, render_integer(v), t);
        },
        JsonTree::Decimal(d) => {
            lemma_decimal_literal(d);
            lemma_number(s, i, d, t);
        },
        _ => {},
    }
}

/// A written object at `i` is read back whole.
proof fn lemma_object(s: Seq<char>, i: int, ms: Seq<(Seq<char>, JsonTree)>, w: Seq<char>)
    requires
        members_renderable(ms),
        is_blank(w),
        occurs_at(s, i, render(JsonTree::Object(ms), w)),
    ensures
        value_at(s, i as nat) == Ok::<(JsonTree, nat), Error>(
            (JsonTree::Object(ms), render(JsonTree::Object(ms), w).len()),
        ),
    decreases ms, 1nat,
{
    let r = render(JsonTree::Object(ms), w);
    assert(r[0] == '{');
    assert(s[i + 0] == r[0]);
    assert(ws_len(s, i as nat) == 0);
    assert((i + 1) as nat == i as nat + 1);
    if ms.len() == 0 {
        assert(r =~= seq!['{'] + (w + seq!['}']));
        lemma_occurs_split(s, i, seq!['{'], w + seq!['}']);
        lemma_occurs_split(s, i + 1, w, seq!['}']);
        assert(s[i + 1 + w.len() + 0] == seq!['}'][0]);
        lemma_blank(s, i + 1, w);
        assert(ms =~= seq![]);
    } else {
        let rm = render_members(ms, w);
        assert(r =~= seq!['{'] + (w + rm));
        lemma_occurs_split(s, i, seq!['{'], w + rm);
        lemma_occurs_split(s, i + 1, w, rm);
        assert(render_member(ms[0].0, ms[0].1, w)[0] == '"');
        assert(rm[0] == '"');
        assert(s[i + 1 + w.len() + 0] == rm[0]);
        lemma_blank(s, i + 1, w);
        assert(seq![] + rm =~= rm);
        lemma_members(s, i + 1 + w.len(), ms, w, seq![]);
    }
}

/// A written array at `i` is read back whole.
proof fn lemma_array(s: Seq<char>, i: int, a: Seq<JsonTree>, w: Seq<char>)
    requires
        elements_renderable(a),
        is_blank(w),
        occurs_at(s, i, render(JsonTree::Array(a), w)),
    ensures
        value_at(s, i as nat) == Ok::<(JsonTree, nat), Error>(
            (JsonTree::Array(a), render(JsonTree::Array(a), w).len()),
        ),
    decreases a, 1nat,
{
    let r = render(JsonTree::Array(a), w);
    assert(r[0] == '[');
    assert(s[i + 0] == r[0]);
    assert(ws_len(s, i as nat) == 0);
    assert((i + 1) as nat == i as nat + 1);
    if a.len() == 0 {
        assert(r =~= seq!['['] + (w + seq![']']));
        lemma_occurs_split(s, i, seq!['['], w + seq![']']);
        lemma_occurs_split(s, i + 1, w, seq![']']);
        assert(s[i + 1 + w.len() + 0] == seq![']'][0]);
        lemma_blank(s, i + 1, w);
        assert(a =~= seq![]);
    } else {
        let ra = render_elements(a, w);
        assert(r =~= seq!['['] + (w + ra));
        lemma_occurs_split(s, i, seq!['['], w + ra);
        lemma_occurs_split(s, i + 1, w, ra);
        lemma_render_ends(a[0], w);
        assert(ra[0] == render(a[0], w)[0]);
        assert(s[i + 1 + w.len() + 0] == ra[0]);
        lemma_blank(s, i + 1, w);
        assert(seq![] + ra =~= ra);
        lemma_elements(s, i + 1 + w.len(), a, w, seq![]);
    }
}

/// A written value after whitespace `lead` is read back whole, the
/// whitespace included.
proof fn lemma_value_lead(s: Seq<char>, i: int, t: JsonTree, w: Seq<char>, lead: Seq<char>)
    requires
        renderable(t),
        is_blank(w),
        is_blank(lead),
        occurs_at(s, i, lead + render(t, w)),
        closes_at(s, i + lead.len() + render(t, w).len()),
    ensures
        value_at(s, i as nat) == Ok::<(JsonTree, nat), Error>(
            (t, lead.len() + render(t, w).len()),
        ),
    decreases t, 1nat,
{
    let r = render(t, w);
    lemma_render_ends(t, w);
    lemma_occurs_split(s, i, lead, r);
    assert(s[i + lead.len() + 0] == r[0]);
    lemma_blank(s, i, lead);
    lemma_value(s, i + lead.len(), t, w);
    let p = (i + lead.len()) as nat;
    assert(ws_len(s, p) == 0);
    assert(p == i as nat + ws_len(s, i as nat));
}

/// One written member, after whitespace `lead`, is read back whole.
proof fn lemma_member(s: Seq<char>, j: int, key: Seq<char>, v: JsonTree, w: Seq<char>, lead: Seq<char>)
    requires
        string_text_ok(key),
        renderable(v),
        is_blank(w),
        is_blank(lead),
        occurs_at(s, j, lead + render_member(key, v, w)),
        closes_at(s, j + lead.len() + render_member(key, v, w).len()),
    ensures
        member_at(s, j as nat) == Ok::<((Seq<char>, JsonTree), nat), Error>(
            ((key, v), (lead.len() + render_member(key, v, w).len()) as nat),
        ),
    decreases v, 2nat,
{
    let rk = render_string(key);
    let rv = render(v, w);
    let m = render_member(key, v, w);
    lemma_render_ends(v, w);
    let a0 = j + lead.len();
    let a1 = a0 + rk.len();
    let a2 = a1 + w.len();
    let a3 = a2 + 1;
    let a4 = a3 + w.len();
    let a5 = a4 + rv.len();
    lemma_occurs_split(s, j, lead, m);
    lemma_occurs_split(s, a0, rk, w + (seq![':'] + (w + rv)));
    lemma_occurs_split(s, a1, w, seq![':'] + (w + rv));
    lemma_occurs_split(s, a2, seq![':'], w + rv);
    lemma_occurs_split(s, a3, w, rv);
    assert(s[a0 + 0] == rk[0]);
    assert(seq![':'][0] == ':');
    assert(s[a2 + 0] == ':');
    assert(s[a4 + 0] == rv[0]);
    lemma_blank(s, j, lead);
    lemma_string(s, a0, key);
    if w.len() > 0 {
        assert(s[a1 + 0] == w[0]);
        assert(is_white_space(w[0]));
    }
    assert(opt_len(s, a1 as nat, '"') == 0);
    lemma_blank(s, a1, w);
    lemma_blank(s, a3, w);
    lemma_value(s, a4, v, w);
    assert(opt_len(s, a5 as nat, '"') == 0);
    assert(a5 == j + lead.len() + m.len());
}

/// The written members of an object, after whitespace `lead`, are read
/// back whole, up to and including the `}`.
proof fn lemma_members(
    s: Seq<char>,
    j: int,
    ms: Seq<(Seq<char>, JsonTree)>,
    w: Seq<char>,
    lead: Seq<char>,
)
    requires
        ms.len() >= 1,
        members_renderable(ms),
        is_blank(w),
        is_blank(lead),
        occurs_at(s, j, lead + render_members(ms, w)),
    ensures
        members_at(s, j as nat) == Ok::<(Seq<(Seq<char>, JsonTree)>, nat), Error>(
            (ms, lead.len() + render_members(ms, w).len()),
        ),
    decreases ms, 0nat,
{
    let key = ms[0].0;
    let v = ms[0].1;
    assert(string_text_ok(key) && renderable(v));
    let m = render_member(key, v, w);
    let rm = render_members(ms, w);
    let k6 = j + lead.len() + m.len();
    let k7 = k6 + w.len();
    lemma_occurs_split(s, j, lead, rm);
    assert(m[0] == '"');
    assert(rm[0] == m[0]);
    assert(s[j + lead.len() + 0] == rm[0]);
    if lead.len() > 0 {
        assert(s[j + 0] == lead[0]);
        assert(is_white_space(lead[0]));
    }
    if ms.len() == 1 {
        assert(rm == m + (w + seq!['}']));
        lemma_occurs_split(s, j + lead.len(), m, w + seq!['}']);
        lemma_occurs_split(s, k6, w, seq!['}']);
        assert(seq!['}'][0] == '}');
        assert(s[k7 + 0] == '}');
        if w.len() > 0 {
            assert(s[k6 + 0] == w[0]);
            assert(is_white_space(w[0]));
        }
        lemma_member(s, j, key, v, w, lead);
        lemma_blank(s, k6, w);
        assert(seq![(key, v)] =~= ms);
    } else {
        let rest = ms.drop_first();
        let rr = render_members(rest, w);
        assert(rm == m + (w + (seq![','] + (w + rr))));
        lemma_occurs_split(s, j + lead.len(), m, w + (seq![','] + (w + rr)));
        lemma_occurs_split(s, k6, w, seq![','] + (w + rr));
        lemma_occurs_split(s, k7, seq![','], w + rr);
        lemma_occurs_split(s, k7 + 1, w, rr);
        assert(seq![','][0] == ',');
        assert(s[k7 + 0] == ',');
        if w.len() > 0 {
            assert(s[k6 + 0] == w[0]);
            assert(is_white_space(w[0]));
        }
        lemma_member(s, j, key, v, w, lead);
        lemma_blank(s, k6, w);
        assert(render_member(rest[0].0, rest[0].1, w)[0] == '"');
        assert(rr[0] == '"');
        assert(s[k7 + 1 + w.len() + 0] == rr[0]);
        lemma_comma_gap(s, k7 + 1, w);
        assert(seq![] + rr =~= rr);
        lemma_members(s, k7 + 1 + w.len(), rest, w, seq![]);
        assert((k7 + 1 + w.len()) as nat == (k7 + 1) as nat + w.len());
        assert(seq![(key, v)] + rest =~= ms);
    }
}

/// The written elements of an array, after whitespace `lead`, are read
/// back whole, up to and including the `]`.
proof fn lemma_elements(s: Seq<char>, j: int, a: Seq<JsonTree>, w: Seq<char>, lead: Seq<char>)
    requires
        a.len() >= 1,
        elements_renderable(a),
        is_blank(w),
        is_blank(lead),
        occurs_at(s, j, lead + render_elements(a, w)),
    ensures
        elements_at(s, j as nat) == Ok::<(Seq<JsonTree>, nat), Error>(
            (a, lead.len() + render_elements(a, w).len()),
        ),
    decreases a, 0nat,
{
    let v = a[0];
    assert(renderable(v));
    lemma_render_ends(v, w);
    let rv = render(v, w);
    let re = render_elements(a, w);
    let k1 = j + lead.len() + rv.len();
    let k2 = k1 + w.len();
    lemma_occurs_split(s, j, lead, re);
    assert(re[0] == rv[0]);
    assert(s[j + lead.len() + 0] == re[0]);
    if lead.len() > 0 {
        assert(s[j + 0] == lead[0]);
        assert(is_white_space(lead[0]));
    }
    if a.len() == 1 {
        assert(re == rv + (w + seq![']']));
        lemma_occurs_split(s, j + lead.len(), rv, w + seq![']']);
        lemma_occurs_split(s, k1, w, seq![']']);
        assert(seq![']'][0] == ']');
        assert(s[k2 + 0] == ']');
        if w.len() > 0 {
            assert(s[k1 + 0] == w[0]);
            assert(is_white_space(w[0]));
        }
        lemma_occurs_join(s, j, lead, rv);
        lemma_value_lead(s, j, v, w, lead);
        lemma_blank(s, k1, w);
        assert(seq![v] =~= a);
    } else {
        let rest = a.drop_first();
        let rr = render_elements(rest, w);
        assert(re == rv + (w + (seq![','] + (w + rr))));
        lemma_occurs_split(s, j + lead.len(), rv, w + (seq![','] + (w + rr)));
        lemma_occurs_split(s, k1, w, seq![','] + (w + rr));
        lemma_occurs_split(s, k2, seq![','], w + rr);
        assert(seq![','][0] == ',');
        assert(s[k2 + 0] == ',');
        if w.len() > 0 {
            assert(s[k1 + 0] == w[0]);
            assert(is_white_space(w[0]));
        }
        lemma_occurs_join(s, j, lead, rv);
        lemma_value_lead(s, j, v, w, lead);
        lemma_blank(s, k1, w);
        lemma_elements(s, k2 + 1, rest, w, w);
        assert((k2 + 1) as nat == k2 as nat + 1);
        assert(seq![v] + rest =~= a);
    }
}

/// Every object or array written as JSON text, compact (empty `w`) or
/// laid out with the one whitespace run `w` in every gap between its
/// tokens and around it, parses back to the tree it was written from:
/// keys, values and their order are kept.
pub proof fn lemma_parse_render(t: JsonTree, w: Seq<char>)
    requires
        renderable(t),
        t is Object || t is Array,
        is_blank(w),
    ensures
        document(render_document(t, w)) == Ok::<JsonTree, Error>(t),
{
    let r = render(t, w);
    let s = render_document(t, w);
    let n = w.len() as int;
    let m = r.len() as int;
    lemma_render_ends(t, w);
    lemma_occurs_split(s, 0, w, r + w);
    lemma_occurs_split(s, w.len() as int, r, w);
    assert(s[n + 0] == r[0]);
    lemma_blank(s, 0, w);
    if w.len() > 0 {
        assert(s[n + m + 0] == w[0]);
        assert(is_white_space(w[0]));
    }
    lemma_value(s, n, t, w);
    lemma_blank(s, n + m, w);
    if w.len() > 0 {
        assert(s[n + m + (n - 1)] == w[n - 1]);
        assert(is_white_space(w[w.len() - 1]));
        assert(s[s.len() - 1] == w[w.len() - 1]);
    } else {
        assert(s =~= r);
    }
    assert(!ends_with_trailing_comma(s));
}

/// Documents of two different trees, each laid out with one whitespace run
/// of its own in every gap, never parse to the same tree.
pub proof fn lemma_distinct_documents(t1: JsonTree, w1: Seq<char>, t2: JsonTree, w2: Seq<char>)
    requires
        renderable(t1),
        renderable(t2),
        t1 is Object || t1 is Array,
        t2 is Object || t2 is Array,
        is_blank(w1),
        is_blank(w2),
        t1 != t2,
    ensures
        document(render_document(t1, w1)) != document(render_document(t2, w2)),
{
    lemma_parse_render(t1, w1);
    lemma_parse_render(t2, w2);
}

} // verus!
