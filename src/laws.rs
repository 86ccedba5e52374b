//! General properties of rendering, proved over the specifications of the passes.
use vstd::prelude::*;

use crate::render::{
    cond_from, cond_pass, else_at, else_branch, else_tag, endif_tag, if_open, print_close,
    prepend, print_open, render_spec, repeat_close, repeat_from, repeat_open, repeat_pass, repeat_seq,
    repeat_times, subst, subst_from, tag_close, then_branch, Fault, count_value, is_digit,
    valid_count,
};
use crate::text::{find, free_of, is_space, lemma_find, occurs_at, trim};
use crate::value::{digit_char, digits, Data};

verus! {

/// `{%`
pub open spec fn block_open() -> Seq<char> {
    seq!['{', '%']
}

/// Whether `s` holds no directive: neither `{{` nor `{%` occurs in it.
pub open spec fn no_directive(s: Seq<char>) -> bool {
    free_of(s, print_open()) && free_of(s, block_open())
}

/// A character that may stand in an identifier: an ASCII letter or digit, or `_`.
pub open spec fn is_ident_char(c: char) -> bool {
    ('a' <= c && c <= 'z') || ('A' <= c && c <= 'Z') || ('0' <= c && c <= '9') || c == '_'
}

/// A bare identifier: one or more identifier characters.
pub open spec fn is_identifier(k: Seq<char>) -> bool {
    k.len() > 0 && forall|m: int| 0 <= m < k.len() ==> is_ident_char(#[trigger] k[m])
}

/// An occurrence of `pat` at `p` puts `pat[m]` at `p + m`.
pub proof fn lemma_occurs_char(s: Seq<char>, pat: Seq<char>, p: int, m: int)
    requires
        occurs_at(s, pat, p),
        0 <= m < pat.len(),
    ensures
        s[p + m] == pat[m],
{
    assert(s.subrange(p, p + pat.len())[m] == s[p + m]);
}

/// The first occurrence at or after `from` is at `x` when `pat` occurs at
/// `x` and nowhere in between.
pub proof fn lemma_find_at(s: Seq<char>, pat: Seq<char>, from: int, x: int)
    requires
        0 <= from <= x,
        occurs_at(s, pat, x),
        forall|p: int| from <= p < x ==> !#[trigger] occurs_at(s, pat, p),
    ensures
        find(s, pat, from) == Some(x),
{
    lemma_find(s, pat, from);
}

/// A text in which `pat` never occurs at or after `from` has no first
/// occurrence there.
pub proof fn lemma_find_nowhere(s: Seq<char>, pat: Seq<char>, from: int)
    requires
        0 <= from,
        forall|p: int| from <= p ==> !#[trigger] occurs_at(s, pat, p),
    ensures
        find(s, pat, from) is None,
{
    lemma_find(s, pat, from);
}

/// A text with no `{%` holds none of the block tags.
proof fn lemma_no_block(s: Seq<char>, pat: Seq<char>)
    requires
        free_of(s, block_open()),
        pat.len() >= 2,
        pat[0] == '{',
        pat[1] == '%',
    ensures
        free_of(s, pat),
{
    assert forall|p: int| !#[trigger] occurs_at(s, pat, p) by {
        if occurs_at(s, pat, p) {
            lemma_occurs_char(s, pat, p, 0);
            lemma_occurs_char(s, pat, p, 1);
            assert(s.subrange(p, p + 2) =~= block_open());
            assert(occurs_at(s, block_open(), p));
        }
    }
}

/// Rendering a template that holds no directive gives the template back.
pub proof fn law_plain_template_unchanged(t: Seq<char>, b: Map<Seq<char>, Data>)
    requires
        no_directive(t),
    ensures
        render_spec(t, b) == Ok::<Seq<char>, Fault>(t),
{
    lemma_find(t, print_open(), 0);
    assert(t.subrange(0, t.len() as int) =~= t);
    lemma_no_block(t, repeat_open());
    lemma_find(t, repeat_open(), 0);
    lemma_no_block(t, if_open());
    lemma_find(t, if_open(), 0);
}

/// An identifier with one space on each side trims to itself.
proof fn lemma_trim_padded(k: Seq<char>)
    requires
        is_identifier(k),
    ensures
        trim(seq![' '] + k + seq![' ']) == k,
{
    let s = seq![' '] + k + seq![' '];
    let n = s.len() as int;
    assert(s[0] == ' ');
    assert(s[1] == k[0]);
    assert(is_ident_char(k[0]));
    assert(crate::text::trim_start_index(s, 1) == 1);
    assert(crate::text::trim_start_index(s, 0) == 1);
    assert(s[n - 1] == ' ');
    assert(s[n - 2] == k[k.len() - 1]);
    assert(is_ident_char(k[k.len() - 1]));
    assert(crate::text::trim_end_index(s, 1, n - 1) == n - 1);
    assert(crate::text::trim_end_index(s, 1, n) == n - 1);
    assert(s.subrange(1, n - 1) =~= k);
}

/// The passes that follow substitution leave a text without repeat or
/// conditional openings as it is.
proof fn lemma_later_passes_keep(v: Seq<char>, b: Map<Seq<char>, Data>)
    requires
        free_of(v, repeat_open()),
        free_of(v, if_open()),
    ensures
        repeat_pass(v) == Ok::<Seq<char>, Fault>(v),
        cond_pass(v, b) == Ok::<Seq<char>, Fault>(v),
{
    lemma_find(v, repeat_open(), 0);
    lemma_find(v, if_open(), 0);
    assert(v.subrange(0, v.len() as int) =~= v);
}

/// A template that is only `{{ k }}`, with `k` bound to a text, renders to
/// that text exactly as it is, provided the text holds no repeat or
/// conditional opening for the later passes to act on.
#[verifier::rlimit(30)]
pub proof fn law_text_substituted_verbatim(
    k: Seq<char>,
    v: Seq<char>,
    b: Map<Seq<char>, Data>,
)
    requires
        is_identifier(k),
        b.contains_key(k),
        b[k] matches Data::Text(s) && s@ == v,
        free_of(v, repeat_open()),
        free_of(v, if_open()),
    ensures
        render_spec(print_open() + seq![' '] + k + seq![' '] + print_close(), b) == Ok::<
            Seq<char>,
            Fault,
        >(v),
{
    let t = print_open() + seq![' '] + k + seq![' '] + print_close();
    let n = t.len() as int;
    let c = k.len() + 4int;
    assert(t.subrange(0, 2) =~= print_open());
    lemma_find_at(t, print_open(), 0, 0);
    assert(t.subrange(c, c + 2) =~= print_close());
    assert forall|p: int| 2 <= p < c implies !#[trigger] occurs_at(t, print_close(), p) by {
        if occurs_at(t, print_close(), p) {
            lemma_occurs_char(t, print_close(), p, 0);
            if 3 <= p < 3 + k.len() {
                assert(t[p] == k[p - 3]);
                assert(is_ident_char(k[p - 3]));
            }
        }
    }
    lemma_find_at(t, print_close(), 2, c);
    assert(t.subrange(2, c) =~= seq![' '] + k + seq![' ']);
    lemma_trim_padded(k);
    assert(find(t, print_open(), n) is None);
    assert(t.subrange(n, n) =~= Seq::<char>::empty());
    assert(subst_from(t, b, n) == Ok::<Seq<char>, Fault>(Seq::<char>::empty()));
    assert(t.subrange(0, 0) + v + Seq::<char>::empty() =~= v);
    assert(subst(t, b) == Ok::<Seq<char>, Fault>(v));
    lemma_later_passes_keep(v, b);
}

/// Whether `s` holds no `{`.
pub open spec fn brace_free(s: Seq<char>) -> bool {
    forall|m: int| 0 <= m < s.len() ==> #[trigger] s[m] != '{'
}

/// Whether `s` has no whitespace at either end.
pub open spec fn trimmed(s: Seq<char>) -> bool {
    s.len() == 0 || (!is_space(s[0]) && !is_space(s[s.len() - 1]))
}

proof fn lemma_trimmed(s: Seq<char>)
    requires
        trimmed(s),
    ensures
        trim(s) == s,
{
    assert(crate::text::trim_start_index(s, 0) == 0);
    assert(crate::text::trim_end_index(s, 0, s.len() as int) == s.len());
    assert(s.subrange(0, s.len() as int) =~= s);
}

/// A text without `{` holds no directive tag, nor any other text that
/// starts with `{`.
proof fn lemma_brace_free_misses(s: Seq<char>, pat: Seq<char>, from: int)
    requires
        brace_free(s),
        pat.len() > 0,
        pat[0] == '{',
        0 <= from,
    ensures
        find(s, pat, from) is None,
{
    assert forall|p: int| from <= p implies !#[trigger] occurs_at(s, pat, p) by {
        if occurs_at(s, pat, p) {
            lemma_occurs_char(s, pat, p, 0);
        }
    }
    lemma_find_nowhere(s, pat, from);
}

proof fn lemma_repeat_brace_free(body: Seq<char>, n: nat)
    requires
        brace_free(body),
    ensures
        brace_free(repeat_seq(body, n)),
    decreases n,
{
    if n > 0 {
        lemma_repeat_brace_free(body, (n - 1) as nat);
    }
}

/// The decimal digits of `n` are digits, and spell `n`.
proof fn lemma_digits(n: nat)
    ensures
        digits(n).len() > 0,
        forall|m: int| 0 <= m < digits(n).len() ==> is_digit(#[trigger] digits(n)[m]),
        count_value(digits(n)) == n,
    decreases n,
{
    let d = digits(n);
    if n >= 10 {
        lemma_digits(n / 10);
        assert(d.drop_last() =~= digits(n / 10));
    } else {
        assert(d.drop_last() =~= Seq::<char>::empty());
    }
    let x = n % 10;
    assert(x < 10);
    assert(digit_char(x) as u32 == x + 48);
    assert(d.last() == digit_char(x));
    assert(count_value(d) == count_value(d.drop_last()) * 10 + x);
    if n >= 10 {
        assert(n == (n / 10) * 10 + x);
    }
}

/// The template of a repeat block with `d` for its count and `body` for its
/// body.
pub open spec fn repeat_template(d: Seq<char>, body: Seq<char>) -> Seq<char> {
    repeat_open() + d + repeat_times() + body + repeat_close()
}

/// A repeat block whose count is digits and whose body has no `{` holds no
/// `{{`, so the substitution pass keeps it.
#[verifier::rlimit(30)]
proof fn lemma_repeat_template_subst(n: nat, body: Seq<char>, b: Map<Seq<char>, Data>)
    requires
        brace_free(body),
    ensures
        subst(repeat_template(digits(n), body), b) == Ok::<Seq<char>, Fault>(
            repeat_template(digits(n), body),
        ),
{
    let d = digits(n);
    let t = repeat_template(d, body);
    lemma_digits(n);
    let j = 10 + d.len() as int;
    let k = j + 9 + body.len() as int;
    let len = t.len() as int;
    assert forall|p: int| 0 <= p < len && t[p] == '{' implies (p == 0 || p == k) by {
        if p < 10 {
            assert(t[p] == repeat_open()[p]);
        } else if p < j {
            assert(t[p] == d[p - 10]);
            assert(is_digit(d[p - 10]));
        } else if p < j + 9 {
            assert(t[p] == repeat_times()[p - j]);
        } else if p < k {
            assert(t[p] == body[p - j - 9]);
        } else {
            assert(t[p] == repeat_close()[p - k]);
        }
    }
    assert(t[1] == '%');
    assert(t[k + 1] == '%');
    assert forall|p: int| 0 <= p implies !#[trigger] occurs_at(t, print_open(), p) by {
        if occurs_at(t, print_open(), p) {
            lemma_occurs_char(t, print_open(), p, 0);
            lemma_occurs_char(t, print_open(), p, 1);
        }
    }
    lemma_find_nowhere(t, print_open(), 0);
    assert(t.subrange(0, len) =~= t);
}

/// The repetition pass finds the block's three tags where they were written.
#[verifier::rlimit(30)]
proof fn lemma_repeat_template_pass(n: nat, body: Seq<char>)
    requires
        n <= usize::MAX,
        brace_free(body),
        trimmed(body),
    ensures
        repeat_pass(repeat_template(digits(n), body)) == Ok::<Seq<char>, Fault>(
            repeat_seq(body, n),
        ),
{
    let d = digits(n);
    let t = repeat_template(d, body);
    lemma_digits(n);
    let j = 10 + d.len() as int;
    let k = j + 9 + body.len() as int;
    let len = t.len() as int;
    assert(t.subrange(0, 10) =~= repeat_open());
    lemma_find_at(t, repeat_open(), 0, 0);
    assert(t.subrange(j, j + 9) =~= repeat_times());
    assert forall|p: int| 10 <= p < j implies !#[trigger] occurs_at(t, repeat_times(), p) by {
        if occurs_at(t, repeat_times(), p) {
            lemma_occurs_char(t, repeat_times(), p, 0);
            assert(t[p] == d[p - 10]);
            assert(is_digit(d[p - 10]));
        }
    }
    lemma_find_at(t, repeat_times(), 10, j);
    assert(t.subrange(k, k + 15) =~= repeat_close());
    assert forall|p: int| j + 9 <= p < k implies !#[trigger] occurs_at(t, repeat_close(), p) by {
        if occurs_at(t, repeat_close(), p) {
            lemma_occurs_char(t, repeat_close(), p, 0);
            assert(t[p] == body[p - j - 9]);
        }
    }
    lemma_find_at(t, repeat_close(), j + 9, k);
    assert(t.subrange(10, j) =~= d);
    assert(trimmed(d)) by {
        assert(is_digit(d[0]));
        assert(is_digit(d[d.len() - 1]));
    }
    lemma_trimmed(d);
    assert(valid_count(d));
    assert(t.subrange(j + 9, k) =~= body);
    lemma_trimmed(body);
    assert(find(t, repeat_open(), len) is None);
    assert(t.subrange(len, len) =~= Seq::<char>::empty());
    assert(repeat_from(t, len) == Ok::<Seq<char>, Fault>(Seq::<char>::empty()));
    let out = repeat_seq(body, n);
    assert(t.subrange(0, 0) + out + Seq::<char>::empty() =~= out);
}

/// Writing a count of `n` in decimal and a body `body` without `{` or
/// whitespace at its ends into a repeat block renders to `body` written `n`
/// times in a row; zero times gives the empty text.
pub proof fn law_repeat_writes_body_n_times(n: nat, body: Seq<char>, b: Map<Seq<char>, Data>)
    requires
        n <= usize::MAX,
        brace_free(body),
        trimmed(body),
    ensures
        render_spec(repeat_template(digits(n), body), b) == Ok::<Seq<char>, Fault>(
            repeat_seq(body, n),
        ),
        n == 0 ==> repeat_seq(body, n) == Seq::<char>::empty(),
{
    lemma_repeat_template_subst(n, body, b);
    lemma_repeat_template_pass(n, body);
    let out = repeat_seq(body, n);
    lemma_repeat_brace_free(body, n);
    lemma_brace_free_misses(out, if_open(), 0);
    assert(out.subrange(0, out.len() as int) =~= out);
}

/// Whether every `{` of `s` opens a block tag other than a repeat opening:
/// a `%` follows it, and no `r` two places further on.
pub open spec fn braces_open_other_tags(s: Seq<char>) -> bool {
    forall|p: int|
        0 <= p < s.len() && #[trigger] s[p] == '{' ==> p + 3 < s.len() && s[p + 1] == '%' && s[p
            + 3] != 'r'
}

/// The substitution and repetition passes keep a text whose every `{` opens
/// a block tag other than a repeat opening.
proof fn lemma_first_passes_keep(t: Seq<char>, b: Map<Seq<char>, Data>)
    requires
        braces_open_other_tags(t),
    ensures
        subst(t, b) == Ok::<Seq<char>, Fault>(t),
        repeat_pass(t) == Ok::<Seq<char>, Fault>(t),
{
    assert forall|p: int| 0 <= p implies !#[trigger] occurs_at(t, print_open(), p) by {
        if occurs_at(t, print_open(), p) {
            lemma_occurs_char(t, print_open(), p, 0);
            lemma_occurs_char(t, print_open(), p, 1);
        }
    }
    lemma_find_nowhere(t, print_open(), 0);
    assert forall|p: int| 0 <= p implies !#[trigger] occurs_at(t, repeat_open(), p) by {
        if occurs_at(t, repeat_open(), p) {
            lemma_occurs_char(t, repeat_open(), p, 0);
            lemma_occurs_char(t, repeat_open(), p, 3);
        }
    }
    lemma_find_nowhere(t, repeat_open(), 0);
    assert(t.subrange(0, t.len() as int) =~= t);
}

/// `{% if k %}yes{% else %}no{% endif %}`
pub open spec fn if_else_template(k: Seq<char>, yes: Seq<char>, no: Seq<char>) -> Seq<char> {
    if_open() + k + tag_close() + yes + else_tag() + no + endif_tag()
}

/// `{% if k %}yes{% endif %}`
pub open spec fn if_template(k: Seq<char>, yes: Seq<char>) -> Seq<char> {
    if_open() + k + tag_close() + yes + endif_tag()
}

/// The tag that closes the opening `{% if k` of `t` is the first ` %}` after it.
proof fn lemma_if_key_closes(t: Seq<char>, k: Seq<char>)
    requires
        is_identifier(k),
        t.len() >= 9 + k.len(),
        t.subrange(0, 6) == if_open(),
        t.subrange(6, 6 + k.len() as int) == k,
        t.subrange(6 + k.len() as int, 9 + k.len() as int) == tag_close(),
    ensures
        find(t, if_open(), 0) == Some(0int),
        find(t, tag_close(), 6) == Some(6 + k.len() as int),
        trim(t.subrange(6, 6 + k.len() as int)) == k,
{
    let j = 6 + k.len() as int;
    assert(occurs_at(t, if_open(), 0));
    lemma_find_at(t, if_open(), 0, 0);
    assert forall|p: int| 6 <= p < j implies !#[trigger] occurs_at(t, tag_close(), p) by {
        if occurs_at(t, tag_close(), p) {
            lemma_occurs_char(t, tag_close(), p, 0);
            assert(t.subrange(6, j)[p - 6] == t[p]);
            assert(is_ident_char(k[p - 6]));
        }
    }
    assert(occurs_at(t, tag_close(), j));
    lemma_find_at(t, tag_close(), 6, j);
    assert(trimmed(k)) by {
        assert(is_ident_char(k[0]));
        assert(is_ident_char(k[k.len() - 1]));
    }
    lemma_trimmed(k);
}

/// The passes find `{% if k %}yes{% else %}no{% endif %}` where it was
/// written: the first two keep it, and the conditional pass sees its key, its
/// `else` and its end.
#[verifier::rlimit(30)]
proof fn lemma_if_else_template_scan(
    k: Seq<char>,
    yes: Seq<char>,
    no: Seq<char>,
    b: Map<Seq<char>, Data>,
)
    requires
        is_identifier(k),
        brace_free(yes),
        brace_free(no),
    ensures
        ({
            let t = if_else_template(k, yes, no);
            let j = 6 + k.len() as int;
            let e = j + 3 + yes.len() as int;
            let f = e + 10 + no.len() as int;
            &&& subst(t, b) == Ok::<Seq<char>, Fault>(t)
            &&& repeat_pass(t) == Ok::<Seq<char>, Fault>(t)
            &&& find(t, if_open(), 0) == Some(0int)
            &&& find(t, tag_close(), 6) == Some(j)
            &&& find(t, endif_tag(), j + 3) == Some(f)
            &&& else_at(t, j + 3, f) == Some(e)
            &&& trim(t.subrange(6, j)) == k
            &&& t.subrange(j + 3, e) == yes
            &&& t.subrange(e + 10, f) == no
            &&& t.len() == f + 11
        }),
{
    let t = if_else_template(k, yes, no);
    let j = 6 + k.len() as int;
    let e = j + 3 + yes.len() as int;
    let f = e + 10 + no.len() as int;
    let len = t.len() as int;
    assert(len == f + 11);
    assert forall|p: int| 0 <= p < len && t[p] == '{' implies (p == 0 || p == e || p == f) by {
        if p < 6 {
            assert(t[p] == if_open()[p]);
        } else if p < j {
            assert(t[p] == k[p - 6]);
            assert(is_ident_char(k[p - 6]));
        } else if p < j + 3 {
            assert(t[p] == tag_close()[p - j]);
        } else if p < e {
            assert(t[p] == yes[p - j - 3]);
        } else if p < e + 10 {
            assert(t[p] == else_tag()[p - e]);
        } else if p < f {
            assert(t[p] == no[p - e - 10]);
        } else {
            assert(t[p] == endif_tag()[p - f]);
        }
    }
    assert(t[1] == '%' && t[3] == 'i');
    assert(t[e + 1] == '%' && t[e + 3] == 'e' && t[e + 4] == 'l');
    assert(t[f + 1] == '%' && t[f + 3] == 'e');
    lemma_first_passes_keep(t, b);
    assert(t.subrange(0, 6) =~= if_open());
    assert(t.subrange(6, j) =~= k);
    assert(t.subrange(j, j + 3) =~= tag_close());
    lemma_if_key_closes(t, k);
    assert(t.subrange(f, f + 11) =~= endif_tag());
    assert forall|p: int| j + 3 <= p < f implies !#[trigger] occurs_at(t, endif_tag(), p) by {
        if occurs_at(t, endif_tag(), p) {
            lemma_occurs_char(t, endif_tag(), p, 0);
            lemma_occurs_char(t, endif_tag(), p, 4);
        }
    }
    lemma_find_at(t, endif_tag(), j + 3, f);
    assert(t.subrange(e, e + 10) =~= else_tag());
    assert forall|p: int| j + 3 <= p < e implies !#[trigger] occurs_at(t, else_tag(), p) by {
        if occurs_at(t, else_tag(), p) {
            lemma_occurs_char(t, else_tag(), p, 0);
        }
    }
    lemma_find_at(t, else_tag(), j + 3, e);
    assert(t.subrange(j + 3, e) =~= yes);
    assert(t.subrange(e + 10, f) =~= no);
}

/// A conditional with an `else` branch renders to the first branch when its
/// key is bound to true, and to the second when it is bound to false.
#[verifier::rlimit(30)]
pub proof fn law_if_else_selects_branch(
    k: Seq<char>,
    yes: Seq<char>,
    no: Seq<char>,
    c: bool,
    b: Map<Seq<char>, Data>,
)
    requires
        is_identifier(k),
        b.contains_key(k),
        b[k] == Data::Boolean(c),
        brace_free(yes),
        trimmed(yes),
        brace_free(no),
        trimmed(no),
    ensures
        render_spec(if_else_template(k, yes, no), b) == Ok::<Seq<char>, Fault>(
            if c {
                yes
            } else {
                no
            },
        ),
{
    let t = if_else_template(k, yes, no);
    let j = 6 + k.len() as int;
    let e = j + 3 + yes.len() as int;
    let f = e + 10 + no.len() as int;
    lemma_if_else_template_scan(k, yes, no, b);
    lemma_single_conditional(t, b, k, c, j, f);
    lemma_trimmed(yes);
    lemma_trimmed(no);
}

/// The passes find `{% if k %}yes{% endif %}` where it was written: the first
/// two keep it, and the conditional pass sees its key, its end and no `else`.
#[verifier::rlimit(30)]
proof fn lemma_if_template_scan(k: Seq<char>, yes: Seq<char>, b: Map<Seq<char>, Data>)
    requires
        is_identifier(k),
        brace_free(yes),
    ensures
        subst(if_template(k, yes), b) == Ok::<Seq<char>, Fault>(if_template(k, yes)),
        repeat_pass(if_template(k, yes)) == Ok::<Seq<char>, Fault>(if_template(k, yes)),
        find(if_template(k, yes), if_open(), 0) == Some(0int),
        find(if_template(k, yes), tag_close(), 6) == Some(6 + k.len() as int),
        find(if_template(k, yes), endif_tag(), 9 + k.len() as int) == Some(
            9 + k.len() + yes.len() as int,
        ),
        find(if_template(k, yes), else_tag(), 9 + k.len() as int) is None,
        trim(if_template(k, yes).subrange(6, 6 + k.len() as int)) == k,
        if_template(k, yes).subrange(9 + k.len() as int, 9 + k.len() + yes.len() as int) == yes,
        if_template(k, yes).len() == 20 + k.len() + yes.len(),
{
    let t = if_template(k, yes);
    let j = 6 + k.len() as int;
    let f = j + 3 + yes.len() as int;
    let len = t.len() as int;
    assert(len == f + 11);
    assert forall|p: int| 0 <= p < len && t[p] == '{' implies (p == 0 || p == f) by {
        if p < 6 {
            assert(t[p] == if_open()[p]);
        } else if p < j {
            assert(t[p] == k[p - 6]);
            assert(is_ident_char(k[p - 6]));
        } else if p < j + 3 {
            assert(t[p] == tag_close()[p - j]);
        } else if p < f {
            assert(t[p] == yes[p - j - 3]);
        } else {
            assert(t[p] == endif_tag()[p - f]);
        }
    }
    assert(t[1] == '%' && t[3] == 'i');
    assert(t[f + 1] == '%' && t[f + 3] == 'e' && t[f + 4] == 'n');
    lemma_first_passes_keep(t, b);
    assert(t.subrange(0, 6) =~= if_open());
    assert(t.subrange(6, j) =~= k);
    assert(t.subrange(j, j + 3) =~= tag_close());
    lemma_if_key_closes(t, k);
    assert(t.subrange(f, f + 11) =~= endif_tag());
    assert forall|p: int| j + 3 <= p < f implies !#[trigger] occurs_at(t, endif_tag(), p) by {
        if occurs_at(t, endif_tag(), p) {
            lemma_occurs_char(t, endif_tag(), p, 0);
        }
    }
    lemma_find_at(t, endif_tag(), j + 3, f);
    assert forall|p: int| j + 3 <= p implies !#[trigger] occurs_at(t, else_tag(), p) by {
        if occurs_at(t, else_tag(), p) {
            lemma_occurs_char(t, else_tag(), p, 0);
            lemma_occurs_char(t, else_tag(), p, 4);
        }
    }
    lemma_find_nowhere(t, else_tag(), j + 3);
    assert(t.subrange(j + 3, f) =~= yes);
}

/// The conditional pass over a text that is one conditional block, with its
/// tags at the given places, gives the trimmed branch that the key selects.
#[verifier::rlimit(30)]
proof fn lemma_single_conditional(
    t: Seq<char>,
    b: Map<Seq<char>, Data>,
    key: Seq<char>,
    c: bool,
    j: int,
    f: int,
)
    requires
        6 <= j,
        j + 3 <= f,
        t.len() == f + 11,
        find(t, if_open(), 0) == Some(0int),
        find(t, tag_close(), 6) == Some(j),
        find(t, endif_tag(), j + 3) == Some(f),
        trim(t.subrange(6, j)) == key,
        b.contains_key(key),
        b[key] == Data::Boolean(c),
    ensures
        cond_pass(t, b) == Ok::<Seq<char>, Fault>(
            if c {
                trim(then_branch(t, j + 3, f))
            } else {
                trim(else_branch(t, j + 3, f))
            },
        ),
{
    let len = t.len() as int;
    let empty = Seq::<char>::empty();
    let chosen = if c {
        trim(then_branch(t, j + 3, f))
    } else {
        trim(else_branch(t, j + 3, f))
    };
    assert(find(t, if_open(), len) is None);
    assert(t.subrange(len, len) =~= empty);
    assert(cond_from(t, b, len) == Ok::<Seq<char>, Fault>(empty));
    assert(t.subrange(0, 0) + chosen + empty =~= chosen);
    assert(cond_from(t, b, 0) == prepend(t.subrange(0, 0) + chosen, cond_from(t, b, len)));
}

/// A conditional without an `else` branch renders to nothing when its key is
/// bound to false, and to its body when it is bound to true.
#[verifier::rlimit(30)]
pub proof fn law_if_without_else(k: Seq<char>, yes: Seq<char>, c: bool, b: Map<Seq<char>, Data>)
    requires
        is_identifier(k),
        b.contains_key(k),
        b[k] == Data::Boolean(c),
        brace_free(yes),
        trimmed(yes),
    ensures
        render_spec(if_template(k, yes), b) == Ok::<Seq<char>, Fault>(
            if c {
                yes
            } else {
                Seq::<char>::empty()
            },
        ),
{
    let t = if_template(k, yes);
    let j = 6 + k.len() as int;
    let f = j + 3 + yes.len() as int;
    let empty = Seq::<char>::empty();
    lemma_if_template_scan(k, yes, b);
    lemma_single_conditional(t, b, k, c, j, f);
    lemma_trimmed(yes);
    assert(else_at(t, j + 3, f) is None);
    assert(then_branch(t, j + 3, f) == yes);
    assert(trim(empty) =~= empty);
    assert(else_branch(t, j + 3, f) == empty);
}

/// A substitution of an identifier that is not bound fails with
/// `UnknownKey` naming it, when no `{` comes before it, whatever follows.
#[verifier::rlimit(30)]
pub proof fn law_unbound_substitution_fails(
    pre: Seq<char>,
    k: Seq<char>,
    rest: Seq<char>,
    b: Map<Seq<char>, Data>,
)
    requires
        brace_free(pre),
        is_identifier(k),
        !b.contains_key(k),
    ensures
        render_spec(pre + print_open() + seq![' '] + k + seq![' '] + print_close() + rest, b)
            == Err::<Seq<char>, Fault>(Fault::UnknownKey(k)),
{
    let t = pre + print_open() + seq![' '] + k + seq![' '] + print_close() + rest;
    let i = pre.len() as int;
    let c = i + k.len() + 4;
    assert(t.subrange(i, i + 2) =~= print_open());
    assert forall|p: int| 0 <= p < i implies !#[trigger] occurs_at(t, print_open(), p) by {
        if occurs_at(t, print_open(), p) {
            lemma_occurs_char(t, print_open(), p, 0);
            assert(t[p] == pre[p]);
        }
    }
    lemma_find_at(t, print_open(), 0, i);
    assert(t.subrange(c, c + 2) =~= print_close());
    assert forall|p: int| i + 2 <= p < c implies !#[trigger] occurs_at(t, print_close(), p) by {
        if occurs_at(t, print_close(), p) {
            lemma_occurs_char(t, print_close(), p, 0);
            if i + 3 <= p < i + 3 + k.len() {
                assert(t[p] == k[p - i - 3]);
                assert(is_ident_char(k[p - i - 3]));
            }
        }
    }
    lemma_find_at(t, print_close(), i + 2, c);
    assert(t.subrange(i + 2, c) =~= seq![' '] + k + seq![' ']);
    lemma_trim_padded(k);
}

/// A conditional on an identifier that is not bound fails with `UnknownKey`
/// naming it.
pub proof fn law_unbound_conditional_fails(k: Seq<char>, yes: Seq<char>, b: Map<Seq<char>, Data>)
    requires
        is_identifier(k),
        !b.contains_key(k),
        brace_free(yes),
    ensures
        render_spec(if_template(k, yes), b) == Err::<Seq<char>, Fault>(Fault::UnknownKey(k)),
{
    lemma_if_template_scan(k, yes, b);
}

} // verus!
