//! Rendering: the substitution, repetition and conditional passes.
use vstd::prelude::*;

use crate::bindings::Bindings;
use crate::text::{
    chars_of, find, find_exec, lemma_find, push_range, string_of, trim, trim_bounds,
};
use crate::value::{text_of, Data};

verus! {

/// Why a render failed.
#[derive(Debug, PartialEq, Eq)]
pub enum RenderError {
    /// A directive names an identifier that is not bound.
    UnknownKey(String),
    /// A conditional names an identifier bound to something other than a Boolean.
    TypeMismatch(String),
    /// A repeat count is not a non-negative integer that fits a `usize`.
    InvalidRepeatCount(String),
}

/// What a `RenderError` says, over plain character sequences.
pub enum Fault {
    UnknownKey(Seq<char>),
    TypeMismatch(Seq<char>),
    InvalidRepeatCount(Seq<char>),
}

impl View for RenderError {
    type V = Fault;

    open spec fn view(&self) -> Fault {
        match self {
            RenderError::UnknownKey(k) => Fault::UnknownKey(k@),
            RenderError::TypeMismatch(k) => Fault::TypeMismatch(k@),
            RenderError::InvalidRepeatCount(t) => Fault::InvalidRepeatCount(t@),
        }
    }
}

/// The outcome of a pass or render, with the text as a character sequence.
pub open spec fn outcome_chars(r: Result<Vec<char>, RenderError>) -> Result<Seq<char>, Fault> {
    match r {
        Ok(v) => Ok(v@),
        Err(e) => Err(e@),
    }
}

/// `r` with `p` put in front of its text; a failure stays as it is.
pub open spec fn prepend(p: Seq<char>, r: Result<Seq<char>, Fault>) -> Result<Seq<char>, Fault> {
    match r {
        Ok(t) => Ok(p + t),
        Err(e) => Err(e),
    }
}

proof fn lemma_prepend_twice(a: Seq<char>, b: Seq<char>, r: Result<Seq<char>, Fault>)
    ensures
        prepend(a, prepend(b, r)) == prepend(a + b, r),
{
    if let Ok(t) = r {
        assert(a + (b + t) =~= (a + b) + t);
    }
}

/// `{{`
pub open spec fn print_open() -> Seq<char> {
    seq!['{', '{']
}

/// `}}`
pub open spec fn print_close() -> Seq<char> {
    seq!['}', '}']
}

/// The substitution pass over `s` from position `pos` on: each `{{ key }}`
/// becomes the text of the value bound to the trimmed key.
pub open spec fn subst_from(s: Seq<char>, b: Map<Seq<char>, Data>, pos: int) -> Result<
    Seq<char>,
    Fault,
>
    decreases s.len() - pos,
    via subst_from_decreases
{
    match find(s, print_open(), pos) {
        None => Ok(s.subrange(pos, s.len() as int)),
        Some(i) => match find(s, print_close(), i + 2) {
            None => Ok(s.subrange(pos, s.len() as int)),
            Some(j) => {
                let key = trim(s.subrange(i + 2, j));
                if !b.contains_key(key) {
                    Err(Fault::UnknownKey(key))
                } else {
                    prepend(s.subrange(pos, i) + text_of(b[key]), subst_from(s, b, j + 2))
                }
            },
        },
    }
}

#[via_fn]
proof fn subst_from_decreases(s: Seq<char>, b: Map<Seq<char>, Data>, pos: int) {
    if pos >= 0 {
        lemma_find(s, print_open(), pos);
        if let Some(i) = find(s, print_open(), pos) {
            lemma_find(s, print_close(), i + 2);
        }
    }
}

/// The substitution pass over the whole of `s`.
pub open spec fn subst(s: Seq<char>, b: Map<Seq<char>, Data>) -> Result<Seq<char>, Fault> {
    subst_from(s, b, 0)
}

/// Replaces each `{{ key }}` of `s` by the text of the value bound to the
/// trimmed key; fails on the first key that is not bound.
pub fn substitute(s: &Vec<char>, b: &Bindings) -> (r: Result<Vec<char>, RenderError>)
    ensures
        outcome_chars(r) == subst(s@, b@),
{
    let open = chars_of("{{");
    let close = chars_of("}}");
    proof {
        reveal_strlit("{{");
        reveal_strlit("}}");
        assert(open@ =~= print_open());
        assert(close@ =~= print_close());
    }
    let n = s.len();
    let mut out: Vec<char> = Vec::new();
    let mut pos: usize = 0;
    loop
        invariant
            n == s@.len(),
            pos <= s@.len(),
            open@ == print_open(),
            close@ == print_close(),
            subst(s@, b@) == prepend(out@, subst_from(s@, b@, pos as int)),
        decreases s@.len() - pos,
    {
        proof {
            lemma_find(s@, print_open(), pos as int);
        }
        let i = match find_exec(s, open.as_slice(), pos) {
            Some(i) => i,
            None => {
                push_range(&mut out, s, pos, s.len());
                return Ok(out);
            },
        };
        proof {
            lemma_find(s@, print_close(), i + 2);
        }
        let j = match find_exec(s, close.as_slice(), i + 2) {
            Some(j) => j,
            None => {
                push_range(&mut out, s, pos, s.len());
                return Ok(out);
            },
        };
        let (lo, hi) = trim_bounds(s, i + 2, j);
        let ghost key = trim(s@.subrange(i + 2, j as int));
        match b.get_range(s, lo, hi) {
            None => {
                let k = string_of(&slice_chars(s, lo, hi));
                return Err(RenderError::UnknownKey(k));
            },
            Some(v) => {
                let ghost before = out@;
                push_range(&mut out, s, pos, i);
                v.push_text(&mut out);
                proof {
                    lemma_prepend_twice(
                        before,
                        s@.subrange(pos as int, i as int) + text_of(b@[key]),
                        subst_from(s@, b@, j + 2),
                    );
                    assert(out@ =~= before + (s@.subrange(pos as int, i as int) + text_of(
                        b@[key],
                    )));
                }
                pos = j + 2;
            },
        }
    }
}

/// `{% repeat `
pub open spec fn repeat_open() -> Seq<char> {
    seq!['{', '%', ' ', 'r', 'e', 'p', 'e', 'a', 't', ' ']
}

/// ` times %}`
pub open spec fn repeat_times() -> Seq<char> {
    seq![' ', 't', 'i', 'm', 'e', 's', ' ', '%', '}']
}

/// `{% endrepeat %}`
pub open spec fn repeat_close() -> Seq<char> {
    seq!['{', '%', ' ', 'e', 'n', 'd', 'r', 'e', 'p', 'e', 'a', 't', ' ', '%', '}']
}

/// Whether `c` is an ASCII decimal digit.
pub open spec fn is_digit(c: char) -> bool {
    '0' <= c && c <= '9'
}

/// The number that the decimal digits `d` spell (empty spells zero).
pub open spec fn count_value(d: Seq<char>) -> nat
    decreases d.len(),
{
    if d.len() == 0 {
        0
    } else {
        count_value(d.drop_last()) * 10 + ((d.last() as u32 - 48) as nat)
    }
}

/// Whether `d` is a repeat count: one or more decimal digits whose value
/// fits a `usize`.
pub open spec fn valid_count(d: Seq<char>) -> bool {
    &&& d.len() > 0
    &&& forall|m: int| 0 <= m < d.len() ==> is_digit(#[trigger] d[m])
    &&& count_value(d) <= usize::MAX
}

/// `body` written `n` times in a row.
pub open spec fn repeat_seq(body: Seq<char>, n: nat) -> Seq<char>
    decreases n,
{
    if n == 0 {
        Seq::empty()
    } else {
        repeat_seq(body, (n - 1) as nat) + body
    }
}

/// The value of a string of digits does not fall as digits are added.
proof fn lemma_count_value_grows(d: Seq<char>, m: int)
    requires
        0 <= m <= d.len(),
        forall|x: int| 0 <= x < d.len() ==> is_digit(#[trigger] d[x]),
    ensures
        count_value(d.subrange(0, m)) <= count_value(d),
    decreases d.len(),
{
    if m < d.len() {
        let p = d.drop_last();
        assert(p.subrange(0, m) =~= d.subrange(0, m));
        assert forall|x: int| 0 <= x < p.len() implies is_digit(#[trigger] p[x]) by {
            assert(p[x] == d[x]);
        }
        lemma_count_value_grows(p, m);
    } else {
        assert(d.subrange(0, m) =~= d);
    }
}

/// The repeat count spelled by `s[from..to]`, if it is one.
fn parse_count(s: &Vec<char>, from: usize, to: usize) -> (r: Option<usize>)
    requires
        from <= to <= s@.len(),
    ensures
        r is Some <==> valid_count(s@.subrange(from as int, to as int)),
        r matches Some(n) ==> n == count_value(s@.subrange(from as int, to as int)),
{
    let ghost d = s@.subrange(from as int, to as int);
    if from == to {
        return None;
    }
    let mut v: usize = 0;
    let mut k = from;
    while k < to
        invariant
            from <= k <= to <= s@.len(),
            d == s@.subrange(from as int, to as int),
            forall|x: int| from <= x < k ==> is_digit(#[trigger] s@[x]),
            v == count_value(s@.subrange(from as int, k as int)),
        decreases to - k,
    {
        let c = s[k];
        if !('0' <= c && c <= '9') {
            assert(!is_digit(d[k - from]));
            return None;
        }
        let ghost p = s@.subrange(from as int, k + 1);
        assert(p.drop_last() =~= s@.subrange(from as int, k as int));
        let digit = (c as u32 - 48) as usize;
        let next = match v.checked_mul(10) {
            Some(t) => t.checked_add(digit),
            None => None,
        };
        match next {
            Some(t) => {
                v = t;
            },
            None => {
                proof {
                    if forall|x: int| 0 <= x < d.len() ==> is_digit(#[trigger] d[x]) {
                        lemma_count_value_grows(d, k + 1 - from);
                        assert(d.subrange(0, k + 1 - from) =~= p);
                    }
                }
                return None;
            },
        }
        k = k + 1;
    }
    assert(s@.subrange(from as int, k as int) =~= d);
    Some(v)
}

/// The repetition pass over `s` from position `pos` on: each
/// `{% repeat N times %}body{% endrepeat %}` becomes the trimmed body
/// written N times, where N is the trimmed count.
pub open spec fn repeat_from(s: Seq<char>, pos: int) -> Result<Seq<char>, Fault>
    decreases s.len() - pos,
    via repeat_from_decreases
{
    match find(s, repeat_open(), pos) {
        None => Ok(s.subrange(pos, s.len() as int)),
        Some(i) => match find(s, repeat_times(), i + 10) {
            None => Ok(s.subrange(pos, s.len() as int)),
            Some(j) => match find(s, repeat_close(), j + 9) {
                None => Ok(s.subrange(pos, s.len() as int)),
                Some(k) => {
                    let count = trim(s.subrange(i + 10, j));
                    if !valid_count(count) {
                        Err(Fault::InvalidRepeatCount(count))
                    } else {
                        prepend(
                            s.subrange(pos, i) + repeat_seq(
                                trim(s.subrange(j + 9, k)),
                                count_value(count),
                            ),
                            repeat_from(s, k + 15),
                        )
                    }
                },
            },
        },
    }
}

#[via_fn]
proof fn repeat_from_decreases(s: Seq<char>, pos: int) {
    if pos >= 0 {
        lemma_find(s, repeat_open(), pos);
        if let Some(i) = find(s, repeat_open(), pos) {
            lemma_find(s, repeat_times(), i + 10);
            if let Some(j) = find(s, repeat_times(), i + 10) {
                lemma_find(s, repeat_close(), j + 9);
            }
        }
    }
}

/// The repetition pass over the whole of `s`.
pub open spec fn repeat_pass(s: Seq<char>) -> Result<Seq<char>, Fault> {
    repeat_from(s, 0)
}

/// Replaces each `{% repeat N times %}body{% endrepeat %}` of `s` by the
/// trimmed body written N times; fails on the first count that is not one.
pub fn expand_repeats(s: &Vec<char>) -> (r: Result<Vec<char>, RenderError>)
    ensures
        outcome_chars(r) == repeat_pass(s@),
{
    let open = chars_of("{% repeat ");
    let times = chars_of(" times %}");
    let close = chars_of("{% endrepeat %}");
    proof {
        reveal_strlit("{% repeat ");
        reveal_strlit(" times %}");
        reveal_strlit("{% endrepeat %}");
        assert(open@ =~= repeat_open());
        assert(times@ =~= repeat_times());
        assert(close@ =~= repeat_close());
    }
    let n = s.len();
    let mut out: Vec<char> = Vec::new();
    let mut pos: usize = 0;
    loop
        invariant
            n == s@.len(),
            pos <= s@.len(),
            open@ == repeat_open(),
            times@ == repeat_times(),
            close@ == repeat_close(),
            repeat_pass(s@) == prepend(out@, repeat_from(s@, pos as int)),
        decreases s@.len() - pos,
    {
        proof {
            lemma_find(s@, repeat_open(), pos as int);
        }
        let i = match find_exec(s, open.as_slice(), pos) {
            Some(i) => i,
            None => {
                push_range(&mut out, s, pos, n);
                return Ok(out);
            },
        };
        proof {
            lemma_find(s@, repeat_times(), i + 10);
        }
        let j = match find_exec(s, times.as_slice(), i + 10) {
            Some(j) => j,
            None => {
                push_range(&mut out, s, pos, n);
                return Ok(out);
            },
        };
        proof {
            lemma_find(s@, repeat_close(), j + 9);
        }
        let k = match find_exec(s, close.as_slice(), j + 9) {
            Some(k) => k,
            None => {
                push_range(&mut out, s, pos, n);
                return Ok(out);
            },
        };
        let (clo, chi) = trim_bounds(s, i + 10, j);
        let (blo, bhi) = trim_bounds(s, j + 9, k);
        let ghost body = trim(s@.subrange(j + 9, k as int));
        let times_n = match parse_count(s, clo, chi) {
            Some(t) => t,
            None => {
                let c = string_of(&slice_chars(s, clo, chi));
                return Err(RenderError::InvalidRepeatCount(c));
            },
        };
        let ghost before = out@;
        push_range(&mut out, s, pos, i);
        let ghost head = out@;
        let mut r: usize = 0;
        while r < times_n
            invariant
                r <= times_n,
                j + 9 <= blo <= bhi <= k <= s@.len(),
                body == s@.subrange(blo as int, bhi as int),
                out@ == head + repeat_seq(body, r as nat),
            decreases times_n - r,
        {
            push_range(&mut out, s, blo, bhi);
            r = r + 1;
            assert(out@ =~= head + repeat_seq(body, r as nat));
        }
        proof {
            let piece = s@.subrange(pos as int, i as int) + repeat_seq(body, times_n as nat);
            lemma_prepend_twice(before, piece, repeat_from(s@, k + 15));
            assert(out@ =~= before + piece);
        }
        pos = k + 15;
    }
}

/// `{% if `
pub open spec fn if_open() -> Seq<char> {
    seq!['{', '%', ' ', 'i', 'f', ' ']
}

/// ` %}`
pub open spec fn tag_close() -> Seq<char> {
    seq![' ', '%', '}']
}

/// `{% else %}`
pub open spec fn else_tag() -> Seq<char> {
    seq!['{', '%', ' ', 'e', 'l', 's', 'e', ' ', '%', '}']
}

/// `{% endif %}`
pub open spec fn endif_tag() -> Seq<char> {
    seq!['{', '%', ' ', 'e', 'n', 'd', 'i', 'f', ' ', '%', '}']
}

/// Where the first `{% else %}` of `s[from..k]` stands, if there is one.
pub open spec fn else_at(s: Seq<char>, from: int, k: int) -> Option<int> {
    match find(s, else_tag(), from) {
        Some(e) => if e + 10 <= k {
            Some(e)
        } else {
            None
        },
        None => None,
    }
}

/// The branch taken when the condition holds: what comes before the first
/// `{% else %}` of `s[from..k]`, or all of it.
pub open spec fn then_branch(s: Seq<char>, from: int, k: int) -> Seq<char> {
    match else_at(s, from, k) {
        Some(e) => s.subrange(from, e),
        None => s.subrange(from, k),
    }
}

/// The branch taken when the condition fails: what follows the first
/// `{% else %}` of `s[from..k]`, or nothing.
pub open spec fn else_branch(s: Seq<char>, from: int, k: int) -> Seq<char> {
    match else_at(s, from, k) {
        Some(e) => s.subrange(e + 10, k),
        None => Seq::empty(),
    }
}

/// The conditional pass over `s` from position `pos` on: each
/// `{% if key %}then{% else %}other{% endif %}` becomes the trimmed branch
/// that the Boolean bound to the trimmed key selects.
pub open spec fn cond_from(s: Seq<char>, b: Map<Seq<char>, Data>, pos: int) -> Result<
    Seq<char>,
    Fault,
>
    decreases s.len() - pos,
    via cond_from_decreases
{
    match find(s, if_open(), pos) {
        None => Ok(s.subrange(pos, s.len() as int)),
        Some(i) => match find(s, tag_close(), i + 6) {
            None => Ok(s.subrange(pos, s.len() as int)),
            Some(j) => match find(s, endif_tag(), j + 3) {
                None => Ok(s.subrange(pos, s.len() as int)),
                Some(k) => {
                    let key = trim(s.subrange(i + 6, j));
                    if !b.contains_key(key) {
                        Err(Fault::UnknownKey(key))
                    } else {
                        match b[key] {
                            Data::Boolean(c) => {
                                let chosen = if c {
                                    trim(then_branch(s, j + 3, k))
                                } else {
                                    trim(else_branch(s, j + 3, k))
                                };
                                prepend(s.subrange(pos, i) + chosen, cond_from(s, b, k + 11))
                            },
                            _ => Err(Fault::TypeMismatch(key)),
                        }
                    }
                },
            },
        },
    }
}

#[via_fn]
proof fn cond_from_decreases(s: Seq<char>, b: Map<Seq<char>, Data>, pos: int) {
    if pos >= 0 {
        lemma_find(s, if_open(), pos);
        if let Some(i) = find(s, if_open(), pos) {
            lemma_find(s, tag_close(), i + 6);
            if let Some(j) = find(s, tag_close(), i + 6) {
                lemma_find(s, endif_tag(), j + 3);
            }
        }
    }
}

/// The conditional pass over the whole of `s`.
pub open spec fn cond_pass(s: Seq<char>, b: Map<Seq<char>, Data>) -> Result<Seq<char>, Fault> {
    cond_from(s, b, 0)
}

/// Replaces each `{% if key %}then{% else %}other{% endif %}` of `s` by the
/// trimmed branch that the Boolean bound to `key` selects; fails on the first
/// key that is not bound, or not bound to a Boolean.
pub fn resolve_conditionals(s: &Vec<char>, b: &Bindings) -> (r: Result<Vec<char>, RenderError>)
    ensures
        outcome_chars(r) == cond_pass(s@, b@),
{
    let open = chars_of("{% if ");
    let close = chars_of(" %}");
    let else_pat = chars_of("{% else %}");
    let endif = chars_of("{% endif %}");
    proof {
        reveal_strlit("{% if ");
        reveal_strlit(" %}");
        reveal_strlit("{% else %}");
        reveal_strlit("{% endif %}");
        assert(open@ =~= if_open());
        assert(close@ =~= tag_close());
        assert(else_pat@ =~= else_tag());
        assert(endif@ =~= endif_tag());
    }
    let n = s.len();
    let mut out: Vec<char> = Vec::new();
    let mut pos: usize = 0;
    loop
        invariant
            n == s@.len(),
            pos <= s@.len(),
            open@ == if_open(),
            close@ == tag_close(),
            else_pat@ == else_tag(),
            endif@ == endif_tag(),
            cond_pass(s@, b@) == prepend(out@, cond_from(s@, b@, pos as int)),
        decreases s@.len() - pos,
    {
        proof {
            lemma_find(s@, if_open(), pos as int);
        }
        let i = match find_exec(s, open.as_slice(), pos) {
            Some(i) => i,
            None => {
                push_range(&mut out, s, pos, n);
                return Ok(out);
            },
        };
        proof {
            lemma_find(s@, tag_close(), i + 6);
        }
        let j = match find_exec(s, close.as_slice(), i + 6) {
            Some(j) => j,
            None => {
                push_range(&mut out, s, pos, n);
                return Ok(out);
            },
        };
        proof {
            lemma_find(s@, endif_tag(), j + 3);
        }
        let k = match find_exec(s, endif.as_slice(), j + 3) {
            Some(k) => k,
            None => {
                push_range(&mut out, s, pos, n);
                return Ok(out);
            },
        };
        proof {
            lemma_find(s@, else_tag(), j + 3);
        }
        let (then_end, else_start) = match find_exec(s, else_pat.as_slice(), j + 3) {
            Some(e) => if e + 10 <= k {
                (e, e + 10)
            } else {
                (k, k)
            },
            None => (k, k),
        };
        assert(s@.subrange(j + 3, then_end as int) == then_branch(s@, j + 3, k as int));
        assert(s@.subrange(else_start as int, k as int) =~= else_branch(s@, j + 3, k as int));
        let (klo, khi) = trim_bounds(s, i + 6, j);
        let ghost key = trim(s@.subrange(i + 6, j as int));
        let c = match b.get_range(s, klo, khi) {
            None => {
                let name = string_of(&slice_chars(s, klo, khi));
                return Err(RenderError::UnknownKey(name));
            },
            Some(Data::Boolean(c)) => *c,
            Some(_) => {
                let name = string_of(&slice_chars(s, klo, khi));
                return Err(RenderError::TypeMismatch(name));
            },
        };
        let (lo, hi) = if c {
            trim_bounds(s, j + 3, then_end)
        } else {
            trim_bounds(s, else_start, k)
        };
        let ghost before = out@;
        push_range(&mut out, s, pos, i);
        push_range(&mut out, s, lo, hi);
        proof {
            let piece = s@.subrange(pos as int, i as int) + s@.subrange(lo as int, hi as int);
            lemma_prepend_twice(before, piece, cond_from(s@, b@, k + 11));
            assert(out@ =~= before + piece);
        }
        pos = k + 11;
    }
}

/// What rendering `t` against `b` gives: the substitution pass, then the
/// repetition pass, then the conditional pass; the first failure ends it.
pub open spec fn render_spec(t: Seq<char>, b: Map<Seq<char>, Data>) -> Result<Seq<char>, Fault> {
    match subst(t, b) {
        Err(e) => Err(e),
        Ok(p) => match repeat_pass(p) {
            Err(e) => Err(e),
            Ok(q) => cond_pass(q, b),
        },
    }
}

/// Renders `template` against `data`.
///
/// The first directive that cannot be resolved ends the render with an error:
/// an unbound key, a conditional on a key that is not a Boolean, or a repeat
/// count that is not a number. No partial output is returned, and no error
/// text is ever written into the output.
pub fn render(template: String, data: &Bindings) -> (r: Result<String, RenderError>)
    ensures
        r matches Ok(out) ==> render_spec(template@, data@) == Ok::<Seq<char>, Fault>(out@),
        r matches Err(e) ==> render_spec(template@, data@) == Err::<Seq<char>, Fault>(e@),
{
    let t = chars_of(template.as_str());
    let p = match substitute(&t, data) {
        Ok(p) => p,
        Err(e) => return Err(e),
    };
    let q = match expand_repeats(&p) {
        Ok(q) => q,
        Err(e) => return Err(e),
    };
    match resolve_conditionals(&q, data) {
        Ok(v) => Ok(string_of(&v)),
        Err(e) => Err(e),
    }
}

/// The characters `s[from..to]`.
fn slice_chars(s: &Vec<char>, from: usize, to: usize) -> (r: Vec<char>)
    requires
        from <= to <= s@.len(),
    ensures
        r@ == s@.subrange(from as int, to as int),
{
    let mut out: Vec<char> = Vec::new();
    push_range(&mut out, s, from, to);
    assert(out@ =~= s@.subrange(from as int, to as int));
    out
}

} // verus!
