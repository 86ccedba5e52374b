//! Values that a template can refer to, and their canonical text.
use vstd::prelude::*;

verus! {

/// One bound datum.
#[derive(Debug)]
pub enum Data {
    Number(i32),
    Boolean(bool),
    Text(String),
}

/// The decimal digit for `d`, which is below ten.
pub open spec fn digit_char(d: nat) -> char {
    ((d + 48) as u8) as char
}

/// The decimal digits of `n`, most significant first, without leading zeros.
pub open spec fn digits(n: nat) -> Seq<char>
    decreases n,
{
    if n < 10 {
        seq![digit_char(n)]
    } else {
        digits(n / 10).push(digit_char(n % 10))
    }
}

/// The decimal form of `n`, with a leading `-` when it is negative.
pub open spec fn decimal(n: int) -> Seq<char> {
    if n < 0 {
        seq!['-'] + digits((-n) as nat)
    } else {
        digits(n as nat)
    }
}

/// The canonical text of a value: decimal digits, `true` / `false`, or the
/// string itself.
pub open spec fn text_of(v: Data) -> Seq<char> {
    match v {
        Data::Number(n) => decimal(n as int),
        Data::Boolean(b) => if b {
            seq!['t', 'r', 'u', 'e']
        } else {
            seq!['f', 'a', 'l', 's', 'e']
        },
        Data::Text(s) => s@,
    }
}

/// Appends the characters of `s` to `out`.
pub fn push_str_chars(out: &mut Vec<char>, s: &str)
    ensures
        final(out)@ == old(out)@ + s@,
{
    let n = s.unicode_len();
    let mut i: usize = 0;
    while i < n
        invariant
            n == s@.len(),
            i <= n,
            out@ == old(out)@ + s@.subrange(0, i as int),
        decreases n - i,
    {
        let c = s.get_char(i);
        out.push(c);
        i = i + 1;
        assert(s@.subrange(0, i as int) =~= s@.subrange(0, i - 1 as int).push(c));
    }
    assert(s@.subrange(0, n as int) =~= s@);
}

/// Appends the decimal digits of `n` to `out`.
fn push_digits(out: &mut Vec<char>, n: u32)
    ensures
        final(out)@ == old(out)@ + digits(n as nat),
    decreases n,
{
    if n >= 10 {
        push_digits(out, n / 10);
    }
    let d = (n % 10) as u8;
    out.push((d + 48) as char);
    assert(out@ =~= old(out)@ + digits(n as nat));
}

impl Data {
    /// The canonical text of this value.
    pub fn to_text(&self) -> (r: String)
        ensures
            r@ == text_of(*self),
    {
        let mut out: Vec<char> = Vec::new();
        self.push_text(&mut out);
        assert(out@ =~= text_of(*self));
        crate::text::string_of(&out)
    }

    /// Appends the canonical text of this value to `out`.
    pub fn push_text(&self, out: &mut Vec<char>)
        ensures
            final(out)@ == old(out)@ + text_of(*self),
    {
        match self {
            Data::Number(n) => {
                if *n < 0 {
                    out.push('-');
                    let m: u32 = if *n == i32::MIN {
                        2147483648u32
                    } else {
                        (-*n) as u32
                    };
                    push_digits(out, m);
                } else {
                    push_digits(out, *n as u32);
                }
                assert(out@ =~= old(out)@ + text_of(*self));
            },
            Data::Boolean(b) => {
                if *b {
                    out.push('t');
                    out.push('r');
                    out.push('u');
                    out.push('e');
                } else {
                    out.push('f');
                    out.push('a');
                    out.push('l');
                    out.push('s');
                    out.push('e');
                }
                assert(out@ =~= old(out)@ + text_of(*self));
            },
            Data::Text(s) => {
                push_str_chars(out, s.as_str());
            },
        }
    }
}

} // verus!
