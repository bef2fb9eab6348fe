use vstd::prelude::*;

verus! {

/// The characters of an optional string.
pub open spec fn opt_view(o: Option<String>) -> Option<Seq<char>> {
    match o {
        Some(s) => Some(s@),
        None => None,
    }
}

/// `t` occurs in `s` as a contiguous piece.
pub open spec fn has_infix<A>(s: Seq<A>, t: Seq<A>) -> bool {
    exists|p: int| 0 <= p && p + t.len() <= s.len() && #[trigger] s.subrange(p, p + t.len()) == t
}

/// A text contains itself, and keeps every piece it contains when more is
/// written before or after it.
pub proof fn lemma_infix_grows<A>(a: Seq<A>, b: Seq<A>, t: Seq<A>)
    ensures
        has_infix(t, t),
        has_infix(a, t) ==> has_infix(a + b, t),
        has_infix(b, t) ==> has_infix(a + b, t),
{
    assert(t.subrange(0, t.len() as int) =~= t);
    if has_infix(a, t) {
        let p = choose|p: int| 0 <= p && p + t.len() <= a.len() && #[trigger] a.subrange(p, p + t.len()) == t;
        assert((a + b).subrange(p, p + t.len()) =~= a.subrange(p, p + t.len()));
        assert(has_infix(a + b, t));
    }
    if has_infix(b, t) {
        let p = choose|p: int| 0 <= p && p + t.len() <= b.len() && #[trigger] b.subrange(p, p + t.len()) == t;
        let q = a.len() + p;
        assert((a + b).subrange(q, q + t.len()) =~= b.subrange(p, p + t.len()));
        assert(has_infix(a + b, t));
    }
    assert(has_infix(t, t)) by {
        assert(t.subrange(0int, 0int + t.len()) =~= t);
    }
}

/// The character of a decimal digit.
pub open spec fn spec_digit(d: nat) -> char {
    if d == 0 { '0' }
    else if d == 1 { '1' }
    else if d == 2 { '2' }
    else if d == 3 { '3' }
    else if d == 4 { '4' }
    else if d == 5 { '5' }
    else if d == 6 { '6' }
    else if d == 7 { '7' }
    else if d == 8 { '8' }
    else { '9' }
}

/// The decimal representation of a natural number, most significant digit
/// first, without leading zeros (zero is written as a single `0`).
pub open spec fn spec_decimal(n: nat) -> Seq<char>
    decreases n,
{
    if n < 10 {
        seq![spec_digit(n)]
    } else {
        spec_decimal(n / 10).push(spec_digit(n % 10))
    }
}

fn digit_char(d: u64) -> (c: char)
    requires
        d < 10,
    ensures
        c == spec_digit(d as nat),
{
    if d == 0 { '0' }
    else if d == 1 { '1' }
    else if d == 2 { '2' }
    else if d == 3 { '3' }
    else if d == 4 { '4' }
    else if d == 5 { '5' }
    else if d == 6 { '6' }
    else if d == 7 { '7' }
    else if d == 8 { '8' }
    else { '9' }
}

/// Appends one character to a string (`String::push`).
#[verifier::external_body]
pub fn push_char(s: &mut String, c: char)
    ensures
        final(s)@ == old(s)@.push(c),
{
    s.push(c);
}

/// Appends a string slice to a string (`String::push_str`).
#[verifier::external_body]
pub fn push_str(s: &mut String, t: &str)
    ensures
        final(s)@ == old(s)@ + t@,
{
    s.push_str(t);
}

/// Appends the decimal representation of `n`.
pub fn push_decimal(s: &mut String, n: u64)
    ensures
        final(s)@ == old(s)@ + spec_decimal(n as nat),
    decreases n,
{
    if n >= 10 {
        push_decimal(s, n / 10);
    }
    push_char(s, digit_char(n % 10));
    proof {
        assert(old(s)@ + spec_decimal(n as nat) =~= old(s)@ + if n < 10 {
            seq![spec_digit(n as nat)]
        } else {
            spec_decimal((n / 10) as nat).push(spec_digit((n % 10) as nat))
        });
    }
}

/// Appends the decimal representation of a 128-bit `n`.
pub fn push_decimal_u128(s: &mut String, n: u128)
    ensures
        final(s)@ == old(s)@ + spec_decimal(n as nat),
    decreases n,
{
    if n >= 10 {
        push_decimal_u128(s, n / 10);
    }
    push_char(s, digit_char((n % 10) as u64));
    proof {
        assert(old(s)@ + spec_decimal(n as nat) =~= old(s)@ + if n < 10 {
            seq![spec_digit(n as nat)]
        } else {
            spec_decimal((n / 10) as nat).push(spec_digit((n % 10) as nat))
        });
    }
}

/// The decimal representation of `n` as a new string.
pub fn decimal_string(n: u64) -> (s: String)
    ensures
        s@ == spec_decimal(n as nat),
{
    let mut s = String::new();
    push_decimal(&mut s, n);
    proof {
        assert(Seq::<char>::empty() + spec_decimal(n as nat) =~= spec_decimal(n as nat));
    }
    s
}

} // verus!

verus! {

/// An owned copy of a string slice.
pub fn str_to_string(s: &str) -> (r: String)
    ensures
        r@ == s@,
{
    s.to_owned()
}

/// The characters of a string slice, in order.
pub fn str_chars(s: &str) -> (r: Vec<char>)
    ensures
        r@ == s@,
{
    broadcast use vstd::string::axiom_spec_iter;
    let mut out: Vec<char> = Vec::new();
    for c in iter: s.chars()
        invariant
            iter.seq() == s@,
            out@ == s@.subrange(0, iter.index() as int),
    {
        out.push(c);
        proof {
            assert(out@ =~= s@.subrange(0, iter.index() + 1));
        }
    }
    proof {
        assert(out@ =~= s@);
    }
    out
}

} // verus!
