use vstd::prelude::*;
use vstd::std_specs::iter::IteratorSpec;

verus! {

/// The decimal digit `d` as a character.
pub open spec fn digit_char(d: nat) -> char {
    (48 + d) as char
}

/// The decimal form of `n`, without leading zeros.
pub open spec fn decimal(n: nat) -> Seq<char>
    decreases n,
{
    if n < 10 {
        seq![digit_char(n)]
    } else {
        decimal(n / 10).push(digit_char(n % 10))
    }
}

/// `items`, with `", "` between any two.
pub open spec fn comma_joined(items: Seq<Seq<char>>) -> Seq<char>
    decreases items.len(),
{
    if items.len() == 0 {
        Seq::empty()
    } else if items.len() == 1 {
        items[0]
    } else {
        comma_joined(items.drop_last()) + seq![',', ' '] + items.last()
    }
}

/// Joining one more item adds a comma and a space before it, unless it is the first.
pub proof fn lemma_comma_joined_push(items: Seq<Seq<char>>, x: Seq<char>)
    ensures
        comma_joined(items.push(x)) == comma_joined(items) + (if items.len() > 0 { seq![',', ' '] } else { Seq::empty() }) + x,
{
    assert(items.push(x).drop_last() =~= items);
    if items.len() == 0 {
        assert(comma_joined(items) =~= Seq::<char>::empty());
        assert(comma_joined(items) + Seq::<char>::empty() + x =~= x);
    }
}

/// The character of the decimal digit `d`.
fn digit(d: usize) -> (r: char)
    requires
        d < 10,
    ensures
        r == digit_char(d as nat),
{
    match d {
        0 => '0',
        1 => '1',
        2 => '2',
        3 => '3',
        4 => '4',
        5 => '5',
        6 => '6',
        7 => '7',
        8 => '8',
        _ => '9',
    }
}

/// Appends the decimal form of `n` to `out`.
pub fn push_decimal(out: &mut Vec<char>, n: usize)
    ensures
        final(out)@ == old(out)@ + decimal(n as nat),
    decreases n,
{
    if n >= 10 {
        push_decimal(out, n / 10);
    }
    out.push(digit(n % 10));
    proof {
        if n >= 10 {
            assert(decimal(n as nat) == decimal((n / 10) as nat).push(digit_char((n % 10) as nat)));
        }
    }
}

/// Appends the characters of `s` to `out`.
pub fn push_all(out: &mut Vec<char>, s: &Vec<char>)
    ensures
        final(out)@ == old(out)@ + s@,
{
    let mut i: usize = 0;
    while i < s.len()
        invariant
            i <= s@.len(),
            out@ == old(out)@ + s@.take(i as int),
        decreases s@.len() - i,
    {
        out.push(s[i]);
        i = i + 1;
        proof {
            assert(out@ =~= old(out)@ + s@.take(i as int));
        }
    }
    proof {
        assert(s@.take(i as int) =~= s@);
    }
}

/// The string of the characters `cs`, by `String::from_iter`.
#[verifier::external_body]
pub fn string_of(cs: Vec<char>) -> (r: String)
    ensures
        r@ == cs@,
{
    String::from_iter(cs)
}

/// The characters of `s`, in order.
pub fn chars_of(s: &str) -> (r: Vec<char>)
    ensures
        r@ == s@,
{
    broadcast use vstd::string::axiom_spec_iter, vstd::string::next_postcondition;
    let mut it = s.chars();
    let mut r: Vec<char> = Vec::new();
    loop
        invariant
            it.remaining() == s@.skip(r@.len() as int),
            r@ == s@.take(r@.len() as int),
            r@.len() <= s@.len(),
        decreases s@.len() - r@.len(),
    {
        match it.next() {
            Some(c) => {
                r.push(c);
                assert(r@ =~= s@.take(r@.len() as int));
                assert(it.remaining() =~= s@.skip(r@.len() as int));
            },
            None => {
                assert(r@ =~= s@);
                return r;
            },
        }
    }
}

/// The decimal forms of `xs`, with `", "` between any two.
pub open spec fn decimals(xs: Seq<usize>) -> Seq<char> {
    comma_joined(xs.map_values(|x: usize| decimal(x as nat)))
}

/// Appends the decimal forms of `xs`, with `", "` between any two, to `out`.
pub fn push_decimals(out: &mut Vec<char>, xs: &Vec<usize>)
    ensures
        final(out)@ == old(out)@ + decimals(xs@),
{
    let ghost f = |x: usize| decimal(x as nat);
    let mut i: usize = 0;
    while i < xs.len()
        invariant
            i <= xs@.len(),
            f == (|x: usize| decimal(x as nat)),
            out@ == old(out)@ + comma_joined(xs@.take(i as int).map_values(f)),
        decreases xs@.len() - i,
    {
        if i > 0 {
            out.push(',');
            out.push(' ');
        }
        push_decimal(out, xs[i]);
        proof {
            let items = xs@.take(i as int).map_values(f);
            assert(xs@.take(i + 1).map_values(f) =~= items.push(decimal(xs@[i as int] as nat)));
            lemma_comma_joined_push(items, decimal(xs@[i as int] as nat));
            if i > 0 {
                assert(out@ =~= old(out)@ + comma_joined(items.push(decimal(xs@[i as int] as nat))));
            } else {
                assert(items.len() == 0);
                assert(out@ =~= old(out)@ + comma_joined(items.push(decimal(xs@[i as int] as nat))));
            }
        }
        i = i + 1;
    }
    proof {
        assert(xs@.take(i as int) =~= xs@);
    }
}

} // verus!
