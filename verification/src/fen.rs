use vstd::prelude::*;

verus! {

/// The fields of `s` between occurrences of `sep`, empty fields included
/// (as `str::split` gives them).
pub open spec fn fields(s: Seq<char>, sep: char) -> Seq<Seq<char>>
    decreases s.len(),
{
    if s.len() == 0 {
        seq![Seq::<char>::empty()]
    } else {
        let f = fields(s.drop_last(), sep);
        if s.last() == sep {
            f.push(Seq::<char>::empty())
        } else {
            f.update(f.len() - 1, f.last().push(s.last()))
        }
    }
}

pub proof fn lemma_fields_len(s: Seq<char>, sep: char)
    ensures
        fields(s, sep).len() >= 1,
    decreases s.len(),
{
    if s.len() > 0 {
        lemma_fields_len(s.drop_last(), sep);
    }
}

/// Splits the characters at every `sep`.
pub fn split_fields(chars: &Vec<char>, sep: char) -> (r: Vec<Vec<char>>)
    ensures
        r@.len() == fields(chars@, sep).len(),
        forall|i: int| 0 <= i < r@.len() ==> (#[trigger] r@[i])@ == fields(chars@, sep)[i],
{
    let mut result: Vec<Vec<char>> = Vec::new();
    let mut current: Vec<char> = Vec::new();
    let mut i: usize = 0;
    while i < chars.len()
        invariant
            i <= chars@.len(),
            result@.len() + 1 == fields(chars@.take(i as int), sep).len(),
            forall|k: int| 0 <= k < result@.len() ==> (#[trigger] result@[k])@ == fields(chars@.take(i as int), sep)[k],
            current@ == fields(chars@.take(i as int), sep).last(),
        decreases chars@.len() - i,
    {
        proof {
            lemma_fields_len(chars@.take(i as int), sep);
            assert(chars@.take(i as int + 1).drop_last() =~= chars@.take(i as int));
        }
        let c = chars[i];
        if c == sep {
            result.push(current);
            current = Vec::new();
        } else {
            current.push(c);
        }
        i = i + 1;
    }
    result.push(current);
    proof {
        assert(chars@.take(chars@.len() as int) =~= chars@);
    }
    result
}

pub open spec fn is_digit(c: char) -> bool {
    '0' <= c && c <= '9'
}

/// The value of a string of decimal digits.
pub open spec fn decimal_value(s: Seq<char>) -> nat
    decreases s.len(),
{
    if s.len() == 0 {
        0
    } else {
        decimal_value(s.drop_last()) * 10 + (s.last() as nat - '0' as nat) as nat
    }
}

/// The digits of a number, once a leading `+` is dropped.
pub open spec fn unsigned_digits(s: Seq<char>) -> Seq<char> {
    if s.len() > 0 && s[0] == '+' {
        s.drop_first()
    } else {
        s
    }
}

/// The characters read as an unsigned integer: decimal digits, possibly
/// after a `+`.
pub open spec fn is_unsigned_number(s: Seq<char>) -> bool {
    let d = unsigned_digits(s);
    d.len() > 0 && forall|i: int| 0 <= i < d.len() ==> is_digit(#[trigger] d[i])
}

pub open spec fn number_value(s: Seq<char>) -> nat {
    decimal_value(unsigned_digits(s))
}

proof fn lemma_decimal_prefix(s: Seq<char>, i: int)
    requires
        0 <= i <= s.len(),
        forall|k: int| 0 <= k < s.len() ==> is_digit(#[trigger] s[k]),
    ensures
        decimal_value(s.take(i)) <= decimal_value(s),
    decreases s.len() - i,
{
    if i < s.len() {
        lemma_decimal_prefix(s, i + 1);
        assert(s.take(i + 1).drop_last() =~= s.take(i));
    } else {
        assert(s.take(i) =~= s);
    }
}

/// The value of a number written in decimal digits, possibly after a `+`.
pub fn parse_number(s: &Vec<char>) -> (r: usize)
    requires
        is_unsigned_number(s@),
        number_value(s@) <= usize::MAX,
    ensures
        r == number_value(s@),
{
    let off: usize = if s.len() > 0 && s[0] == '+' {
        1
    } else {
        0
    };
    let ghost d = unsigned_digits(s@);
    proof {
        assert(d =~= s@.skip(off as int));
    }
    let mut i: usize = off;
    let mut value: usize = 0;
    while i < s.len()
        invariant
            off <= 1,
            off <= i <= s@.len(),
            d == s@.skip(off as int),
            forall|k: int| 0 <= k < d.len() ==> is_digit(#[trigger] d[k]),
            decimal_value(d) <= usize::MAX,
            value == decimal_value(d.take(i - off)),
        decreases s@.len() - i,
    {
        let ghost j = i - off;
        proof {
            lemma_decimal_prefix(d, j + 1);
            assert(d.take(j + 1).drop_last() =~= d.take(j));
            assert(d[j] == s@[i as int]);
            assert(is_digit(d[j]));
        }
        let digit = (s[i] as u32 - '0' as u32) as usize;
        value = value * 10 + digit;
        i = i + 1;
    }
    proof {
        assert(d.take(d.len() as int) =~= d);
    }
    value
}

/// The decimal digit character of `d`.
pub open spec fn digit_char(d: nat) -> char {
    ('0' as nat + d) as char
}

/// The decimal representation of `n`, without leading zeros.
pub open spec fn decimal_chars(n: nat) -> Seq<char>
    decreases n,
{
    if n < 10 {
        seq![digit_char(n)]
    } else {
        decimal_chars(n / 10).push(digit_char(n % 10))
    }
}

/// The decimal representation of `n` is a non-empty run of digits that
/// reads back as `n`.
pub proof fn lemma_decimal_chars(n: nat)
    ensures
        decimal_chars(n).len() > 0,
        forall|i: int| 0 <= i < decimal_chars(n).len() ==> is_digit(#[trigger] decimal_chars(n)[i]),
        decimal_value(decimal_chars(n)) == n,
    decreases n,
{
    let s = decimal_chars(n);
    if n < 10 {
        assert(s.drop_last() =~= Seq::<char>::empty());
        assert(s.last() as nat == '0' as nat + n);
        assert(decimal_value(s) == decimal_value(s.drop_last()) * 10 + (s.last() as nat - '0' as nat) as nat);
    } else {
        lemma_decimal_chars(n / 10);
        assert(s.drop_last() =~= decimal_chars(n / 10));
        assert(s.last() as nat == '0' as nat + n % 10);
        assert(decimal_value(s) == decimal_value(s.drop_last()) * 10 + (s.last() as nat - '0' as nat) as nat);
        assert((n / 10) * 10 + n % 10 == n) by (nonlinear_arith);
    }
}

/// Appends the decimal representation of `n`.
pub fn push_decimal(out: &mut Vec<char>, n: usize)
    ensures
        final(out)@ == old(out)@ + decimal_chars(n as nat),
    decreases n,
{
    if n >= 10 {
        push_decimal(out, n / 10);
    }
    let d = n % 10;
    let c = match d {
        0 => '0',
        1 => '1',
        2 => '2',
        3 => '3',
        4 => '4',
        5 => '5',
        6 => '6',
        7 => '7',
        8 => '8',
        _ => '9',
    };
    proof {
        assert(c == digit_char((n % 10) as nat));
    }
    let ghost mid = out@;
    out.push(c);
    proof {
        if n >= 10 {
            assert(out@ =~= old(out)@ + decimal_chars(n as nat));
        } else {
            assert(out@ =~= old(out)@ + decimal_chars(n as nat));
        }
    }
}


/// A string without separators is a single field.
pub proof fn lemma_fields_single(b: Seq<char>, sep: char)
    requires
        !b.contains(sep),
    ensures
        fields(b, sep) == seq![b],
    decreases b.len(),
{
    if b.len() > 0 {
        assert(!b.drop_last().contains(sep)) by {
            if b.drop_last().contains(sep) {
                let i = choose|i: int| 0 <= i < b.drop_last().len() && b.drop_last()[i] == sep;
                assert(b[i] == sep);
            }
        }
        lemma_fields_single(b.drop_last(), sep);
        assert(b[b.len() - 1] != sep);
        assert(b.drop_last().push(b.last()) =~= b);
        let f = fields(b.drop_last(), sep);
        assert(fields(b, sep) == f.update(f.len() - 1, f.last().push(b.last())));
        assert(fields(b, sep) =~= seq![b]);
    } else {
        assert(b =~= Seq::<char>::empty());
    }
}

/// Appending a separator and a string without separators adds that string
/// as a last field.
pub proof fn lemma_fields_append(a: Seq<char>, b: Seq<char>, sep: char)
    requires
        !b.contains(sep),
    ensures
        fields(a.push(sep) + b, sep) == fields(a, sep).push(b),
    decreases b.len(),
{
    if b.len() == 0 {
        assert(a.push(sep) + b =~= a.push(sep));
        assert(a.push(sep).drop_last() =~= a);
        assert(a.push(sep).last() == sep);
        assert(b =~= Seq::<char>::empty());
    } else {
        assert(!b.drop_last().contains(sep)) by {
            if b.drop_last().contains(sep) {
                let i = choose|i: int| 0 <= i < b.drop_last().len() && b.drop_last()[i] == sep;
                assert(b[i] == sep);
            }
        }
        lemma_fields_append(a, b.drop_last(), sep);
        assert((a.push(sep) + b).drop_last() =~= a.push(sep) + b.drop_last());
        assert(b[b.len() - 1] != sep);
        assert(b.drop_last().push(b.last()) =~= b);
        let s = a.push(sep) + b;
        assert(s.last() == b.last());
        let f = fields(s.drop_last(), sep);
        assert(f == fields(a, sep).push(b.drop_last()));
        assert(fields(s, sep) == f.update(f.len() - 1, f.last().push(s.last())));
        assert(fields(a.push(sep) + b, sep) =~= fields(a, sep).push(b));
    }
}

/// Three strings without separators, joined by separators, are three
/// fields.
pub proof fn lemma_fields_three(a: Seq<char>, b: Seq<char>, c: Seq<char>, sep: char)
    requires
        !a.contains(sep),
        !b.contains(sep),
        !c.contains(sep),
    ensures
        fields(a.push(sep) + b + seq![sep] + c, sep) == seq![a, b, c],
{
    lemma_fields_single(a, sep);
    lemma_fields_append(a, b, sep);
    assert(a.push(sep) + b + seq![sep] + c =~= (a.push(sep) + b).push(sep) + c);
    lemma_fields_append(a.push(sep) + b, c, sep);
    assert(seq![a].push(b).push(c) =~= seq![a, b, c]);
}

} // verus!
