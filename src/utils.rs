//! Identifier casing and the small text primitives the emitter builds on.
use vstd::prelude::*;

verus! {

/// What `str::to_lowercase` makes of a string.
pub uninterp spec fn lower_of(s: Seq<char>) -> Seq<char>;

/// The first character of what `char::to_uppercase` makes of a character.
pub uninterp spec fn upper_head(c: char) -> char;

/// Relies on `str::to_lowercase`: the lowercase mapping of every character,
/// which depends on the characters alone.
#[verifier::external_body]
fn lowercase(s: &str) -> (r: String)
    ensures
        r@ == lower_of(s@),
{
    s.to_lowercase()
}

/// Relies on `char::to_uppercase`, whose iterator always yields at least one
/// character; the first one is taken.
#[verifier::external_body]
fn uppercase_head(c: char) -> (r: char)
    ensures
        r == upper_head(c),
{
    c.to_uppercase().next().unwrap()
}

/// Relies on `String::push`: appends one character.
#[verifier::external_body]
fn push_char(s: &mut String, c: char)
    ensures
        final(s)@ == old(s)@.push(c),
{
    s.push(c)
}

/// Decimal digits of `n`, most significant first, without leading zeros.
pub open spec fn decimal(n: nat) -> Seq<char>
    decreases n,
{
    if n < 10 {
        seq![digit_char(n)]
    } else {
        decimal(n / 10).push(digit_char(n % 10))
    }
}

pub open spec fn digit_char(d: nat) -> char {
    if d == 0 { '0' }
    else if d == 1 { '1' }
    else if d == 2 { '2' }
    else if d == 3 { '3' }
    else if d == 4 { '4' }
    else if d == 5 { '5' }
    else if d == 6 { '6' }
    else if d == 7 { '7' }
    else if d == 8 { '8' }
    else { '9' }
}

/// The digit character for `d < 10`.
fn digit(d: u32) -> (c: char)
    requires
        d < 10,
    ensures
        c == digit_char(d as nat),
{
    if d == 0 { '0' }
    else if d == 1 { '1' }
    else if d == 2 { '2' }
    else if d == 3 { '3' }
    else if d == 4 { '4' }
    else if d == 5 { '5' }
    else if d == 6 { '6' }
    else if d == 7 { '7' }
    else if d == 8 { '8' }
    else { '9' }
}

/// `n` written in decimal.
pub(crate) fn decimal_text(n: u32) -> (r: String)
    ensures
        r@ == decimal(n as nat),
    decreases n,
{
    if n < 10 {
        let mut s = String::new();
        push_char(&mut s, digit(n));
        assert(s@ =~= seq![digit_char(n as nat)]);
        s
    } else {
        let mut s = decimal_text(n / 10);
        push_char(&mut s, digit(n % 10));
        s
    }
}

/// An identifier together with the casing convention it is written in.
pub enum CasedString<'a> {
    ScreamingSnakeCase(&'a str),
    SnakeCase(&'a str),
}

impl<'a> CasedString<'a> {
    pub open spec fn text(&self) -> Seq<char> {
        match self {
            CasedString::ScreamingSnakeCase(s) => s@,
            CasedString::SnakeCase(s) => s@,
        }
    }
}

/// Camel case of an already lowercased identifier: every underscore is
/// dropped and the character after it is upper-cased; a trailing underscore
/// vanishes.
pub open spec fn camel_of(s: Seq<char>) -> Seq<char>
    decreases s.len(),
{
    if s.len() == 0 {
        Seq::empty()
    } else if s[0] == '_' {
        if s.len() == 1 {
            Seq::empty()
        } else {
            seq![upper_head(s[1])] + camel_of(s.subrange(2, s.len() as int))
        }
    } else {
        seq![s[0]] + camel_of(s.subrange(1, s.len() as int))
    }
}

/// Joins the words of a lowercased snake-case identifier into camel case.
pub fn camel_case_lowered(lowered: &str) -> (r: String)
    ensures
        r@ == camel_of(lowered@),
{
    let n = lowered.unicode_len();
    let mut result = String::new();
    let mut i: usize = 0;
    assert(lowered@.subrange(0, n as int) =~= lowered@);
    while i < n
        invariant
            n == lowered@.len(),
            i <= n,
            result@ + camel_of(lowered@.subrange(i as int, n as int)) == camel_of(lowered@),
        decreases n - i,
    {
        let ghost rest = lowered@.subrange(i as int, n as int);
        let c = lowered.get_char(i);
        if c == '_' {
            if i + 1 < n {
                let next = lowered.get_char(i + 1);
                let u = uppercase_head(next);
                push_char(&mut result, u);
                assert(rest.subrange(2, rest.len() as int) =~= lowered@.subrange(
                    i as int + 2,
                    n as int,
                ));
                assert(result@ + camel_of(lowered@.subrange(i as int + 2, n as int)) =~= camel_of(
                    lowered@,
                ));
                i = i + 2;
            } else {
                assert(lowered@.subrange(n as int, n as int) =~= Seq::<char>::empty());
                assert(result@ + camel_of(lowered@.subrange(n as int, n as int)) =~= camel_of(
                    lowered@,
                ));
                i = n;
            }
        } else {
            push_char(&mut result, c);
            assert(rest.subrange(1, rest.len() as int) =~= lowered@.subrange(
                i as int + 1,
                n as int,
            ));
            assert(result@ + camel_of(lowered@.subrange(i as int + 1, n as int)) =~= camel_of(
                lowered@,
            ));
            i = i + 1;
        }
    }
    assert(lowered@.subrange(n as int, n as int) =~= Seq::<char>::empty());
    assert(result@ =~= result@ + camel_of(Seq::<char>::empty()));
    result
}

/// The camel-case form of a snake-case or screaming-snake-case identifier:
/// the identifier is lowercased first, then its words are joined.
pub fn camel_case(string: CasedString) -> (r: String)
    ensures
        r@ == camel_of(lower_of(string.text())),
{
    match string {
        CasedString::ScreamingSnakeCase(s) | CasedString::SnakeCase(s) => {
            let lowered = lowercase(s);
            camel_case_lowered(lowered.as_str())
        },
    }
}

} // verus!
