//! Normalization of MAC-like strings.
//!
//! A raw MAC string may carry separators (`:`, `-`), whitespace and mixed
//! case. Its normalized form keeps exactly the ASCII hex digits, in their
//! original order, lowercased.

use vstd::prelude::*;

verus! {

/// True of the sixteen ASCII hex digit characters, either case.
pub open spec fn is_hex_digit(c: char) -> bool {
    ('0' <= c && c <= '9') || ('a' <= c && c <= 'f') || ('A' <= c && c <= 'F')
}

/// True of the characters a normalized MAC string may contain.
pub open spec fn is_lower_hex_digit(c: char) -> bool {
    ('0' <= c && c <= '9') || ('a' <= c && c <= 'f')
}

/// Maps an uppercase hex digit to its lowercase form and leaves every
/// other character unchanged.
pub open spec fn to_lower_hex(c: char) -> char {
    if c == 'A' {
        'a'
    } else if c == 'B' {
        'b'
    } else if c == 'C' {
        'c'
    } else if c == 'D' {
        'd'
    } else if c == 'E' {
        'e'
    } else if c == 'F' {
        'f'
    } else {
        c
    }
}

/// The normalized form of a MAC-like string: its ASCII hex digits, in
/// order, lowercased; every other character is dropped.
pub open spec fn normalize_spec(s: Seq<char>) -> Seq<char>
    decreases s.len(),
{
    if s.len() == 0 {
        Seq::empty()
    } else {
        let rest = normalize_spec(s.drop_last());
        if is_hex_digit(s.last()) {
            rest.push(to_lower_hex(s.last()))
        } else {
            rest
        }
    }
}

/// Normalizing a sequence that has just grown by one character extends the
/// previous normalization in the expected way.
proof fn lemma_normalize_push(s: Seq<char>, c: char)
    ensures
        normalize_spec(s.push(c)) == if is_hex_digit(c) {
            normalize_spec(s).push(to_lower_hex(c))
        } else {
            normalize_spec(s)
        },
{
    assert(s.push(c).drop_last() =~= s);
    assert(s.push(c).last() == c);
}

/// Every character of a normalized string is a lowercase hex digit.
pub proof fn lemma_normalize_hex_only(s: Seq<char>)
    ensures
        forall|i: int|
            0 <= i < normalize_spec(s).len() ==> is_lower_hex_digit(#[trigger] normalize_spec(s)[i]),
    decreases s.len(),
{
    if s.len() > 0 {
        lemma_normalize_hex_only(s.drop_last());
        if is_hex_digit(s.last()) {
            let rest = normalize_spec(s.drop_last());
            let out = normalize_spec(s);
            assert forall|i: int| 0 <= i < out.len() implies is_lower_hex_digit(out[i]) by {
                if i < rest.len() {
                    assert(out[i] == rest[i]);
                } else {
                    assert(out[i] == to_lower_hex(s.last()));
                }
            }
        }
    }
}

/// Normalization is idempotent: a string already in normalized form is
/// left exactly as it is.
pub proof fn lemma_normalize_idempotent(s: Seq<char>)
    ensures
        normalize_spec(normalize_spec(s)) == normalize_spec(s),
    decreases s.len(),
{
    if s.len() > 0 {
        lemma_normalize_idempotent(s.drop_last());
        if is_hex_digit(s.last()) {
            let c = to_lower_hex(s.last());
            lemma_normalize_push(normalize_spec(s.drop_last()), c);
        }
    }
}

/// The normalized string is exactly the subsequence of hex digits of the
/// input, in their original relative order, lowercased: nothing is added
/// and nothing else is kept.
pub proof fn lemma_normalize_is_filtered_lowering(s: Seq<char>)
    ensures
        normalize_spec(s) == s.filter(|c: char| is_hex_digit(c)).map_values(
            |c: char| to_lower_hex(c),
        ),
    decreases s.len(),
{
    reveal(Seq::filter);
    if s.len() == 0 {
        assert(normalize_spec(s) =~= s.filter(|c: char| is_hex_digit(c)).map_values(
            |c: char| to_lower_hex(c),
        ));
    } else {
        lemma_normalize_is_filtered_lowering(s.drop_last());
        let fsub = s.drop_last().filter(|c: char| is_hex_digit(c));
        if is_hex_digit(s.last()) {
            assert(s.filter(|c: char| is_hex_digit(c)) == fsub.push(s.last()));
            assert(fsub.push(s.last()).map_values(|c: char| to_lower_hex(c)) =~= fsub.map_values(
                |c: char| to_lower_hex(c),
            ).push(to_lower_hex(s.last())));
        } else {
            assert(s.filter(|c: char| is_hex_digit(c)) == fsub);
        }
    }
}

/// Relies on `String::push`: appends the given character to the end of the string.
pub assume_specification[ String::push ](s: &mut String, c: char)
    ensures
        final(s)@ == old(s)@.push(c),
;

fn is_hex_digit_exec(c: char) -> (b: bool)
    ensures
        b == is_hex_digit(c),
{
    ('0' <= c && c <= '9') || ('a' <= c && c <= 'f') || ('A' <= c && c <= 'F')
}

fn to_lower_hex_exec(c: char) -> (r: char)
    ensures
        r == to_lower_hex(c),
{
    match c {
        'A' => 'a',
        'B' => 'b',
        'C' => 'c',
        'D' => 'd',
        'E' => 'e',
        'F' => 'f',
        _ => c,
    }
}

/// Strips every character that is not an ASCII hex digit and lowercases
/// the digits that remain.
pub fn normalize_mac_str(s: &String) -> (r: String)
    ensures
        r@ == normalize_spec(s@),
{
    let st: &str = s.as_str();
    let n: usize = st.unicode_len();
    let mut out = String::new();
    let mut i: usize = 0;
    while i < n
        invariant
            st@ == s@,
            n == s@.len(),
            i <= n,
            out@ == normalize_spec(s@.subrange(0, i as int)),
        decreases n - i,
    {
        let c = st.get_char(i);
        proof {
            assert(s@.subrange(0, i + 1).drop_last() =~= s@.subrange(0, i as int));
            assert(s@.subrange(0, i + 1).last() == s@[i as int]);
        }
        if is_hex_digit_exec(c) {
            out.push(to_lower_hex_exec(c));
        }
        i = i + 1;
    }
    proof {
        assert(s@.subrange(0, n as int) =~= s@);
    }
    out
}

} // verus!
