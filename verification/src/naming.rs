//! Naming of generated items.
use crate::lexer::push_char;
use vstd::prelude::*;

verus! {

/// Whether `char::is_uppercase` holds of `c`: the character has the Unicode
/// `Uppercase` property.
pub uninterp spec fn has_uppercase_property(c: char) -> bool;

/// Calls `char::is_uppercase`. Among ASCII characters exactly `A`..=`Z` have
/// the `Uppercase` property; for other characters the result is named, not stated.
#[verifier::external_body]
fn is_uppercase(c: char) -> (res: bool)
    ensures
        res == has_uppercase_property(c),
        (c as u32) < 128 ==> (res <==> ('A' <= c && c <= 'Z')),
{
    c.is_uppercase()
}

/// `c` with `A`..=`Z` mapped to `a`..=`z`; every other character unchanged.
pub open spec fn ascii_lower(c: char) -> char {
    if 'A' <= c && c <= 'Z' {
        ((c as u32) + 32) as char
    } else {
        c
    }
}

fn to_ascii_lower(c: char) -> (res: char)
    ensures
        res == ascii_lower(c),
{
    if 'A' <= c && c <= 'Z' {
        let v = (c as u32) + 32;
        proof {
            assert(0x61 <= v <= 0x7A);
        }
        v as u8 as char
    } else {
        c
    }
}

/// The snake-case spelling of the first `n` characters of `s`: each uppercase
/// character becomes an underscore (except at the start) followed by its
/// ASCII-lowercased form; every other character stays.
pub open spec fn snake_prefix(s: Seq<char>, n: int) -> Seq<char>
    decreases n,
{
    if n <= 0 {
        Seq::empty()
    } else {
        let c = s[n - 1];
        snake_prefix(s, n - 1) + if has_uppercase_property(c) {
            if n - 1 > 0 {
                seq!['_', ascii_lower(c)]
            } else {
                seq![ascii_lower(c)]
            }
        } else {
            seq![c]
        }
    }
}

/// The snake-case spelling of the first `n` characters of an ASCII `s`:
/// each of `A`..=`Z` becomes an underscore (except at the start) followed
/// by its lowercase form; every other character stays.
pub open spec fn ascii_snake_prefix(s: Seq<char>, n: int) -> Seq<char>
    decreases n,
{
    if n <= 0 {
        Seq::empty()
    } else {
        let c = s[n - 1];
        ascii_snake_prefix(s, n - 1) + if 'A' <= c && c <= 'Z' {
            if n - 1 > 0 {
                seq!['_', ascii_lower(c)]
            } else {
                seq![ascii_lower(c)]
            }
        } else {
            seq![c]
        }
    }
}

/// Every character of `s` is ASCII.
pub open spec fn all_ascii(s: Seq<char>) -> bool {
    forall|k: int| 0 <= k < s.len() ==> (#[trigger] s[k] as u32) < 128
}

/// Where the `Uppercase` property is known to be `A`..=`Z` on the first `n`
/// characters, the two spellings agree.
proof fn lemma_ascii_snake(s: Seq<char>, n: int)
    requires
        0 <= n <= s.len(),
        forall|k: int| 0 <= k < n ==> (has_uppercase_property(#[trigger] s[k]) <==> ('A' <= s[k] && s[k] <= 'Z')),
    ensures
        snake_prefix(s, n) == ascii_snake_prefix(s, n),
    decreases n,
{
    if n > 0 {
        lemma_ascii_snake(s, n - 1);
        assert(has_uppercase_property(s[n - 1]) <==> ('A' <= s[n - 1] && s[n - 1] <= 'Z'));
    }
}

/// `CamelCase` to `camel_case`. On ASCII text exactly `A`..=`Z` count as
/// uppercase, so `AlphaParser` gives `alpha_parser`.
pub fn to_snake_case(s: &str) -> (res: String)
    ensures
        res@ == snake_prefix(s@, s@.len() as int),
        all_ascii(s@) ==> res@ == ascii_snake_prefix(s@, s@.len() as int),
{
    let n = s.unicode_len();
    let mut result = String::new();
    let mut i: usize = 0;
    while i < n
        invariant
            i <= n,
            n == s@.len(),
            result@ == snake_prefix(s@, i as int),
            forall|k: int|
                0 <= k < i && (s@[k] as u32) < 128 ==> (has_uppercase_property(#[trigger] s@[k]) <==> ('A' <= s@[k]
                    && s@[k] <= 'Z')),
        decreases n - i,
    {
        let ch = s.get_char(i);
        let ghost before = result@;
        if is_uppercase(ch) {
            if i > 0 {
                push_char(&mut result, '_');
            }
            push_char(&mut result, to_ascii_lower(ch));
        } else {
            push_char(&mut result, ch);
        }
        proof {
            assert(result@ =~= snake_prefix(s@, i + 1));
        }
        i = i + 1;
    }
    proof {
        if all_ascii(s@) {
            lemma_ascii_snake(s@, s@.len() as int);
        }
    }
    result
}

} // verus!
