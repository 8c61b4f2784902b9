use vstd::prelude::*;

use crate::tree::strings_view;

verus! {

/// The pieces of `s` one after the other.
pub open spec fn concat_all(s: Seq<Seq<char>>) -> Seq<char>
    decreases s.len(),
{
    if s.len() == 0 {
        Seq::empty()
    } else {
        concat_all(s.drop_last()) + s.last()
    }
}

/// The pieces of `s` with `sep` between each two of them.
pub open spec fn join(s: Seq<Seq<char>>, sep: Seq<char>) -> Seq<char>
    decreases s.len(),
{
    if s.len() == 0 {
        Seq::empty()
    } else if s.len() == 1 {
        s[0]
    } else {
        join(s.drop_last(), sep) + sep + s.last()
    }
}

pub proof fn lemma_concat_step(s: Seq<Seq<char>>, i: int)
    requires
        0 <= i < s.len(),
    ensures
        concat_all(s.take(i + 1)) == concat_all(s.take(i)) + s[i],
{
    assert(s.take(i + 1).drop_last() =~= s.take(i));
}

pub proof fn lemma_join_step(s: Seq<Seq<char>>, sep: Seq<char>, i: int)
    requires
        0 <= i < s.len(),
    ensures
        join(s.take(i + 1), sep) == if i == 0 {
            s[0]
        } else {
            join(s.take(i), sep) + sep + s[i]
        },
{
    assert(s.take(i + 1).drop_last() =~= s.take(i));
}

/// The `i`-th gap, or nothing where there is none.
pub open spec fn gap_at(gaps: Seq<Seq<char>>, i: int) -> Seq<char> {
    if 0 <= i < gaps.len() {
        gaps[i]
    } else {
        Seq::empty()
    }
}

/// The first `n` gaps, each followed by the fill of the same position.
pub open spec fn weave_prefix(gaps: Seq<Seq<char>>, fills: Seq<Seq<char>>, n: int) -> Seq<char>
    decreases n,
{
    if n <= 0 {
        Seq::empty()
    } else {
        weave_prefix(gaps, fills, n - 1) + gap_at(gaps, n - 1) + fills[n - 1]
    }
}

/// The gaps of a text with a fill after each of the first ones, one fill for each, and the
/// remaining gaps after them: a text rebuilt with new contents at its placeholders.
pub open spec fn weave(gaps: Seq<Seq<char>>, fills: Seq<Seq<char>>) -> Seq<char> {
    weave_prefix(gaps, fills, fills.len() as int) + if fills.len() < gaps.len() {
        concat_all(gaps.subrange(fills.len() as int, gaps.len() as int))
    } else {
        Seq::empty()
    }
}

/// The pieces `parts` with `sep` between each two of them.
pub fn join_strings(parts: &Vec<String>, sep: &str) -> (r: String)
    ensures
        r@ == join(strings_view(parts@), sep@),
{
    let ghost s = strings_view(parts@);
    let mut out = String::new();
    let mut i: usize = 0;
    while i < parts.len()
        invariant
            i <= parts.len(),
            s == strings_view(parts@),
            out@ == join(s.take(i as int), sep@),
        decreases parts.len() - i,
    {
        proof {
            lemma_join_step(s, sep@, i as int);
        }
        if i > 0 {
            out.append(sep);
        }
        out.append(parts[i].as_str());
        i += 1;
    }
    assert(s.take(parts.len() as int) =~= s);
    out
}

/// Rebuilds a text from the gaps between its placeholders, with `fills[i]` in place of the
/// `i`-th placeholder.
pub fn weave_template(gaps: &Vec<String>, fills: &Vec<String>) -> (r: String)
    ensures
        r@ == weave(strings_view(gaps@), strings_view(fills@)),
{
    let ghost g = strings_view(gaps@);
    let ghost f = strings_view(fills@);
    let mut out = String::new();
    let mut i: usize = 0;
    while i < fills.len()
        invariant
            i <= fills.len(),
            g == strings_view(gaps@),
            f == strings_view(fills@),
            out@ == weave_prefix(g, f, i as int),
        decreases fills.len() - i,
    {
        if i < gaps.len() {
            out.append(gaps[i].as_str());
        }
        out.append(fills[i].as_str());
        i += 1;
    }
    let ghost mid = out@;
    if fills.len() < gaps.len() {
        let mut j: usize = fills.len();
        assert(g.subrange(fills.len() as int, j as int) =~= Seq::<Seq<char>>::empty());
        while j < gaps.len()
            invariant
                fills.len() <= j <= gaps.len(),
                g == strings_view(gaps@),
                out@ == mid + concat_all(g.subrange(fills.len() as int, j as int)),
            decreases gaps.len() - j,
        {
            proof {
                let t = g.subrange(fills.len() as int, j + 1);
                assert(t.drop_last() =~= g.subrange(fills.len() as int, j as int));
            }
            out.append(gaps[j].as_str());
            j += 1;
        }
    }
    out
}

/// A character that may begin an identifier.
pub open spec fn is_ident_start(c: char) -> bool {
    ('a' <= c && c <= 'z') || ('A' <= c && c <= 'Z') || c == '_'
}

/// A character that may continue an identifier.
pub open spec fn is_ident_char(c: char) -> bool {
    is_ident_start(c) || ('0' <= c && c <= '9')
}

/// A name that is an identifier in both generated languages: an ASCII letter or underscore,
/// then ASCII letters, digits and underscores.
pub open spec fn is_identifier(s: Seq<char>) -> bool {
    &&& s.len() > 0
    &&& is_ident_start(s[0])
    &&& forall|i: int| 1 <= i < s.len() ==> is_ident_char(#[trigger] s[i])
}

/// Whether `s` is an identifier in both generated languages.
pub fn check_identifier(s: &str) -> (r: bool)
    ensures
        r == is_identifier(s@),
{
    let n = s.unicode_len();
    if n == 0 {
        return false;
    }
    let c0 = s.get_char(0);
    if !(('a' <= c0 && c0 <= 'z') || ('A' <= c0 && c0 <= 'Z') || c0 == '_') {
        return false;
    }
    let mut i: usize = 1;
    while i < n
        invariant
            1 <= i <= n,
            n == s@.len(),
            forall|j: int| 1 <= j < i ==> is_ident_char(#[trigger] s@[j]),
        decreases n - i,
    {
        let c = s.get_char(i);
        if !(('a' <= c && c <= 'z') || ('A' <= c && c <= 'Z') || c == '_' || ('0' <= c && c <= '9')) {
            return false;
        }
        i += 1;
    }
    true
}

/// What `str::to_uppercase` makes of a text.
pub uninterp spec fn upper_of(s: Seq<char>) -> Seq<char>;

/// Relies on `str::to_uppercase`: the text with every character mapped to its upper case.
#[verifier::external_body]
fn uppercase(s: &str) -> (r: String)
    ensures
        r@ == upper_of(s@),
{
    s.to_uppercase()
}

/// A text with its first character in upper case.
pub open spec fn capitalized(s: Seq<char>) -> Seq<char> {
    if s.len() == 0 {
        Seq::empty()
    } else {
        upper_of(s.take(1)) + s.skip(1)
    }
}

/// A locale key in upper case, as it appears in generated type and variable names.
pub fn to_upper(s: &str) -> (r: String)
    ensures
        r@ == upper_of(s@),
{
    uppercase(s)
}

/// `s` with its first character in upper case.
pub fn capitalize_first_letter(s: &str) -> (r: String)
    ensures
        r@ == capitalized(s@),
{
    let n = s.unicode_len();
    if n == 0 {
        return String::new();
    }
    let first = s.substring_char(0, 1);
    let rest = s.substring_char(1, n);
    let mut r = uppercase(first);
    r.append(rest);
    r
}

} // verus!
