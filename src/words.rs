//! Words: their lexicographic order, splitting text into words, and joining
//! words back into text.

use std::cmp::Ordering;
use vstd::prelude::*;

verus! {

/// Strict lexicographic order on words, character by character
/// (by code point); a proper prefix comes first.
pub open spec fn word_lt(a: Seq<char>, b: Seq<char>) -> bool
    decreases a.len(),
{
    if a.len() == 0 {
        b.len() > 0
    } else if b.len() == 0 {
        false
    } else if a[0] != b[0] {
        (a[0] as int) < (b[0] as int)
    } else {
        word_lt(a.drop_first(), b.drop_first())
    }
}

/// No word comes before itself.
pub proof fn lemma_word_lt_irreflexive(a: Seq<char>)
    ensures
        !word_lt(a, a),
    decreases a.len(),
{
    if a.len() > 0 {
        lemma_word_lt_irreflexive(a.drop_first());
    }
}

/// The order is transitive.
pub proof fn lemma_word_lt_transitive(a: Seq<char>, b: Seq<char>, c: Seq<char>)
    requires
        word_lt(a, b),
        word_lt(b, c),
    ensures
        word_lt(a, c),
    decreases a.len(),
{
    if a.len() > 0 && b.len() > 0 && c.len() > 0 && a[0] == b[0] && b[0] == c[0] {
        lemma_word_lt_transitive(a.drop_first(), b.drop_first(), c.drop_first());
    }
}

/// Relies on the `Ord` impl of `str`, which orders strings by their UTF-8
/// bytes; byte order of UTF-8 agrees with the code-point order of `word_lt`.
#[verifier::external_body]
pub(crate) fn compare_words(a: &str, b: &str) -> (r: Ordering)
    ensures
        (r == Ordering::Less) <==> word_lt(a@, b@),
        (r == Ordering::Equal) <==> a@ == b@,
        (r == Ordering::Greater) <==> word_lt(b@, a@),
{
    a.cmp(b)
}

/// Whether `a` comes strictly before `b`.
pub fn word_less(a: &String, b: &String) -> (r: bool)
    ensures
        r == word_lt(a@, b@),
{
    match compare_words(a.as_str(), b.as_str()) {
        Ordering::Less => true,
        _ => false,
    }
}

/// The words of a list of strings, as character sequences.
pub open spec fn word_views(v: Seq<String>) -> Seq<Seq<char>> {
    v.map_values(|w: String| w@)
}

/// A character of Unicode's White_Space property, as `char::is_whitespace`
/// tests it.
pub open spec fn is_space(c: char) -> bool {
    let n = c as int;
    (0x9 <= n <= 0xd) || n == 0x20 || n == 0x85 || n == 0xa0 || n == 0x1680 || (0x2000 <= n <= 0x200a)
        || n == 0x2028 || n == 0x2029 || n == 0x202f || n == 0x205f || n == 0x3000
}

/// The words of `text`: its maximal runs of non-whitespace characters, in
/// order. A character extends the last word where the character before it
/// is no space, and opens a new word otherwise.
pub open spec fn whitespace_words(text: Seq<char>) -> Seq<Seq<char>>
    decreases text.len(),
{
    if text.len() == 0 {
        Seq::empty()
    } else {
        let rest = whitespace_words(text.drop_last());
        let c = text.last();
        if is_space(c) {
            rest
        } else if text.len() >= 2 && !is_space(text[text.len() - 2]) && rest.len() > 0 {
            rest.drop_last().push(rest.last().push(c))
        } else {
            rest.push(seq![c])
        }
    }
}

/// Relies on `str::split_whitespace`, which yields the maximal runs of
/// characters without the White_Space property, in order.
#[verifier::external_body]
pub(crate) fn split_words(text: &str) -> (r: Vec<String>)
    ensures
        word_views(r@) == whitespace_words(text@),
{
    text.split_whitespace().map(String::from).collect()
}

/// The words joined by single spaces.
pub open spec fn joined(ws: Seq<Seq<char>>) -> Seq<char>
    decreases ws.len(),
{
    if ws.len() == 0 {
        Seq::empty()
    } else if ws.len() == 1 {
        ws[0]
    } else {
        joined(ws.drop_last()) + seq![' '] + ws.last()
    }
}

/// Joins the words with a single space between each two.
pub fn join_words(ws: &Vec<String>) -> (r: String)
    ensures
        r@ == joined(word_views(ws@)),
{
    let mut out = String::new();
    let n = ws.len();
    let mut i: usize = 0;
    while i < n
        invariant
            n == ws@.len(),
            i <= n,
            out@ == joined(word_views(ws@).take(i as int)),
        decreases n - i,
    {
        let ghost before = word_views(ws@).take(i as int);
        let ghost after = word_views(ws@).take(i + 1);
        assert(after.drop_last() =~= before);
        if i > 0 {
            proof {
                reveal_strlit(" ");
            }
            out.append(" ");
        }
        out.append(ws[i].as_str());
        i = i + 1;
    }
    assert(word_views(ws@).take(n as int) =~= word_views(ws@));
    out
}

} // verus!
