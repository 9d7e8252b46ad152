//! Edit distance: its definition, its laws, and the calls that compute it
//! for words.

use vstd::prelude::*;

verus! {

/// The longest word, in characters, whose distances are computed.
pub const MAX_WORD_LEN: usize = 0x7fff_ffff;

/// The smallest of three numbers.
pub open spec fn min3(x: nat, y: nat, z: nat) -> nat {
    if x <= y && x <= z {
        x
    } else if y <= z {
        y
    } else {
        z
    }
}

/// The least number of single-item insertions, deletions and substitutions
/// that turn `a` into `b`, by its recurrence over the last items. That it is
/// that number is `lemma_edit_distance_is_least` of the module `edits`.
pub open spec fn edit_distance<T>(a: Seq<T>, b: Seq<T>) -> nat
    decreases a.len() + b.len(),
{
    if a.len() == 0 {
        b.len()
    } else if b.len() == 0 {
        a.len()
    } else {
        let substitute = edit_distance(a.drop_last(), b.drop_last()) + if a.last() == b.last() {
            0nat
        } else {
            1nat
        };
        let delete = edit_distance(a.drop_last(), b) + 1;
        let insert = edit_distance(a, b.drop_last()) + 1;
        min3(substitute, delete, insert)
    }
}

/// Edit distance does not depend on the order of its arguments.
pub proof fn lemma_edit_distance_symmetric<T>(a: Seq<T>, b: Seq<T>)
    ensures
        edit_distance(a, b) == edit_distance(b, a),
    decreases a.len() + b.len(),
{
    if a.len() != 0 && b.len() != 0 {
        lemma_edit_distance_symmetric(a.drop_last(), b.drop_last());
        lemma_edit_distance_symmetric(a.drop_last(), b);
        lemma_edit_distance_symmetric(a, b.drop_last());
    }
}

/// A sequence is at distance zero from itself.
pub proof fn lemma_edit_distance_self<T>(a: Seq<T>)
    ensures
        edit_distance(a, a) == 0,
    decreases a.len(),
{
    if a.len() != 0 {
        lemma_edit_distance_self(a.drop_last());
    }
}

/// Only equal sequences are at distance zero.
pub proof fn lemma_edit_distance_zero<T>(a: Seq<T>, b: Seq<T>)
    requires
        edit_distance(a, b) == 0,
    ensures
        a == b,
    decreases a.len() + b.len(),
{
    if a.len() == 0 || b.len() == 0 {
        assert(a =~= b);
    } else {
        lemma_edit_distance_zero(a.drop_last(), b.drop_last());
        assert(a =~= a.drop_last().push(a.last()));
        assert(b =~= b.drop_last().push(b.last()));
    }
}

/// Edit distance is at most the length of the longer argument.
pub proof fn lemma_edit_distance_bound<T>(a: Seq<T>, b: Seq<T>)
    ensures
        edit_distance(a, b) <= if a.len() >= b.len() {
            a.len()
        } else {
            b.len()
        },
    decreases a.len() + b.len(),
{
    if a.len() != 0 && b.len() != 0 {
        lemma_edit_distance_bound(a.drop_last(), b.drop_last());
    }
}

/// Whether `x` is `a` item by item under a relabelling that tells the items
/// of `a` and `b` apart exactly as they are apart: `x[i]` and `y[j]` are equal
/// where `a[i]` and `b[j]` are, and nowhere else.
pub open spec fn same_pattern<S, T>(a: Seq<S>, b: Seq<S>, x: Seq<T>, y: Seq<T>) -> bool {
    &&& x.len() == a.len()
    &&& y.len() == b.len()
    &&& forall|i: int, j: int|
        0 <= i < a.len() && 0 <= j < b.len() ==> ((#[trigger] x[i] == #[trigger] y[j]) <==> a[i]
            == b[j])
}

/// Edit distance looks only at which items are equal: relabelling the items
/// leaves it as it is.
pub proof fn lemma_edit_distance_relabelled<S, T>(a: Seq<S>, b: Seq<S>, x: Seq<T>, y: Seq<T>)
    requires
        same_pattern(a, b, x, y),
    ensures
        edit_distance(x, y) == edit_distance(a, b),
    decreases a.len() + b.len(),
{
    if a.len() != 0 && b.len() != 0 {
        assert(x.last() == x[x.len() - 1] && y.last() == y[y.len() - 1]);
        lemma_edit_distance_relabelled(a.drop_last(), b.drop_last(), x.drop_last(), y.drop_last());
        lemma_edit_distance_relabelled(a.drop_last(), b, x.drop_last(), y);
        lemma_edit_distance_relabelled(a, b.drop_last(), x, y.drop_last());
    }
}

/// The distance between two words: the edit distance of their characters.
pub open spec fn word_distance(a: Seq<char>, b: Seq<char>) -> nat {
    edit_distance(a, b)
}

/// Whether a word is short enough for its distances to be computed.
pub open spec fn measurable(word: Seq<char>) -> bool {
    word.len() <= MAX_WORD_LEN
}

/// For words of ASCII characters it is the same to count edits of
/// characters and edits of the bytes that encode them.
pub proof fn lemma_ascii_bytes_measure_chars(a: Seq<char>, b: Seq<char>)
    requires
        vstd::utf8::is_ascii_chars(a),
        vstd::utf8::is_ascii_chars(b),
    ensures
        vstd::utf8::encode_utf8(a).len() == a.len(),
        vstd::utf8::encode_utf8(b).len() == b.len(),
        edit_distance(vstd::utf8::encode_utf8(a), vstd::utf8::encode_utf8(b)) == word_distance(
            a,
            b,
        ),
{
    let x = vstd::utf8::encode_utf8(a);
    let y = vstd::utf8::encode_utf8(b);
    vstd::utf8::is_ascii_chars_encode_utf8(a);
    vstd::utf8::is_ascii_chars_encode_utf8(b);
    assert forall|i: int, j: int| 0 <= i < a.len() && 0 <= j < b.len() implies ((#[trigger] x[i]
        == #[trigger] y[j]) <==> a[i] == b[j]) by {
        assert(x[i] == a[i] as u8 && y[j] == b[j] as u8);
        assert('\0' <= a[i] <= '\u{7f}' && '\0' <= b[j] <= '\u{7f}');
    }
    lemma_edit_distance_relabelled(a, b, x, y);
}

/// Calls `triple_accel::levenshtein::levenshtein`, which that crate documents
/// as returning the Levenshtein distance between its two arguments, taken
/// byte by byte. The lengths are bounded because the crate derives its search
/// bound from them in 32-bit arithmetic; by `lemma_edit_distance_bound` the
/// distance of such arguments fits the result.
#[verifier::external_body]
pub(crate) fn levenshtein_bytes(a: &[u8], b: &[u8]) -> (d: u32)
    requires
        a@.len() <= MAX_WORD_LEN,
        b@.len() <= MAX_WORD_LEN,
    ensures
        d as nat == edit_distance(a@, b@),
{
    triple_accel::levenshtein::levenshtein(a, b)
}

/// Calls `triple_accel::levenshtein::levenstein_naive_str`, which that crate
/// documents as returning the Levenshtein distance between its two
/// arguments, and which takes them character by character. The lengths are
/// bounded because the crate counts in 32 bits.
#[verifier::external_body]
pub(crate) fn levenshtein_chars(a: &str, b: &str) -> (d: u32)
    requires
        a@.len() <= MAX_WORD_LEN,
        b@.len() <= MAX_WORD_LEN,
    ensures
        d as nat == edit_distance(a@, b@),
{
    triple_accel::levenshtein::levenstein_naive_str(a, b)
}

/// Computes the distance between two words, in edits of characters. It is
/// never more than the longer of the two has characters. Words of ASCII
/// characters alone are measured by their bytes, which is the same and
/// faster.
pub fn distance_between(a: &str, b: &str) -> (d: u32)
    requires
        measurable(a@),
        measurable(b@),
    ensures
        d as nat == word_distance(a@, b@),
        d <= a@.len() || d <= b@.len(),
{
    proof {
        lemma_edit_distance_bound(a@, b@);
    }
    if a.is_ascii() && b.is_ascii() {
        proof {
            lemma_ascii_bytes_measure_chars(a@, b@);
        }
        levenshtein_bytes(a.as_bytes(), b.as_bytes())
    } else {
        levenshtein_chars(a, b)
    }
}

} // verus!
