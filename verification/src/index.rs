//! The distance index: every pairwise distance of a corpus, computed once.

use crate::edit::distance_between;
use crate::edit::lemma_edit_distance_self;
use crate::edit::lemma_edit_distance_symmetric;
use crate::edit::measurable;
use crate::edit::word_distance;
use crate::parallel::par_map;
use vstd::prelude::*;
use vstd::string::StringExecFns;

verus! {

/// The words that a vector of strings holds, each as its sequence of
/// characters.
pub open spec fn words_of(words: Seq<String>) -> Seq<Seq<char>> {
    Seq::new(words.len(), |i: int| words[i]@)
}

/// Whether `row` holds the distance from `word` to each word of `corpus`, in
/// the order of the corpus.
pub open spec fn is_row_of(row: Seq<u32>, word: Seq<char>, corpus: Seq<Seq<char>>) -> bool {
    &&& row.len() == corpus.len()
    &&& forall|j: int| 0 <= j < corpus.len() ==> #[trigger] row[j] as nat == word_distance(
        word,
        corpus[j],
    )
}

/// Computes the distance from `word` to each word of the corpus.
pub fn distance_row(word: &str, words: &Vec<String>) -> (row: Vec<u32>)
    requires
        measurable(word@),
        forall|j: int| 0 <= j < words@.len() ==> measurable(#[trigger] words@[j]@),
    ensures
        is_row_of(row@, word@, words_of(words@)),
{
    let mut row: Vec<u32> = Vec::new();
    let mut j: usize = 0;
    while j < words.len()
        invariant
            j <= words@.len(),
            row@.len() == j,
            measurable(word@),
            forall|k: int| 0 <= k < words@.len() ==> measurable(#[trigger] words@[k]@),
            forall|k: int| 0 <= k < j ==> #[trigger] row@[k] as nat == word_distance(
                word@,
                words@[k]@,
            ),
        decreases words@.len() - j,
    {
        let d = distance_between(word, words[j].as_str());
        row.push(d);
        j += 1;
    }
    row
}

/// The pairwise distances of a corpus. A word is known by its position in the
/// corpus; the index is never changed after it is built.
#[derive(Debug)]
pub struct DistanceIndex {
    words: Vec<String>,
    rows: Vec<Vec<u32>>,
}

impl View for DistanceIndex {
    type V = Seq<Seq<char>>;

    /// The corpus, in its order.
    closed spec fn view(&self) -> Seq<Seq<char>> {
        words_of(self.words@)
    }
}

impl DistanceIndex {
    /// The stored entries: from an ordered pair of positions to the distance
    /// kept for it.
    pub closed spec fn table(&self) -> Map<(int, int), nat> {
        Map::new(
            |p: (int, int)| 0 <= p.0 < self.rows@.len() && 0 <= p.1 < self.rows@[p.0]@.len(),
            |p: (int, int)| self.rows@[p.0]@[p.1] as nat,
        )
    }

    /// An index is well formed when it holds an entry for exactly the ordered
    /// pairs of positions of its corpus, each entry the distance between the
    /// two words.
    pub open spec fn wf(&self) -> bool {
        &&& forall|i: int, j: int| #[trigger]
            self.table().dom().contains((i, j)) <==> 0 <= i < self@.len() && 0 <= j < self@.len()
        &&& forall|i: int, j: int|
            0 <= i < self@.len() && 0 <= j < self@.len() ==> #[trigger] self.table()[(i, j)]
                == word_distance(self@[i], self@[j])
    }

    #[verifier::type_invariant]
    spec fn inv(&self) -> bool {
        &&& self.rows@.len() == self.words@.len()
        &&& forall|i: int|
            0 <= i < self.rows@.len() ==> is_row_of(
                #[trigger] self.rows@[i]@,
                self.words@[i]@,
                words_of(self.words@),
            )
    }

    /// The number of words in the corpus.
    pub fn len(&self) -> (n: usize)
        ensures
            n == self@.len(),
    {
        self.words.len()
    }

    /// Whether the corpus is empty.
    pub fn is_empty(&self) -> (b: bool)
        ensures
            b == (self@.len() == 0),
    {
        self.words.len() == 0
    }

    /// The word at a position of the corpus.
    pub fn word(&self, i: usize) -> (w: &str)
        requires
            i < self@.len(),
        ensures
            w@ == self@[i as int],
    {
        self.words[i].as_str()
    }

    /// The distance between the words at two positions of the corpus.
    pub fn distance(&self, i: usize, j: usize) -> (d: u32)
        requires
            i < self@.len(),
            j < self@.len(),
        ensures
            self.wf(),
            d as nat == self.table()[(i as int, j as int)],
            d as nat == word_distance(self@[i as int], self@[j as int]),
    {
        proof {
            use_type_invariant(self);
        }
        self.rows[i][j]
    }

    /// The first position of the corpus that holds `word`.
    pub fn position(&self, word: &str) -> (found: Option<usize>)
        ensures
            match found {
                Some(i) => {
                    &&& i < self@.len()
                    &&& self@[i as int] == word@
                    &&& forall|k: int| 0 <= k < i ==> self@[k] != word@
                },
                None => forall|k: int| 0 <= k < self@.len() ==> self@[k] != word@,
            },
    {
        let needle = String::from_str(word);
        let mut i: usize = 0;
        while i < self.words.len()
            invariant
                i <= self.words@.len(),
                needle@ == word@,
                forall|k: int| 0 <= k < i ==> self.words@[k]@ != word@,
            decreases self.words@.len() - i,
        {
            if self.words[i] == needle {
                return Some(i);
            }
            i += 1;
        }
        None
    }

    /// The distance between two words, found by the words themselves: there
    /// is an entry exactly when both are words of the corpus.
    pub fn lookup(&self, a: &str, b: &str) -> (found: Option<u32>)
        ensures
            found is Some <==> self@.contains(a@) && self@.contains(b@),
            found matches Some(d) ==> d as nat == word_distance(a@, b@),
    {
        match self.position(a) {
            Some(i) => match self.position(b) {
                Some(j) => Some(self.distance(i, j)),
                None => None,
            },
            None => None,
        }
    }
}

/// Builds the index of a corpus: the distance of every ordered pair of its
/// words. The rows are computed independently of each other, on the worker
/// threads.
pub fn make_distance_cache(words: Vec<String>) -> (index: DistanceIndex)
    requires
        forall|i: int| 0 <= i < words@.len() ==> measurable(#[trigger] words@[i]@),
    ensures
        index@ == words_of(words@),
        index.wf(),
{
    let row_of = |word: &String| -> (row: Vec<u32>)
        requires
            measurable(word@),
        ensures
            is_row_of(row@, word@, words_of(words@))
        { distance_row(word.as_str(), &words) };
    let rows = par_map(&words, row_of);
    DistanceIndex { words, rows }
}

/// Symmetry: an index holds the same distance for a pair of words in either
/// order.
pub proof fn lemma_index_symmetric(index: DistanceIndex, i: int, j: int)
    requires
        index.wf(),
        0 <= i < index@.len(),
        0 <= j < index@.len(),
    ensures
        index.table()[(i, j)] == index.table()[(j, i)],
{
    lemma_edit_distance_symmetric(index@[i], index@[j]);
}

/// Identity: an index holds distance zero from every word to itself.
pub proof fn lemma_index_identity(index: DistanceIndex, i: int)
    requires
        index.wf(),
        0 <= i < index@.len(),
    ensures
        index.table()[(i, i)] == 0,
{
    lemma_edit_distance_self(index@[i]);
}

/// Completeness: an index holds an entry for every ordered pair of words of
/// its corpus, and that entry is the distance between the two.
pub proof fn lemma_index_complete(index: DistanceIndex, i: int, j: int)
    requires
        index.wf(),
        0 <= i < index@.len(),
        0 <= j < index@.len(),
    ensures
        index.table().dom().contains((i, j)),
        index.table()[(i, j)] == word_distance(index@[i], index@[j]),
{
}

} // verus!
