use crate::document::{last_part, lemma_term_frequency, text_of, Document};
use crate::error::ModelError;
use crate::frequency::{InverseFrequency, Score, TermFrequency};
use crate::ranking::{is_ranking, lemma_ranking_unique, outranks, positions, rank_order};
use crate::score::ScoreDoc;
use crate::table::Table;
use std::cmp::Ordering;
use uuid::Uuid;
use vstd::prelude::*;
use vstd::seq_lib::lemma_seq_contains_after_push;
use vstd::std_specs::cmp::PartialOrdSpec;

verus! {

/// Where an index stands in its life cycle.
#[derive(Clone, Copy, Debug, PartialEq, Eq, Structural)]
pub enum IndexState {
    Initializing,
    Updating,
    Ready,
    Error,
}

/// In how many of `documents` the token stands at least once.
pub open spec fn document_frequency(documents: Seq<Document>, token: Seq<char>) -> nat
    decreases documents.len(),
{
    if documents.len() == 0 {
        0
    } else if documents.last()@.counts.contains_key(token) {
        document_frequency(documents.drop_last(), token) + 1
    } else {
        document_frequency(documents.drop_last(), token)
    }
}

/// The paths of `files`, each once, in the order in which they first come.
pub open spec fn first_paths(files: Seq<(Seq<char>, Option<Seq<char>>)>) -> Seq<Seq<char>>
    decreases files.len(),
{
    if files.len() == 0 {
        Seq::empty()
    } else {
        let before = first_paths(files.drop_last());
        if before.contains(files.last().0) {
            before
        } else {
            before.push(files.last().0)
        }
    }
}

/// The text that `files` holds for `path`: that of the last file with this
/// path, as in a map, where a later entry takes the place of an earlier one.
pub open spec fn last_text(files: Seq<(Seq<char>, Option<Seq<char>>)>, path: Seq<char>) -> Option<
    Seq<char>,
>
    decreases files.len(),
{
    if files.len() == 0 {
        None
    } else if files.last().0 == path {
        files.last().1
    } else {
        last_text(files.drop_last(), path)
    }
}

/// Every path of `files` has a last part, by which a document can be named.
pub open spec fn all_named(files: Seq<(Seq<char>, Option<Seq<char>>)>) -> bool {
    forall|at: int| 0 <= at < files.len() ==> last_part((#[trigger] files[at]).0) is Some
}

/// The file at `at` is the first of `files` whose path has no last part.
pub open spec fn first_unnamed(files: Seq<(Seq<char>, Option<Seq<char>>)>, at: int) -> bool {
    &&& 0 <= at < files.len()
    &&& last_part(files[at].0) is None
    &&& forall|before: int| 0 <= before < at ==> last_part((#[trigger] files[before]).0) is Some
}

/// The frequencies are those of `documents`: each token that stands in one
/// of them, with the number of documents in which it stands, and no other.
pub open spec fn counts_documents(
    frequencies: Map<Seq<char>, usize>,
    documents: Seq<Document>,
) -> bool {
    &&& forall|token: Seq<char>| #[trigger]
        frequencies.contains_key(token) <==> document_frequency(documents, token) > 0
    &&& forall|token: Seq<char>| #[trigger]
        frequencies.contains_key(token) ==> frequencies[token] == document_frequency(
            documents,
            token,
        )
}

/// Every document is well formed.
pub open spec fn all_wf(documents: Seq<Document>) -> bool {
    forall|at: int| 0 <= at < documents.len() ==> (#[trigger] documents[at]).wf()
}

/// No token stands in more documents than there are.
pub proof fn lemma_document_frequency_bound(documents: Seq<Document>, token: Seq<char>)
    ensures
        document_frequency(documents, token) <= documents.len(),
    decreases documents.len(),
{
    if documents.len() > 0 {
        lemma_document_frequency_bound(documents.drop_last(), token);
    }
}

/// A corpus: documents under the paths of their sources, and for each token
/// the number of documents in which it stands.
pub struct Index {
    index_id: Uuid,
    index_name: String,
    idf: Table<usize>,
    documents: Table<Document>,
}

impl Index {
    /// The documents, in the order in which their paths first came.
    pub closed spec fn documents(&self) -> Seq<Document> {
        self.documents.values()
    }

    /// The paths of the documents, each at the position of its document.
    pub closed spec fn paths(&self) -> Seq<Seq<char>> {
        self.documents.keys()
    }

    /// The identifier that the index drew when it was built.
    pub closed spec fn id(&self) -> Uuid {
        self.index_id
    }

    /// The name that the index was given.
    pub closed spec fn name(&self) -> Seq<char> {
        self.index_name@
    }

    /// The document frequencies that the index holds: for each token that it
    /// knows, the number of documents in which the token stands.
    pub closed spec fn frequencies(&self) -> Map<Seq<char>, usize> {
        self.idf@
    }

    /// The two tables of the index are well formed.
    pub closed spec fn tabled(&self) -> bool {
        self.documents.wf() && self.idf.wf()
    }

    /// The index is well formed: one path for each document and none twice,
    /// every document well formed, and the document frequencies those of the
    /// documents.
    pub open spec fn wf(&self) -> bool {
        &&& self.tabled()
        &&& self.paths().len() == self.documents().len()
        &&& self.paths().no_duplicates()
        &&& all_wf(self.documents())
        &&& counts_documents(self.frequencies(), self.documents())
    }

    /// In how many documents `token` stands.
    pub open spec fn df(&self, token: Seq<char>) -> nat {
        document_frequency(self.documents(), token)
    }

    /// The term frequency of `token` in the document at a position.
    pub open spec fn tf(&self, token: Seq<char>, at: int) -> TermFrequency {
        self.documents()[at].frequency_of(token)
    }

    /// The score of the document at a position for `token`.
    pub open spec fn score(&self, token: Seq<char>, at: int) -> Score {
        Score { tf: self.tf(token, at), idf: self.idf(token) }
    }

    /// The term frequencies of `token`, document by document.
    pub open spec fn tfs(&self, token: Seq<char>) -> Seq<TermFrequency> {
        Seq::new(self.documents().len(), |at: int| self.tf(token, at))
    }

    /// The inverse document frequency of `token`.
    pub open spec fn idf(&self, token: Seq<char>) -> InverseFrequency {
        InverseFrequency {
            documents: self.documents().len() as usize,
            containing: self.df(token) as usize,
        }
    }

    /// The index holds what `files` hold: a document for each path, named
    /// by the last part of the path and built from the text of the last file
    /// with that path, the documents in the order in which their paths first
    /// come.
    pub open spec fn holds(&self, files: Seq<(Seq<char>, Option<Seq<char>>)>) -> bool {
        &&& self.paths() == first_paths(files)
        &&& self.documents().len() == self.paths().len()
        &&& forall|at: int|
            0 <= at < self.documents().len() ==> (#[trigger] self.documents()[at]).describes(
                self.paths()[at],
                last_text(files, self.paths()[at]),
            )
    }

    /// `ranked` is the ranking of the documents for `token`, in the order
    /// `order`: every document once, each with its score, the greater term
    /// frequency first, and of two equal ones the earlier document.
    pub open spec fn is_ranked(
        &self,
        token: Seq<char>,
        ranked: Seq<ScoreDoc<&Document>>,
        order: Seq<int>,
    ) -> bool {
        &&& is_ranking(self.tfs(token), order)
        &&& ranked.len() == order.len()
        &&& forall|k: int|
            #![trigger ranked[k]]
            0 <= k < ranked.len() ==> *ranked[k].value == self.documents()[order[k]]
                && ranked[k].priority == self.score(token, order[k])
    }

    /// Counts, for each token, the documents in which it stands.
    pub fn new_idf(documents: &Table<Document>) -> (idf: Table<usize>)
        requires
            documents.wf(),
            all_wf(documents.values()),
        ensures
            idf.wf(),
            counts_documents(idf@, documents.values()),
    {
        let mut idf: Table<usize> = Table::new();
        let n = documents.len();
        let mut i: usize = 0;
        while i < n
            invariant
                documents.wf(),
                all_wf(documents.values()),
                n == documents.values().len(),
                i <= n,
                idf.wf(),
                counts_documents(idf@, documents.values().take(i as int)),
            decreases n - i,
        {
            let document = documents.value_at(i);
            let ghost seen = documents.values().take(i as int);
            let ghost terms = document.tf.keys();
            assert(documents.values()[i as int].wf());
            let mut j: usize = 0;
            while j < document.tf.len()
                invariant
                    document.wf(),
                    terms == document.tf.keys(),
                    j <= terms.len(),
                    i < n,
                    seen.len() == i,
                    idf.wf(),
                    forall|token: Seq<char>| #[trigger]
                        idf@.contains_key(token) <==> document_frequency(seen, token) > 0
                            || terms.take(j as int).contains(token),
                    forall|token: Seq<char>| #[trigger]
                        idf@.contains_key(token) ==> idf@[token] == document_frequency(
                            seen,
                            token,
                        ) + if terms.take(j as int).contains(token) {
                            1nat
                        } else {
                            0nat
                        },
                decreases terms.len() - j,
            {
                let token = document.tf.key_at(j);
                let ghost before = idf;
                proof {
                    broadcast use lemma_seq_contains_after_push;

                    lemma_document_frequency_bound(seen, token@);
                    assert(terms.take(j + 1) =~= terms.take(j as int).push(token@));
                    assert(!terms.take(j as int).contains(token@)) by {
                        if terms.take(j as int).contains(token@) {
                            let at = choose|at: int|
                                0 <= at < j && terms.take(j as int)[at] == token@;
                            assert(terms[at] == terms[j as int]);
                        }
                    }
                }
                match idf.position(token.as_str()) {
                    Some(at) => {
                        let so_far = *idf.value_at(at);
                        proof {
                            idf.lemma_value_at(at as int);
                            assert(idf@.contains_key(token@));
                        }
                        idf.set_value(at, so_far + 1);
                        assert(so_far == document_frequency(seen, token@));
                    },
                    None => {
                        idf.insert(token.clone(), 1);
                        assert(!before@.contains_key(token@)) by {
                            assert(!before.keys().contains(token@));
                        }
                    },
                }
                proof {
                    assert(idf@ == before@.insert(
                        token@,
                        (document_frequency(seen, token@) + 1) as usize,
                    ));
                    assert forall|other: Seq<char>| #[trigger]
                        idf@.contains_key(other) implies idf@[other] == document_frequency(
                        seen,
                        other,
                    ) + if terms.take(j + 1).contains(other) {
                        1nat
                    } else {
                        0nat
                    } by {
                        if other != token@ {
                            assert(before@.contains_key(other));
                        }
                    }
                }
                j += 1;
            }
            proof {
                let next = documents.values().take(i + 1);
                assert(next.drop_last() =~= seen);
                assert(next.last() == *document);
                assert(terms.take(j as int) =~= terms);
                assert forall|token: Seq<char>|
                    terms.contains(token) <==> document.tf@.contains_key(token) by {}
            }
            i += 1;
        }
        assert(documents.values().take(i as int) =~= documents.values());
        idf
    }

    /// The document of one file.
    fn index(path: &str, text: Option<&str>) -> (r: Result<Document, ModelError>)
        ensures
            r is Ok <==> last_part(path@) is Some,
            r matches Ok(document) ==> document.describes(path@, text_of(text)),
            r matches Err(e) ==> (e matches ModelError::MalformedPath(at) && at@ == path@),
    {
        Document::new(path, text)
    }

    /// Takes in what came of building the document of the file at `path`: a
    /// document goes into the table under the path, in place of one that
    /// stood there or behind the last; a failure is handed back, and the
    /// table stays as it was.
    pub fn put(
        documents: &mut Table<Document>,
        path: String,
        built: Result<Document, ModelError>,
    ) -> (r: Result<(), ModelError>)
        requires
            old(documents).wf(),
        ensures
            (match built {
                Ok(document) => r is Ok && old(documents).inserted(
                    path@,
                    document,
                    *final(documents),
                ),
                Err(e) => r == Err::<(), ModelError>(e) && *final(documents) == *old(documents),
            }),
    {
        match built {
            Ok(document) => {
                documents.insert(path, document);
                Ok(())
            },
            Err(e) => Err(e),
        }
    }

    /// Builds the index of `files`, each a path and the text of the file at
    /// that path, or no text where there is no file to read. It is built
    /// where every path has a last part to name its document by; the first
    /// path without one fails the whole index.
    pub fn new(files: &Vec<(String, Option<String>)>, index_name: &str) -> (r: Result<
        Index,
        ModelError,
    >)
        ensures
            r is Ok <==> all_named(files.deep_view()),
            r matches Ok(index) ==> index.wf(),
            r matches Ok(index) ==> index.name() == index_name@,
            r matches Ok(index) ==> index.holds(files.deep_view()),
            r matches Err(e) ==> exists|at: int|
                first_unnamed(files.deep_view(), at) && (e matches ModelError::MalformedPath(path)
                    && path@ == (#[trigger] files.deep_view()[at]).0),
    {
        let mut documents: Table<Document> = Table::new();
        let mut i: usize = 0;
        while i < files.len()
            invariant
                i <= files.len(),
                documents.wf(),
                all_wf(documents.values()),
                all_named(files.deep_view().take(i as int)),
                documents.keys() == first_paths(files.deep_view().take(i as int)),
                forall|at: int|
                    #![trigger documents.values()[at]]
                    0 <= at < documents.values().len() ==> documents.values()[at].describes(
                        documents.keys()[at],
                        last_text(files.deep_view().take(i as int), documents.keys()[at]),
                    ),
            decreases files.len() - i,
        {
            let path = files[i].0.as_str();
            let text = match &files[i].1 {
                Some(text) => Some(text.as_str()),
                None => None,
            };
            let ghost seen = files.deep_view().take(i as int);
            let ghost next = files.deep_view().take(i + 1);
            let ghost before = documents;
            proof {
                assert(next.drop_last() =~= seen);
                assert(next.last() == files.deep_view()[i as int]);
                assert(next.last().0 == path@);
                assert(next.last().1 == text_of(text));
            }
            match Self::put(&mut documents, files[i].0.clone(), Self::index(path, text)) {
                Ok(_) => {
                    proof {
                        if before.keys().contains(path@) {
                            let changed = before.keys().index_of(path@);
                            assert(0 <= changed < before.keys().len() && before.keys()[changed]
                                == path@);
                        }
                        let now = documents;
                        assert forall|at: int|
                            #![trigger now.values()[at]]
                            0 <= at < now.values().len() implies now.values()[at].describes(
                            now.keys()[at],
                            last_text(next, now.keys()[at]),
                        ) by {
                            if documents.keys()[at] != path@ {
                                assert(documents.values()[at] == before.values()[at]);
                            }
                        }
                        assert forall|at: int| 0 <= at < next.len() implies last_part(
                            (#[trigger] next[at]).0,
                        ) is Some by {
                            if at < i {
                                assert(seen[at] == next[at]);
                            }
                        }
                    }
                },
                Err(e) => {
                    proof {
                        let whole = files.deep_view();
                        assert(whole[i as int].0 == path@);
                        assert forall|at: int| 0 <= at < i implies last_part(
                            (#[trigger] whole[at]).0,
                        ) is Some by {
                            assert(seen[at] == whole[at]);
                        }
                        assert(first_unnamed(whole, i as int));
                    }
                    return Err(e);
                },
            }
            i += 1;
        }
        assert(files.deep_view().take(i as int) =~= files.deep_view());
        let idf = Self::new_idf(&documents);
        Ok(Index { index_id: Uuid::new_v4(), index_name: index_name.to_owned(), idf, documents })
    }

    /// The number of documents.
    pub fn len(&self) -> (n: usize)
        requires
            self.wf(),
        ensures
            n == self.documents().len(),
    {
        self.documents.len()
    }

    /// The document at a position.
    pub fn document(&self, at: usize) -> (document: &Document)
        requires
            self.wf(),
            at < self.documents().len(),
        ensures
            *document == self.documents()[at as int],
    {
        self.documents.value_at(at)
    }

    /// The path of the document at a position.
    pub fn path(&self, at: usize) -> (path: &String)
        requires
            self.wf(),
            at < self.paths().len(),
        ensures
            path@ == self.paths()[at as int],
    {
        self.documents.key_at(at)
    }

    /// The position of the document under `path`, if there is one.
    pub fn position(&self, path: &str) -> (found: Option<usize>)
        requires
            self.wf(),
        ensures
            (match found {
                Some(at) => at < self.paths().len() && self.paths()[at as int] == path@,
                None => !self.paths().contains(path@),
            }),
    {
        self.documents.position(path)
    }

    /// The name that the index was given.
    pub fn index_name(&self) -> (name: &String)
        ensures
            name@ == self.name(),
    {
        &self.index_name
    }

    /// The identifier that the index drew when it was built.
    pub fn index_id(&self) -> (id: Uuid)
        ensures
            id == self.id(),
    {
        self.index_id
    }

    /// The inverse document frequency of `token`: among how many documents,
    /// and in how many of them the token stands, none for a token that the
    /// corpus does not know.
    pub fn compute_idf(&self, token: &String) -> (idf: InverseFrequency)
        requires
            self.wf(),
        ensures
            idf == self.idf(token@),
            idf.documents == self.documents().len(),
            idf.containing == self.df(token@),
            idf.wf(),
    {
        proof {
            lemma_document_frequency_bound(self.documents(), token@);
        }
        let documents = self.documents.len();
        match self.idf.get(token.as_str()) {
            Some(containing) => InverseFrequency { documents, containing: *containing },
            None => InverseFrequency { documents, containing: 0 },
        }
    }

    /// Ranks all documents for `token`, the most relevant first: each
    /// document with its score, the product of the token's term frequency in
    /// it and the token's inverse document frequency.
    pub fn rank(&self, token: String) -> (ranked: Vec<ScoreDoc<&Document>>)
        requires
            self.wf(),
        ensures
            ranked.len() == self.documents().len(),
            exists|order: Seq<int>| self.is_ranked(token@, ranked@, order),
    {
        let idf = self.compute_idf(&token);
        let mut tfs: Vec<TermFrequency> = Vec::new();
        let mut i: usize = 0;
        while i < self.documents.len()
            invariant
                self.wf(),
                i <= self.documents().len(),
                tfs@ == self.tfs(token@).take(i as int),
            decreases self.documents().len() - i,
        {
            let tf = self.documents.value_at(i).compute_tf(&token);
            assert(tf == self.tf(token@, i as int));
            tfs.push(tf);
            assert(tfs@ =~= self.tfs(token@).take(i + 1));
            i += 1;
        }
        assert(tfs@ =~= self.tfs(token@));
        assert forall|at: int| 0 <= at < tfs.len() implies (#[trigger] tfs[at]).wf() by {
            lemma_term_frequency(self.documents()[at], token@);
        }
        let order = rank_order(&tfs);
        let mut ranked: Vec<ScoreDoc<&Document>> = Vec::new();
        let mut k: usize = 0;
        while k < order.len()
            invariant
                self.wf(),
                k <= order.len(),
                ranked.len() == k,
                tfs@ == self.tfs(token@),
                idf == self.idf(token@),
                is_ranking(tfs@, positions(order@)),
                forall|j: int|
                    #![trigger ranked[j]]
                    0 <= j < k ==> *ranked[j].value == self.documents()[order[j] as int]
                        && ranked[j].priority == self.score(token@, order[j] as int),
            decreases order.len() - k,
        {
            let at = order[k];
            assert(0 <= positions(order@)[k as int] < tfs.len());
            let pair = ScoreDoc::new(Score { tf: tfs[at], idf }, self.documents.value_at(at));
            ranked.push(pair);
            k += 1;
        }
        assert(self.is_ranked(token@, ranked@, positions(order@)));
        ranked
    }
}

/// No token stands in more documents than the index has, so that its inverse
/// document frequency is not negative.
pub proof fn lemma_idf_in_bounds(index: Index, token: Seq<char>)
    requires
        index.wf(),
    ensures
        index.df(token) <= index.documents().len(),
        index.idf(token).wf(),
        index.idf(token).numerator() == 1 + index.documents().len(),
        index.idf(token).denominator() == 1 + index.df(token),
        index.idf(token).numerator() >= index.idf(token).denominator(),
{
    lemma_document_frequency_bound(index.documents(), token);
    index.documents.lemma_len_bound();
}

/// A ranking holds every document of the index, none of them twice and none
/// left out, each with a well-formed score, and no document stands before
/// one with a greater score.
pub proof fn lemma_ranking_is_sorted(
    index: Index,
    token: Seq<char>,
    ranked: Seq<ScoreDoc<&Document>>,
    order: Seq<int>,
)
    requires
        index.wf(),
        index.is_ranked(token, ranked, order),
    ensures
        ranked.len() == index.documents().len(),
        order.no_duplicates(),
        forall|at: int| 0 <= at < index.documents().len() ==> #[trigger] order.contains(at),
        forall|k: int| 0 <= k < ranked.len() ==> (#[trigger] ranked[k]).priority.wf(),
        forall|a: int, b: int|
            #![trigger ranked[a], ranked[b]]
            0 <= a < b < ranked.len() ==> !ranked[a].priority.lt(ranked[b].priority),
{
    let tfs = index.tfs(token);
    lemma_idf_in_bounds(index, token);
    assert forall|k: int| 0 <= k < ranked.len() implies (#[trigger] ranked[k]).priority.wf() by {
        lemma_term_frequency(index.documents()[order[k]], token);
    }
    assert forall|a: int, b: int|
        #![trigger ranked[a], ranked[b]]
        0 <= a < b < ranked.len() implies !ranked[a].priority.lt(ranked[b].priority) by {
        assert(outranks(tfs, order[a], order[b]));
        assert(ranked[a].priority == index.score(token, order[a]));
        assert(ranked[b].priority == index.score(token, order[b]));
    }
}

/// A ranking is a sequence of pairs in rising order: with pairs ordered
/// against their scores, each pair is less than or equal to all that follow.
pub proof fn lemma_ranking_rises(
    index: Index,
    token: Seq<char>,
    ranked: Seq<ScoreDoc<&Document>>,
    order: Seq<int>,
)
    requires
        index.wf(),
        index.is_ranked(token, ranked, order),
    ensures
        forall|a: int, b: int|
            #![trigger ranked[a], ranked[b]]
            0 <= a < b < ranked.len() ==> ranked[a].partial_cmp_spec(&ranked[b]) == Some(
                Ordering::Less,
            ) || ranked[a].partial_cmp_spec(&ranked[b]) == Some(Ordering::Equal),
{
    lemma_ranking_is_sorted(index, token, ranked, order);
    lemma_idf_in_bounds(index, token);
    assert forall|a: int, b: int|
        #![trigger ranked[a], ranked[b]]
        0 <= a < b < ranked.len() implies ranked[a].partial_cmp_spec(&ranked[b]) == Some(
        Ordering::Less,
    ) || ranked[a].partial_cmp_spec(&ranked[b]) == Some(Ordering::Equal) by {
        assert(ranked[a].priority == index.score(token, order[a]));
        assert(ranked[b].priority == index.score(token, order[b]));
        assert(!ranked[a].priority.lt(ranked[b].priority));
    }
}

/// Ranking is settled by the index and the token: two rankings of one index
/// for one token hold the same pairs of document and score, in the same
/// order.
pub proof fn lemma_ranking_is_settled(
    index: Index,
    token: Seq<char>,
    once: Seq<ScoreDoc<&Document>>,
    first: Seq<int>,
    again: Seq<ScoreDoc<&Document>>,
    second: Seq<int>,
)
    requires
        index.is_ranked(token, once, first),
        index.is_ranked(token, again, second),
    ensures
        first == second,
        once == again,
        once.to_multiset() == again.to_multiset(),
{
    lemma_ranking_unique(index.tfs(token), first, second);
    assert forall|k: int| 0 <= k < once.len() implies once[k] == again[k] by {
        assert(*once[k].value == index.documents()[first[k]]);
        assert(*again[k].value == index.documents()[second[k]]);
    }
    assert(once =~= again);
}

} // verus!
