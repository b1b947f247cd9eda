use crate::error::ModelError;
use crate::frequency::TermFrequency;
use crate::table::Table;
use crate::text::tokens_of;
use crate::tokenizer::Tokenizer;
use std::time::Instant;
use uuid::Uuid;
use vstd::prelude::*;
use vstd::seq_lib::lemma_seq_contains_after_push;

verus! {

/// `uuid::Uuid`, an identifier that is carried along unread.
#[verifier::external_type_specification]
#[verifier::external_body]
pub struct ExUuid(Uuid);

/// `std::time::Instant`, a reading of the clock that is carried along unread.
#[verifier::external_type_specification]
#[verifier::external_body]
pub struct ExInstant(Instant);

/// `Uuid::new_v4` draws an identifier at random: nothing is known of it.
pub assume_specification[ Uuid::new_v4 ]() -> (id: Uuid)
;

/// `Instant::now` reads the clock: nothing is known of what it shows.
pub assume_specification[ Instant::now ]() -> (now: Instant)
;

/// The last part of a path, by which a file or a directory is named, or
/// `None` for a path that has no such part, as one that ends in `..`: what
/// `std::path::Path::file_name` finds in the path, by the rules for paths of
/// the platform that the library is built for.
pub uninterp spec fn last_part(path: Seq<char>) -> Option<Seq<char>>;

/// `std::path::Path::file_name` on the path, as a string: the last part of
/// the path, or `None` where it has none.
#[verifier::external_body]
fn file_name(path: &str) -> (name: Option<String>)
    ensures
        name.deep_view() == last_part(path@),
{
    std::path::Path::new(path).file_name().map(|name| name.to_string_lossy().into_owned())
}

/// Where a document stands in its life cycle.
#[derive(Clone, Copy, Debug, PartialEq, Eq, Structural)]
pub enum DocumentState {
    Pending,
    Indexing,
    Indexed,
    Failed,
}

/// How often `token` stands in `tokens`.
pub open spec fn occurrences(tokens: Seq<Seq<char>>, token: Seq<char>) -> nat
    decreases tokens.len(),
{
    if tokens.len() == 0 {
        0
    } else if tokens.last() == token {
        occurrences(tokens.drop_last(), token) + 1
    } else {
        occurrences(tokens.drop_last(), token)
    }
}

/// The sum of counts.
pub open spec fn sum(counts: Seq<usize>) -> nat
    decreases counts.len(),
{
    if counts.len() == 0 {
        0
    } else {
        sum(counts.drop_last()) + counts.last() as nat
    }
}

/// The text of a source as a sequence of characters.
pub open spec fn text_of(text: Option<&str>) -> Option<Seq<char>> {
    match text {
        Some(text) => Some(text@),
        None => None,
    }
}

/// The tokens of a source: those of its text, or none where there is no text.
pub open spec fn source_tokens(text: Option<Seq<char>>) -> Seq<Seq<char>> {
    match text {
        Some(text) => tokens_of(text),
        None => Seq::empty(),
    }
}

/// A token stands in a sequence as often as the sequence is long, at most,
/// and at least once if it stands in it at all.
pub proof fn lemma_occurrences_bounds(tokens: Seq<Seq<char>>, token: Seq<char>)
    ensures
        occurrences(tokens, token) <= tokens.len(),
        tokens.contains(token) <==> occurrences(tokens, token) > 0,
    decreases tokens.len(),
{
    if tokens.len() > 0 {
        let before = tokens.drop_last();
        lemma_occurrences_bounds(before, token);
        if tokens.last() == token {
            assert(tokens[tokens.len() - 1] == token);
        } else if tokens.contains(token) {
            let at = choose|at: int| 0 <= at < tokens.len() && tokens[at] == token;
            assert(before[at] == token);
        } else if before.contains(token) {
            let at = choose|at: int| 0 <= at < before.len() && before[at] == token;
            assert(tokens[at] == token);
        }
    }
}

/// No count is more than the sum of all.
pub proof fn lemma_sum_bounds(counts: Seq<usize>, at: int)
    requires
        0 <= at < counts.len(),
    ensures
        counts[at] <= sum(counts),
    decreases counts.len(),
{
    if at < counts.len() - 1 {
        lemma_sum_bounds(counts.drop_last(), at);
    }
}

/// Another count in the place of one changes the sum by their difference.
pub proof fn lemma_sum_update(counts: Seq<usize>, at: int, count: usize)
    requires
        0 <= at < counts.len(),
    ensures
        sum(counts.update(at, count)) == sum(counts) - counts[at] + count,
    decreases counts.len(),
{
    let changed = counts.update(at, count);
    if at < counts.len() - 1 {
        lemma_sum_update(counts.drop_last(), at, count);
        assert(changed.drop_last() =~= counts.drop_last().update(at, count));
    } else {
        assert(changed.drop_last() =~= counts.drop_last());
    }
}

/// What a document is: its identifier, its name, when it was made and last
/// changed, where it stands in its life cycle, how often each of its tokens
/// stands in it, and how many tokens it has.
pub struct DocumentView {
    pub id: Uuid,
    pub name: Seq<char>,
    pub created_on: Instant,
    pub last_updated_on: Instant,
    pub state: DocumentState,
    pub counts: Map<Seq<char>, usize>,
    pub total: nat,
}

/// A text, reduced to how often each token stands in it.
pub struct Document {
    pub id: Uuid,
    pub name: String,
    pub created_on: Instant,
    pub last_updated_on: Instant,
    pub state: DocumentState,
    pub tf: Table<usize>,
    pub tf_total: usize,
}

impl View for Document {
    type V = DocumentView;

    open spec fn view(&self) -> DocumentView {
        DocumentView {
            id: self.id,
            name: self.name@,
            created_on: self.created_on,
            last_updated_on: self.last_updated_on,
            state: self.state,
            counts: self.tf@,
            total: self.tf_total as nat,
        }
    }
}

/// A table of counts is sound: no count is zero, and the counts add up to
/// `total`.
pub open spec fn is_count_table(tf: Table<usize>, total: usize) -> bool {
    &&& tf.wf()
    &&& forall|at: int| 0 <= at < tf.values().len() ==> #[trigger] tf.values()[at] > 0
    &&& sum(tf.values()) == total
}

/// The counts are those of `tokens`: each token that stands there, with the
/// number of times that it does, and no other.
pub open spec fn counts_tokens(counts: Map<Seq<char>, usize>, tokens: Seq<Seq<char>>) -> bool {
    &&& forall|token: Seq<char>| #[trigger] counts.contains_key(token) <==> tokens.contains(token)
    &&& forall|token: Seq<char>| #[trigger]
        counts.contains_key(token) ==> counts[token] == occurrences(tokens, token)
}

impl Document {
    /// The document is well formed: its table of counts is sound, and their
    /// sum is the number of its tokens.
    pub open spec fn wf(&self) -> bool {
        is_count_table(self.tf, self.tf_total)
    }

    /// How often `token` stands in the document.
    pub open spec fn count_of(&self, token: Seq<char>) -> nat {
        if self.tf@.contains_key(token) {
            self.tf@[token] as nat
        } else {
            0
        }
    }

    /// The term frequency of `token` in the document.
    pub open spec fn frequency_of(&self, token: Seq<char>) -> TermFrequency {
        TermFrequency { count: self.count_of(token) as usize, total: self.tf_total }
    }

    /// The document was built from a source with this text.
    pub open spec fn holds(&self, text: Option<Seq<char>>) -> bool {
        &&& self.wf()
        &&& self@.state == DocumentState::Indexed
        &&& counts_tokens(self@.counts, source_tokens(text))
        &&& self@.total == source_tokens(text).len()
    }

    /// The document is that of the source at `path` with this text: it
    /// holds the text, and its name is the last part of the path.
    pub open spec fn describes(&self, path: Seq<char>, text: Option<Seq<char>>) -> bool {
        &&& self.holds(text)
        &&& last_part(path) == Some(self@.name)
    }

    /// Counts tokens: the table of how often each stands in `tokens`, and
    /// the number of tokens.
    pub fn count_tokens(tokens: &Vec<String>) -> (r: (Table<usize>, usize))
        ensures
            is_count_table(r.0, r.1),
            counts_tokens(r.0@, tokens.deep_view()),
            r.1 == tokens.len(),
    {
        let mut tf: Table<usize> = Table::new();
        let mut count: usize = 0;
        while count < tokens.len()
            invariant
                count <= tokens.len(),
                is_count_table(tf, count),
                counts_tokens(tf@, tokens.deep_view().take(count as int)),
            decreases tokens.len() - count,
        {
            let ghost seen = tokens.deep_view().take(count as int);
            let ghost token = tokens[count as int]@;
            let ghost before = tf;
            proof {
                broadcast use lemma_seq_contains_after_push;

                assert(tokens.deep_view().take(count + 1) =~= seen.push(token));
                assert(seen.push(token).drop_last() =~= seen);
            }
            match tf.position(tokens[count].as_str()) {
                Some(at) => {
                    let so_far = *tf.value_at(at);
                    proof {
                        tf.lemma_value_at(at as int);
                        lemma_sum_bounds(tf.values(), at as int);
                        lemma_sum_update(tf.values(), at as int, (so_far + 1) as usize);
                    }
                    tf.set_value(at, so_far + 1);
                    assert(before@.contains_key(token) && so_far == occurrences(seen, token));
                },
                None => {
                    tf.insert(tokens[count].clone(), 1);
                    proof {
                        lemma_occurrences_bounds(seen, token);
                        assert(tf.values().drop_last() =~= before.values());
                        assert(!before@.contains_key(token)) by {
                            assert(!before.keys().contains(token));
                        }
                    }
                },
            }
            proof {
                assert(tf@ == before@.insert(token, (occurrences(seen, token) + 1) as usize));
                assert forall|other: Seq<char>| #[trigger]
                    tf@.contains_key(other) implies tf@[other] == occurrences(
                    seen.push(token),
                    other,
                ) by {
                    if other != token {
                        assert(before@.contains_key(other));
                    }
                }
            }
            count += 1;
        }
        assert(tokens.deep_view().take(count as int) =~= tokens.deep_view());
        (tf, count)
    }

    /// The table of counts of a source: that of the tokens of its text, or
    /// an empty one where there is no text. It succeeds on every source.
    pub fn new_tf(text: Option<&str>) -> (r: Result<(Table<usize>, usize), ModelError>)
        ensures
            r is Ok,
            r matches Ok(found) ==> is_count_table(found.0, found.1),
            r matches Ok(found) ==> counts_tokens(found.0@, source_tokens(text_of(text))),
            r matches Ok(found) ==> found.1 == source_tokens(text_of(text)).len(),
    {
        match text {
            Some(text) => Self::tf_of(Tokenizer::tokenize(text)),
            None => {
                let tokens: Vec<String> = Vec::new();
                assert(tokens.deep_view() =~= Seq::<Seq<char>>::empty());
                Ok(Self::count_tokens(&tokens))
            },
        }
    }

    /// The table of counts of tokens, or the reason why there are no tokens.
    pub fn tf_of(tokens: Result<Vec<String>, ModelError>) -> (r: Result<
        (Table<usize>, usize),
        ModelError,
    >)
        ensures
            (match tokens {
                Ok(tokens) => r matches Ok(found) && is_count_table(found.0, found.1)
                    && counts_tokens(found.0@, tokens.deep_view()) && found.1 == tokens.len(),
                Err(e) => r == Err::<(Table<usize>, usize), ModelError>(e),
            }),
    {
        match tokens {
            Ok(tokens) => Ok(Self::count_tokens(&tokens)),
            Err(e) => Err(e),
        }
    }

    /// Puts a document together from what was found out about its source:
    /// the table of counts or the reason why there is none, and the name, if
    /// the path has one.
    pub fn assemble(
        id: Uuid,
        path: &str,
        name: Option<String>,
        found: Result<(Table<usize>, usize), ModelError>,
        created_on: Instant,
        last_updated_on: Instant,
    ) -> (r: Result<Document, ModelError>)
        ensures
            (match (found, name) {
                (Err(e), _) => r == Err::<Document, ModelError>(e),
                (Ok(_), None) => r matches Err(ModelError::MalformedPath(at)) && at@ == path@,
                (Ok(found), Some(name)) => r == Ok::<Document, ModelError>(
                    Document {
                        id,
                        name,
                        created_on,
                        last_updated_on,
                        state: DocumentState::Indexed,
                        tf: found.0,
                        tf_total: found.1,
                    },
                ),
            }),
    {
        match found {
            Err(e) => Err(e),
            Ok(found) => match name {
                None => Err(ModelError::MalformedPath(path.to_owned())),
                Some(name) => Ok(
                    Document {
                        id,
                        name,
                        created_on,
                        last_updated_on,
                        state: DocumentState::Indexed,
                        tf: found.0,
                        tf_total: found.1,
                    },
                ),
            },
        }
    }

    /// The document of a source: of the file at `path` with the text `text`,
    /// or of a path at which there is no file to read, which gives a
    /// document without tokens. The document is named by the last part of
    /// the path; a path without one is refused, and no other.
    pub fn new(path: &str, text: Option<&str>) -> (r: Result<Document, ModelError>)
        ensures
            r is Ok <==> last_part(path@) is Some,
            r matches Ok(document) ==> document.describes(path@, text_of(text)),
            r matches Err(e) ==> (e matches ModelError::MalformedPath(at) && at@ == path@),
    {
        let id = Uuid::new_v4();
        let found = Self::new_tf(text);
        let name = file_name(path);
        Self::assemble(id, path, name, found, Instant::now(), Instant::now())
    }

    /// How often `token` stands in the document, out of how many tokens.
    pub fn compute_tf(&self, token: &String) -> (tf: TermFrequency)
        requires
            self.wf(),
        ensures
            tf == self.frequency_of(token@),
            tf.count == self.count_of(token@),
            tf.total == self.tf_total,
            tf.wf(),
    {
        match self.tf.get(token.as_str()) {
            Some(count) => {
                proof {
                    let at = self.tf.keys().index_of(token@);
                    assert(0 <= at < self.tf.keys().len());
                    lemma_sum_bounds(self.tf.values(), at);
                }
                TermFrequency { count: *count, total: self.tf_total }
            },
            None => TermFrequency { count: 0, total: self.tf_total },
        }
    }
}

/// The counts of a document add up to the number of its tokens.
pub proof fn lemma_counts_add_up(document: Document)
    requires
        document.wf(),
    ensures
        sum(document.tf.values()) == document.tf_total,
        document.tf.values().len() == document.tf.keys().len(),
        document.tf.keys().no_duplicates(),
{
}

/// A term frequency is a fraction between zero and one: the number of times
/// that the token stands in the document, over the number of the document's
/// tokens. It is zero for a token that does not stand in the document, and
/// for every token where the document has no tokens.
pub proof fn lemma_term_frequency(document: Document, token: Seq<char>)
    requires
        document.wf(),
    ensures
        document.frequency_of(token).count == document.count_of(token),
        document.frequency_of(token).total == document.tf_total,
        0 <= document.frequency_of(token).count <= document.frequency_of(token).total,
        !document.tf@.contains_key(token) ==> document.frequency_of(token).is_zero(),
        document.tf_total == 0 ==> document.frequency_of(token).is_zero(),
        document.tf@.contains_key(token) ==> !document.frequency_of(token).is_zero(),
{
    if document.tf@.contains_key(token) {
        let at = document.tf.keys().index_of(token);
        assert(0 <= at < document.tf.keys().len());
        lemma_sum_bounds(document.tf.values(), at);
        assert(document.tf.values()[at] > 0);
    }
}

/// A document built from a source without text has no tokens: its table is
/// empty, its total is zero, and so is the term frequency of every token.
pub proof fn lemma_without_text(document: Document, token: Seq<char>)
    requires
        document.holds(None),
    ensures
        document.tf.keys().len() == 0,
        document.tf@ == Map::<Seq<char>, usize>::empty(),
        document.tf_total == 0,
        document.frequency_of(token) == (TermFrequency { count: 0, total: 0 }),
        document.frequency_of(token).is_zero(),
{
    let none = Seq::<Seq<char>>::empty();
    if document.tf.keys().len() > 0 {
        let first = document.tf.keys()[0];
        assert(document.tf@.contains_key(first));
        assert(none.contains(first));
    }
    assert(document.tf@ =~= Map::<Seq<char>, usize>::empty());
}

} // verus!
