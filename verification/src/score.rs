use crate::frequency::{lemma_score_order, Score};
use std::cmp::Ordering;
use vstd::prelude::*;
use vstd::std_specs::cmp::{PartialEqSpec, PartialOrdSpec};

verus! {

/// A value together with the score by which it is ranked. Only the score
/// takes part in comparisons; the value is carried along.
///
/// Pairs are ordered against their scores: the pair with the greater score
/// is the lesser pair, so that a sequence of pairs in rising order starts
/// with the most relevant. Two pairs can be compared where their scores can,
/// that is where both were computed for one token in one corpus.
pub struct ScoreDoc<T> {
    pub priority: Score,
    pub value: T,
}

impl<T> ScoreDoc<T> {
    /// Binds a score to a value.
    pub fn new(priority: Score, value: T) -> (pair: ScoreDoc<T>)
        ensures
            pair.priority == priority,
            pair.value == value,
    {
        ScoreDoc { priority, value }
    }
}

impl<T> PartialEq for ScoreDoc<T> {
    /// Two pairs are equal when their scores have one value.
    fn eq(&self, other: &Self) -> (r: bool) {
        self.priority.same_as(&other.priority)
    }
}

impl<T> vstd::std_specs::cmp::PartialEqSpecImpl for ScoreDoc<T> {
    open spec fn obeys_eq_spec() -> bool {
        true
    }

    open spec fn eq_spec(&self, other: &Self) -> bool {
        self.priority.same(other.priority)
    }
}

impl<T> PartialOrd for ScoreDoc<T> {
    /// The order of two pairs, which is that of their scores turned round.
    fn partial_cmp(&self, other: &Self) -> (r: Option<Ordering>) {
        if !self.priority.comparable_with(&other.priority) {
            None
        } else if self.priority.less_than(&other.priority) {
            Some(Ordering::Greater)
        } else if other.priority.less_than(&self.priority) {
            Some(Ordering::Less)
        } else {
            Some(Ordering::Equal)
        }
    }
}

impl<T> vstd::std_specs::cmp::PartialOrdSpecImpl for ScoreDoc<T> {
    open spec fn obeys_partial_cmp_spec() -> bool {
        true
    }

    open spec fn partial_cmp_spec(&self, other: &Self) -> Option<Ordering> {
        if !self.priority.comparable(other.priority) {
            None
        } else if self.priority.lt(other.priority) {
            Some(Ordering::Greater)
        } else if other.priority.lt(self.priority) {
            Some(Ordering::Less)
        } else {
            Some(Ordering::Equal)
        }
    }
}

/// Pairs are ordered against their scores, whatever they carry: a pair is
/// less than another exactly when its score is the greater one, the two are
/// equal exactly when their scores have one value, and they are not compared
/// exactly when their scores cannot be.
pub proof fn lemma_pairs_are_ordered_against_scores<T>(a: ScoreDoc<T>, b: ScoreDoc<T>)
    ensures
        a.partial_cmp_spec(&b) == Some(Ordering::Less) <==> b.priority.lt(a.priority),
        a.partial_cmp_spec(&b) == Some(Ordering::Greater) <==> a.priority.lt(b.priority),
        a.partial_cmp_spec(&b) == Some(Ordering::Equal) <==> a.priority.same(b.priority),
        a.partial_cmp_spec(&b) is None <==> !a.priority.comparable(b.priority),
        a.eq_spec(&b) <==> a.partial_cmp_spec(&b) == Some(Ordering::Equal),
{
    lemma_score_order(a.priority, b.priority, a.priority);
}

/// The order of pairs is one that a sorted sequence can be built on: a pair
/// that is less than or equal to a second, which is less than or equal to a
/// third, is less than or equal to the third, and less than it unless both
/// steps are equalities.
pub proof fn lemma_pairs_order_is_transitive<T>(a: ScoreDoc<T>, b: ScoreDoc<T>, c: ScoreDoc<T>)
    requires
        a.partial_cmp_spec(&b) == Some(Ordering::Less) || a.partial_cmp_spec(&b) == Some(
            Ordering::Equal,
        ),
        b.partial_cmp_spec(&c) == Some(Ordering::Less) || b.partial_cmp_spec(&c) == Some(
            Ordering::Equal,
        ),
    ensures
        a.partial_cmp_spec(&c) == Some(Ordering::Less) || a.partial_cmp_spec(&c) == Some(
            Ordering::Equal,
        ),
        a.partial_cmp_spec(&c) == Some(Ordering::Equal) <==> a.partial_cmp_spec(&b) == Some(
            Ordering::Equal,
        ) && b.partial_cmp_spec(&c) == Some(Ordering::Equal),
{
    lemma_pairs_are_ordered_against_scores(a, b);
    lemma_pairs_are_ordered_against_scores(b, c);
    lemma_pairs_are_ordered_against_scores(a, c);
    lemma_score_order(a.priority, b.priority, c.priority);
    lemma_score_order(c.priority, b.priority, a.priority);
}

} // verus!
