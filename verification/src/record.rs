//! A record is one registered alternative: an immutable (target, priority)
//! pair. Records compete under a shared name; the one that `beats` all the
//! others is the current selection.

use vstd::prelude::*;
use crate::order::{lex_lt, lemma_lex_connex, lemma_lex_asymmetric, lemma_lex_transitive, bytes_lt};

verus! {

/// The byte that terminates each record line in the on-disk format.
pub const NEWLINE: u8 = 10;

/// `s` is free of the line terminator, and so can be stored on one line.
pub open spec fn no_newline(s: Seq<u8>) -> bool {
    forall|i: int| 0 <= i < s.len() ==> s[i] != NEWLINE
}

/// Decides whether a target can be stored: the line format has no room for
/// a line terminator inside a target.
pub fn target_storable(t: &[u8]) -> (r: bool)
    ensures
        r == no_newline(t@),
{
    let mut i: usize = 0;
    while i < t.len()
        invariant
            0 <= i <= t@.len(),
            forall|k: int| 0 <= k < i ==> t@[k] != NEWLINE,
        decreases t@.len() - i,
    {
        if t[i] == NEWLINE {
            proof {
                assert(t@[i as int] == NEWLINE);
            }
            return false;
        }
        i = i + 1;
    }
    true
}

/// One registered alternative: a filesystem target path (as bytes) and the
/// priority it competes with. Immutable once constructed.
pub struct Record {
    target: Vec<u8>,
    priority: i32,
}

/// Mathematical model of a [`Record`].
#[verifier::ext_equal]
pub ghost struct RecordView {
    pub target: Seq<u8>,
    pub priority: int,
}

impl View for Record {
    type V = RecordView;

    closed spec fn view(&self) -> RecordView {
        RecordView { target: self.target@, priority: self.priority as int }
    }
}

impl Record {
    /// Builds a record from a target path and a priority.
    pub fn from_parts(target: Vec<u8>, priority: i32) -> (r: Record)
        ensures
            r@ == (RecordView { target: target@, priority: priority as int }),
    {
        Record { target, priority }
    }

    /// The target path this record points at.
    pub fn target(&self) -> (r: &Vec<u8>)
        ensures
            r@ == self@.target,
    {
        &self.target
    }

    /// The priority this record competes with; higher wins.
    pub fn priority(&self) -> (r: i32)
        ensures
            r as int == self@.priority,
    {
        self.priority
    }
}

/// `a` wins over `b`: strictly higher priority, or equal priority and a
/// lexicographically smaller target. The tie-break makes resolution a pure
/// function of the stored set of records.
pub open spec fn beats(a: RecordView, b: RecordView) -> bool {
    ||| a.priority > b.priority
    ||| (a.priority == b.priority && lex_lt(a.target, b.target))
}

/// Decides whether `a` wins over `b`.
pub fn record_beats(a: &Record, b: &Record) -> (r: bool)
    ensures
        r == beats(a@, b@),
{
    if a.priority > b.priority {
        true
    } else if a.priority == b.priority {
        bytes_lt(a.target.as_slice(), b.target.as_slice())
    } else {
        false
    }
}

/// Records with distinct targets are always comparable: one of them wins.
pub proof fn lemma_beats_total(a: RecordView, b: RecordView)
    requires
        a.target != b.target,
    ensures
        beats(a, b) || beats(b, a),
{
    if a.priority == b.priority {
        lemma_lex_connex(a.target, b.target);
    }
}

/// At most one of `a` wins over `b`, `b` wins over `a` holds.
pub proof fn lemma_beats_asymmetric(a: RecordView, b: RecordView)
    requires
        beats(a, b),
    ensures
        !beats(b, a),
{
    if a.priority == b.priority {
        lemma_lex_asymmetric(a.target, b.target);
    }
}

/// Winning is transitive.
pub proof fn lemma_beats_transitive(a: RecordView, b: RecordView, c: RecordView)
    requires
        beats(a, b),
        beats(b, c),
    ensures
        beats(a, c),
{
    if a.priority == b.priority && b.priority == c.priority {
        lemma_lex_transitive(a.target, b.target, c.target);
    }
}

} // verus!
