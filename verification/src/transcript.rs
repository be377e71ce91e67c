//! A model of the protocol transcript capability: an order-sensitive
//! accumulator of labelled messages and scalars, as used for Fiat-Shamir
//! challenge derivation.
//!
//! The cryptographic construction a deployment layers on top (hashing the
//! appends into challenges) is outside this core.  What the contracts here
//! pin down is exactly what that construction consumes: the sequence of
//! appends, in order, label and payload included.

use vstd::prelude::*;
use crate::field::Fe;

verus! {

/// One recorded append, as stored by the transcript.
pub enum TranscriptEntry {
    /// A labelled marker message.
    Message { label: String, body: String },
    /// A labelled field scalar.
    Scalar { label: String, value: Fe },
}

/// The abstract content of one append.
pub enum TranscriptEvent {
    Message { label: Seq<char>, body: Seq<char> },
    Scalar { label: Seq<char>, value: Fe },
}

impl TranscriptEntry {
    /// The abstract content of this entry.
    pub open spec fn model(&self) -> TranscriptEvent {
        match self {
            TranscriptEntry::Message { label, body } => TranscriptEvent::Message {
                label: label@,
                body: body@,
            },
            TranscriptEntry::Scalar { label, value } => TranscriptEvent::Scalar {
                label: label@,
                value: *value,
            },
        }
    }
}

/// An order-sensitive log of protocol appends.
pub struct Transcript {
    entries: Vec<TranscriptEntry>,
}

impl View for Transcript {
    type V = Seq<TranscriptEvent>;

    closed spec fn view(&self) -> Seq<TranscriptEvent> {
        self.entries@.map_values(|e: TranscriptEntry| e.model())
    }
}

impl Transcript {
    /// An empty transcript.
    pub fn new() -> (r: Transcript)
        ensures
            r@ == Seq::<TranscriptEvent>::empty(),
    {
        let t = Transcript { entries: Vec::new() };
        proof {
            assert(t@ =~= Seq::<TranscriptEvent>::empty());
        }
        t
    }

    /// Append a labelled marker message.
    pub fn append_message(&mut self, label: &str, body: &str)
        ensures
            final(self)@ == old(self)@.push(
                TranscriptEvent::Message { label: label@, body: body@ },
            ),
    {
        let entry = TranscriptEntry::Message { label: label.to_owned(), body: body.to_owned() };
        self.entries.push(entry);
        proof {
            assert(self@ =~= old(self)@.push(
                TranscriptEvent::Message { label: label@, body: body@ },
            ));
        }
    }

    /// Append a labelled field scalar.
    pub fn append_scalar(&mut self, label: &str, value: &Fe)
        ensures
            final(self)@ == old(self)@.push(
                TranscriptEvent::Scalar { label: label@, value: *value },
            ),
    {
        let entry = TranscriptEntry::Scalar { label: label.to_owned(), value: *value };
        self.entries.push(entry);
        proof {
            assert(self@ =~= old(self)@.push(
                TranscriptEvent::Scalar { label: label@, value: *value },
            ));
        }
    }

    /// The number of recorded appends.
    pub fn len(&self) -> (r: usize)
        ensures
            r == self@.len(),
    {
        self.entries.len()
    }

    /// The recorded appends, for inspection.
    pub fn entries(&self) -> (r: &Vec<TranscriptEntry>)
        ensures
            r@.len() == self@.len(),
            forall|i: int| 0 <= i < r@.len() ==> (#[trigger] r@[i]).model() == self@[i],
    {
        &self.entries
    }
}

} // verus!
