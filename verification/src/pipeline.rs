//! What a worker sees of the stream.
//!
//! A worker is handed the batches in the order in which they were published
//! and splits the lines of each. The records it gets that way are the records
//! of the stream, whatever the size of the batches.

use vstd::prelude::*;
use crate::batch::batches_of;
use crate::record::{lemma_records_of_concat, parse_record, records_of, RecordView};

verus! {

/// The records that a worker gets from `batches`, taken one batch after the
/// other.
pub open spec fn worker_records(batches: Seq<Seq<Seq<char>>>) -> Seq<RecordView>
    decreases batches.len(),
{
    if batches.len() == 0 {
        Seq::empty()
    } else {
        worker_records(batches.drop_last()) + records_of(batches.last())
    }
}

/// Splitting batch by batch gives the records of the lines put end to end.
pub proof fn lemma_worker_records(batches: Seq<Seq<Seq<char>>>)
    ensures
        worker_records(batches) == records_of(batches.flatten()),
    decreases batches.len(),
{
    if batches.len() == 0 {
        assert(batches.flatten() =~= Seq::<Seq<char>>::empty());
        assert(records_of(batches.flatten()) =~= Seq::<RecordView>::empty());
    } else {
        let head = batches.drop_last();
        lemma_worker_records(head);
        head.lemma_flatten_push(batches.last());
        assert(head.push(batches.last()) =~= batches);
        lemma_records_of_concat(head.flatten(), batches.last());
    }
}

/// The size of the batches does not change what a worker gets: with any chunk
/// size it gets the records of the stream, in the order of the stream.
pub proof fn lemma_chunk_size_invariance(lines: Seq<Seq<char>>, chunk_size: nat)
    ensures
        worker_records(batches_of(lines, chunk_size)) == records_of(lines),
{
    lemma_worker_records(batches_of(lines, chunk_size));
    crate::batch::lemma_batches_flatten(lines, chunk_size);
}

/// A line that is no record changes nothing but the number of lines: with
/// or without it, the stream holds the same records.
pub proof fn lemma_skipped_line(before: Seq<Seq<char>>, line: Seq<char>, after: Seq<Seq<char>>)
    requires
        parse_record(line) is None,
    ensures
        records_of(before + seq![line] + after) == records_of(before + after),
        (before + seq![line] + after).len() == (before + after).len() + 1,
{
    lemma_records_of_concat(before + seq![line], after);
    lemma_records_of_concat(before, seq![line]);
    lemma_records_of_concat(before, after);
    assert(records_of(seq![line]) =~= Seq::<RecordView>::empty()) by {
        assert(seq![line].drop_last() =~= Seq::<Seq<char>>::empty());
        reveal_with_fuel(Seq::filter_map, 2);
    }
    assert(records_of(before) + Seq::<RecordView>::empty() =~= records_of(before));
}

} // verus!
