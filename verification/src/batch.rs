//! Grouping a stream of lines into batches of a fixed size.
//!
//! The distributor takes the lines one by one. Whenever its buffer reaches the
//! chunk size it hands the buffer out as a batch; at the end of the stream it
//! hands out what is left. It also counts the lines that it was given.

use vstd::prelude::*;

verus! {

/// The number of lines that fill a batch: the chunk size, and one line where
/// the chunk size is zero.
pub open spec fn batch_len(chunk_size: nat) -> nat {
    if chunk_size == 0 {
        1
    } else {
        chunk_size
    }
}

/// The batches into which `lines` fall: consecutive runs of `batch_len` lines,
/// the last one possibly shorter, none empty.
pub open spec fn batches_of<A>(lines: Seq<A>, chunk_size: nat) -> Seq<Seq<A>>
    decreases lines.len(),
{
    let full = batch_len(chunk_size) as int;
    if lines.len() == 0 {
        Seq::empty()
    } else if lines.len() <= full {
        seq![lines]
    } else {
        seq![lines.take(full)] + batches_of(lines.skip(full), chunk_size)
    }
}

/// The mathematical state of a [`Distributor`].
pub struct DistributorView {
    /// The configured size of a batch.
    pub chunk_size: nat,
    /// The lines taken since the last batch was handed out.
    pub pending: Seq<Seq<char>>,
    /// The number of lines taken so far.
    pub line_count: nat,
}

impl DistributorView {
    /// The state before the first line.
    pub open spec fn start(chunk_size: nat) -> DistributorView {
        DistributorView { chunk_size, pending: Seq::empty(), line_count: 0 }
    }

    /// Whether the state is one that a distributor can be in: it holds fewer
    /// lines than fill a batch.
    pub open spec fn wf(self) -> bool {
        self.pending.len() < batch_len(self.chunk_size)
    }

    /// The batch that taking `line` completes, if it completes one.
    pub open spec fn push_batch(self, line: Seq<char>) -> Option<Seq<Seq<char>>> {
        let grown = self.pending.push(line);
        if grown.len() >= self.chunk_size {
            Some(grown)
        } else {
            None
        }
    }

    /// The state after taking `line`.
    pub open spec fn push(self, line: Seq<char>) -> DistributorView {
        DistributorView {
            chunk_size: self.chunk_size,
            pending: if self.push_batch(line) is Some {
                Seq::empty()
            } else {
                self.pending.push(line)
            },
            line_count: self.line_count + 1,
        }
    }

    /// The batch that is handed out at the end of the stream: the pending
    /// lines, if there are any.
    pub open spec fn finish_batch(self) -> Option<Seq<Seq<char>>> {
        if self.pending.len() > 0 {
            Some(self.pending)
        } else {
            None
        }
    }

    /// The batches that are handed out while `lines` are taken one by one, and
    /// at the end of the stream.
    pub open spec fn run(self, lines: Seq<Seq<char>>) -> Seq<Seq<Seq<char>>>
        decreases lines.len(),
    {
        if lines.len() == 0 {
            match self.finish_batch() {
                Some(batch) => seq![batch],
                None => Seq::empty(),
            }
        } else {
            let rest = self.push(lines.first()).run(lines.drop_first());
            match self.push_batch(lines.first()) {
                Some(batch) => seq![batch] + rest,
                None => rest,
            }
        }
    }

    /// The state after `lines` were taken one by one.
    pub open spec fn after(self, lines: Seq<Seq<char>>) -> DistributorView
        decreases lines.len(),
    {
        if lines.len() == 0 {
            self
        } else {
            self.push(lines.first()).after(lines.drop_first())
        }
    }
}

/// Groups a stream of lines into batches.
pub struct Distributor {
    chunk_size: usize,
    buffer: Vec<String>,
    line_count: u64,
}

impl View for Distributor {
    type V = DistributorView;

    closed spec fn view(&self) -> DistributorView {
        DistributorView {
            chunk_size: self.chunk_size as nat,
            pending: self.buffer.deep_view(),
            line_count: self.line_count as nat,
        }
    }
}

impl Distributor {
    /// A distributor that has taken no line yet.
    pub fn new(chunk_size: usize) -> (distributor: Self)
        ensures
            distributor@ == DistributorView::start(chunk_size as nat),
            distributor@.wf(),
    {
        let distributor = Distributor { chunk_size, buffer: Vec::new(), line_count: 0 };
        assert(distributor.buffer.deep_view() =~= Seq::<Seq<char>>::empty());
        distributor
    }

    /// The configured size of a batch.
    pub fn chunk_size(&self) -> (n: usize)
        ensures
            n == self@.chunk_size,
    {
        self.chunk_size
    }

    /// The number of lines taken so far.
    pub fn line_count(&self) -> (n: u64)
        ensures
            n == self@.line_count,
    {
        self.line_count
    }

    /// Takes the next line of the stream. Returns the batch that this line
    /// completes, if it completes one.
    pub fn push(&mut self, line: String) -> (batch: Option<Vec<String>>)
        requires
            old(self)@.line_count < u64::MAX,
        ensures
            final(self)@ == old(self)@.push(line@),
            match batch {
                Some(lines) => old(self)@.push_batch(line@) == Some(lines.deep_view()),
                None => old(self)@.push_batch(line@) is None,
            },
    {
        let ghost before = self.buffer.deep_view();
        self.buffer.push(line);
        self.line_count = self.line_count + 1;
        assert(self.buffer.deep_view() =~= before.push(line@));
        if self.buffer.len() >= self.chunk_size {
            let mut batch: Vec<String> = Vec::new();
            std::mem::swap(&mut self.buffer, &mut batch);
            assert(self.buffer.deep_view() =~= Seq::<Seq<char>>::empty());
            Some(batch)
        } else {
            None
        }
    }

    /// Ends the stream. Returns the last batch, if any line is pending, and
    /// the number of lines that were taken.
    pub fn finish(self) -> (r: (Option<Vec<String>>, u64))
        ensures
            match r.0 {
                Some(lines) => self@.finish_batch() == Some(lines.deep_view()),
                None => self@.finish_batch() is None,
            },
            r.1 == self@.line_count,
    {
        if self.buffer.len() > 0 {
            (Some(self.buffer), self.line_count)
        } else {
            (None, self.line_count)
        }
    }
}

/// A distributor never holds a full batch: it hands the batch out with the
/// line that completes it.
pub proof fn lemma_push_wf(state: DistributorView, line: Seq<char>)
    requires
        state.wf(),
    ensures
        state.push(line).wf(),
        state.push_batch(line) is Some ==> state.push_batch(line)->0.len() == batch_len(
            state.chunk_size,
        ),
{
}

/// Whatever the chunk size, the batches that a distributor hands out are the
/// consecutive runs of the lines it has pending and the lines it is given.
pub proof fn lemma_run_is_batches(state: DistributorView, lines: Seq<Seq<char>>)
    requires
        state.wf(),
    ensures
        state.run(lines) == batches_of(state.pending + lines, state.chunk_size),
    decreases lines.len(),
{
    let full = batch_len(state.chunk_size) as int;
    let all = state.pending + lines;
    if lines.len() == 0 {
        assert(all =~= state.pending);
        if state.pending.len() > 0 {
            assert(batches_of(all, state.chunk_size) == seq![all]);
        }
    } else {
        let grown = state.pending.push(lines.first());
        let rest = lines.drop_first();
        let next = state.push(lines.first());
        lemma_run_is_batches(next, rest);
        assert(all =~= grown + rest);
        if state.push_batch(lines.first()) is Some {
            assert(grown.len() == full);
            assert(next.pending + rest =~= rest);
            if rest.len() == 0 {
                assert(all =~= grown);
                assert(batches_of(rest, state.chunk_size) =~= Seq::<Seq<Seq<char>>>::empty());
                assert(state.run(lines) =~= seq![grown]);
            } else {
                assert(all.take(full) =~= grown);
                assert(all.skip(full) =~= rest);
            }
        } else {
            assert(next.pending + rest =~= all);
        }
    }
}

/// The batches of a whole stream, as a fresh distributor hands them out, are
/// `batches_of` the stream.
pub proof fn lemma_distribute(lines: Seq<Seq<char>>, chunk_size: nat)
    ensures
        DistributorView::start(chunk_size).run(lines) == batches_of(lines, chunk_size),
{
    let start = DistributorView::start(chunk_size);
    lemma_run_is_batches(start, lines);
    assert(start.pending + lines =~= lines);
}

/// The batches hold every line once, in the order of the stream: put end to
/// end they are the stream again.
pub proof fn lemma_batches_flatten<A>(lines: Seq<A>, chunk_size: nat)
    ensures
        batches_of(lines, chunk_size).flatten() == lines,
    decreases lines.len(),
{
    let full = batch_len(chunk_size) as int;
    let batches = batches_of(lines, chunk_size);
    if lines.len() == 0 {
        assert(batches.flatten() =~= lines);
    } else if lines.len() <= full {
        batches.lemma_flatten_singleton();
    } else {
        let head = seq![lines.take(full)];
        let tail = batches_of(lines.skip(full), chunk_size);
        lemma_batches_flatten(lines.skip(full), chunk_size);
        vstd::seq_lib::lemma_flatten_concat(head, tail);
        head.lemma_flatten_singleton();
        assert(lines.take(full) + lines.skip(full) =~= lines);
    }
}

/// No batch is empty, none holds more than `batch_len` lines, and only the
/// last may hold fewer.
pub proof fn lemma_batches_sizes<A>(lines: Seq<A>, chunk_size: nat, k: int)
    requires
        0 <= k < batches_of(lines, chunk_size).len(),
    ensures
        0 < batches_of(lines, chunk_size)[k].len() <= batch_len(chunk_size),
        k + 1 < batches_of(lines, chunk_size).len() ==> batches_of(lines, chunk_size)[k].len()
            == batch_len(chunk_size),
    decreases lines.len(),
{
    let full = batch_len(chunk_size) as int;
    if lines.len() > full && k > 0 {
        lemma_batches_sizes(lines.skip(full), chunk_size, k - 1);
    }
}

/// The line count of a distributor grows by one with each line it takes.
pub proof fn lemma_line_count(state: DistributorView, lines: Seq<Seq<char>>)
    ensures
        state.after(lines).line_count == state.line_count + lines.len(),
        state.after(lines).chunk_size == state.chunk_size,
    decreases lines.len(),
{
    if lines.len() > 0 {
        lemma_line_count(state.push(lines.first()), lines.drop_first());
    }
}

} // verus!
