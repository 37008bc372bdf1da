//! The batching state machine. Rows are written in chunks, one transaction
//! for each: the machine says, for every row that was read, what the store
//! has to be told. The caller reads the rows and talks to the store.

use vstd::prelude::*;
use crate::error::IngestError;
use crate::record::{
    first_failure, known_after, normalized, read_record, RawRecord, RedditPixel,
};
use crate::registry::{
    learn, learn_all, lemma_learn, lemma_surrogate_range, surrogate, IdentifierRegistry,
};

verus! {

/// The number of rows that one transaction holds.
pub const CHUNK_SIZE: usize = 100_000;

/// What the caller has found when it went for the next row, or when it
/// told the store what the last step asked for.
#[derive(Clone, Debug)]
pub enum Event {
    /// The store did all it was told, and the reader gave a row.
    Row(RawRecord),
    /// The store did all it was told, and the input has no more rows.
    EndOfInput,
    /// The store did all it was told, but reading, decompressing or
    /// tokenising failed.
    ReadFailed,
    /// The store failed at one of the actions of the last step; it did
    /// those before it and none behind it.
    StorageFailed,
}

/// An event as far as the batching depends on it: a row is either a pixel
/// event or a failure.
#[derive(Clone, Copy, Debug, PartialEq, Eq, Structural)]
pub enum Outcome {
    /// A row that is good.
    Pixel(RedditPixel),
    /// A row that is bad, or input that cannot be read.
    Rejected(IngestError),
    /// The end of the input.
    End,
    /// The store failed at an action of the last step.
    StoreFailed,
}

/// What the caller has to tell the store.
#[derive(Clone, Copy, Debug, PartialEq, Eq, Structural)]
pub enum Action {
    /// Open a transaction.
    Begin,
    /// Insert this row in the open transaction.
    Insert(RedditPixel),
    /// Commit the open transaction.
    Commit,
    /// Drop the open transaction, if there is one, with all its rows.
    Rollback,
}

/// Where a run stands.
#[derive(Clone, Copy, Debug, PartialEq, Eq, Structural)]
pub enum Status {
    /// Rows are still taken.
    Running,
    /// The input ended and the last chunk was handed to the store.
    Finished,
    /// The run was given up for this reason.
    Failed(IngestError),
}

/// The state of the batching: how many rows of the current chunk have
/// been handed to the store (at 0 the next row begins a chunk), and
/// whether the run still goes on.
#[derive(Clone, Copy, Debug, PartialEq, Eq, Structural)]
pub struct Pipeline {
    pub chunk_size: usize,
    pub in_chunk: usize,
    pub status: Status,
}

/// What the store holds, as far as the batching is concerned: the rows of
/// the committed transactions, and those of the open one.
pub struct Store {
    pub committed: Seq<RedditPixel>,
    pub pending: Seq<RedditPixel>,
}

/// What an event means to the batching when the identifiers `known` have
/// been seen before it.
pub open spec fn outcome_of(event: Event, known: Seq<Seq<char>>) -> Outcome {
    match event {
        Event::Row(record) => match normalized(record@, known) {
            Ok(pixel) => Outcome::Pixel(pixel),
            Err(e) => Outcome::Rejected(e),
        },
        Event::EndOfInput => Outcome::End,
        Event::ReadFailed => Outcome::Rejected(IngestError::Io),
        Event::StorageFailed => Outcome::StoreFailed,
    }
}

/// The identifiers known after an event.
pub open spec fn known_after_event(event: Event, known: Seq<Seq<char>>) -> Seq<Seq<char>> {
    match event {
        Event::Row(record) => known_after(record@, known),
        _ => known,
    }
}

/// The state after an outcome, and what the store is told.
///
/// A pixel is inserted, behind a `Begin` where it is the first of its
/// chunk and before a `Commit` where it fills the chunk. The end of the
/// input commits what is open. A bad row rolls back what is open and ends
/// the run; once the run has ended, rows and the end of the input are
/// passed over. A failure of the store is always answered with a
/// `Rollback`, also when the last step has asked for the `Commit`: the
/// store may have failed before it came to that. Only a run that has
/// failed already takes no notice.
pub open spec fn decide(p: Pipeline, outcome: Outcome) -> (Pipeline, Seq<Action>) {
    match outcome {
        Outcome::StoreFailed => if p.status is Failed {
            (p, Seq::empty())
        } else {
            (
                Pipeline { in_chunk: 0, status: Status::Failed(IngestError::Storage), ..p },
                seq![Action::Rollback],
            )
        },
        _ => if p.status != Status::Running {
            (p, Seq::empty())
        } else {
            match outcome {
                Outcome::Pixel(pixel) => {
                    let opening = if p.in_chunk == 0 {
                        seq![Action::Begin]
                    } else {
                        Seq::empty()
                    };
                    if p.in_chunk + 1 == p.chunk_size {
                        (
                            Pipeline { in_chunk: 0, ..p },
                            opening + seq![Action::Insert(pixel), Action::Commit],
                        )
                    } else {
                        (
                            Pipeline { in_chunk: (p.in_chunk + 1) as usize, ..p },
                            opening + seq![Action::Insert(pixel)],
                        )
                    }
                },
                Outcome::Rejected(e) => (
                    Pipeline { in_chunk: 0, status: Status::Failed(e), ..p },
                    if p.in_chunk > 0 {
                        seq![Action::Rollback]
                    } else {
                        Seq::empty()
                    },
                ),
                _ => (
                    Pipeline { in_chunk: 0, status: Status::Finished, ..p },
                    if p.in_chunk > 0 {
                        seq![Action::Commit]
                    } else {
                        Seq::empty()
                    },
                ),
            }
        },
    }
}

impl Pipeline {
    /// The current chunk is never full, and none is begun once the run
    /// has ended.
    pub open spec fn wf(&self) -> bool {
        &&& self.in_chunk < self.chunk_size
        &&& self.status != Status::Running ==> self.in_chunk == 0
    }

    /// The state before the first row, for chunks of `chunk_size` rows.
    pub open spec fn start(chunk_size: usize) -> Pipeline {
        Pipeline { chunk_size, in_chunk: 0, status: Status::Running }
    }

    /// Starts a run that commits after every `chunk_size` rows.
    pub fn new(chunk_size: usize) -> (p: Pipeline)
        requires
            chunk_size > 0,
        ensures
            p == Pipeline::start(chunk_size),
            p.wf(),
    {
        Pipeline { chunk_size, in_chunk: 0, status: Status::Running }
    }

    /// Takes one outcome: moves to the next state and says what the store
    /// has to be told, in this order.
    pub fn advance(&mut self, outcome: Outcome) -> (actions: Vec<Action>)
        requires
            old(self).wf(),
        ensures
            final(self).wf(),
            (*final(self), actions@) == decide(*old(self), outcome),
    {
        let mut actions: Vec<Action> = Vec::new();
        match outcome {
            Outcome::StoreFailed => {
                match self.status {
                    Status::Failed(_) => {},
                    _ => {
                        actions.push(Action::Rollback);
                        self.in_chunk = 0;
                        self.status = Status::Failed(IngestError::Storage);
                    },
                }
                assert(actions@ =~= decide(*old(self), outcome).1);
                return actions;
            },
            _ => {},
        }
        match self.status {
            Status::Running => {},
            _ => {
                return actions;
            },
        }
        match outcome {
            Outcome::Pixel(pixel) => {
                if self.in_chunk == 0 {
                    actions.push(Action::Begin);
                }
                actions.push(Action::Insert(pixel));
                if self.in_chunk + 1 == self.chunk_size {
                    actions.push(Action::Commit);
                    self.in_chunk = 0;
                } else {
                    self.in_chunk = self.in_chunk + 1;
                }
            },
            Outcome::Rejected(e) => {
                if self.in_chunk > 0 {
                    actions.push(Action::Rollback);
                }
                self.in_chunk = 0;
                self.status = Status::Failed(e);
            },
            _ => {
                if self.in_chunk > 0 {
                    actions.push(Action::Commit);
                }
                self.in_chunk = 0;
                self.status = Status::Finished;
            },
        }
        assert(actions@ =~= decide(*old(self), outcome).1);
        actions
    }

    /// Takes one event. A row is normalised against the registry first,
    /// unless the run has ended: then the row is passed over and the
    /// registry stays as it is.
    pub fn step(&mut self, event: Event, registry: &mut IdentifierRegistry) -> (actions: Vec<
        Action,
    >)
        requires
            old(self).wf(),
            old(registry).wf(),
            event matches Event::Row(record) ==> old(registry)@.len() < i64::MAX || (record@.len()
                >= 2 && old(registry)@.contains(record@[1])),
        ensures
            final(self).wf(),
            final(registry).wf(),
            (*final(self), actions@) == decide(*old(self), outcome_of(event, old(registry)@)),
            final(registry)@ == if old(self).status == Status::Running {
                known_after_event(event, old(registry)@)
            } else {
                old(registry)@
            },
    {
        let outcome = match event {
            Event::Row(record) => {
                match self.status {
                    Status::Running => {},
                    _ => {
                        return Vec::new();
                    },
                }
                match read_record(&record, registry) {
                    Ok(pixel) => Outcome::Pixel(pixel),
                    Err(e) => Outcome::Rejected(e),
                }
            },
            Event::EndOfInput => Outcome::End,
            Event::ReadFailed => Outcome::Rejected(IngestError::Io),
            Event::StorageFailed => Outcome::StoreFailed,
        };
        self.advance(outcome)
    }
}

/// The store after it did `action`.
pub open spec fn apply(store: Store, action: Action) -> Store {
    match action {
        Action::Begin => Store { committed: store.committed, pending: Seq::empty() },
        Action::Insert(pixel) => Store {
            committed: store.committed,
            pending: store.pending.push(pixel),
        },
        Action::Commit => Store {
            committed: store.committed + store.pending,
            pending: Seq::empty(),
        },
        Action::Rollback => Store { committed: store.committed, pending: Seq::empty() },
    }
}

/// The store after it did `actions`, one after the other.
pub open spec fn apply_all(store: Store, actions: Seq<Action>) -> Store
    decreases actions.len(),
{
    if actions.len() == 0 {
        store
    } else {
        apply(apply_all(store, actions.drop_last()), actions.last())
    }
}

/// What the store did of the actions it was told: all of them where
/// `failed_at` is `None`; otherwise those before the one at which it
/// failed. The action at which the store fails leaves it as it was, and
/// those behind it are not done.
pub open spec fn done_of(actions: Seq<Action>, failed_at: Option<int>) -> Seq<Action> {
    match failed_at {
        Some(n) => if 0 <= n < actions.len() {
            actions.take(n)
        } else {
            actions
        },
        None => actions,
    }
}

/// The state and the store after the steps `told` were taken in turn.
/// Each step is an outcome, together with how far the store came with
/// what `decide` asked for.
pub open spec fn run(p: Pipeline, store: Store, told: Seq<(Outcome, Option<int>)>) -> (
    Pipeline,
    Store,
)
    decreases told.len(),
{
    if told.len() == 0 {
        (p, store)
    } else {
        let before = run(p, store, told.drop_last());
        let step = decide(before.0, told.last().0);
        (step.0, apply_all(before.1, done_of(step.1, told.last().1)))
    }
}

/// A store in which nothing is committed and nothing is open.
pub open spec fn empty_store() -> Store {
    Store { committed: Seq::empty(), pending: Seq::empty() }
}

/// The pixel events as steps at which the store does all it is told.
pub open spec fn pixels_as_steps(pixels: Seq<RedditPixel>) -> Seq<(Outcome, Option<int>)> {
    Seq::new(pixels.len(), |i: int| (Outcome::Pixel(pixels[i]), None::<int>))
}

/// The number of rows, out of `n`, that lie in chunks that are full.
pub open spec fn in_whole_chunks(n: int, chunk_size: int) -> int {
    n - n % chunk_size
}

/// `shorter` is the beginning of `longer`.
pub open spec fn begins(shorter: Seq<RedditPixel>, longer: Seq<RedditPixel>) -> bool {
    shorter.len() <= longer.len() && longer.take(shorter.len() as int) == shorter
}

proof fn lemma_apply_short(store: Store, a: Action, b: Action, c: Action)
    ensures
        apply_all(store, Seq::empty()) == store,
        apply_all(store, seq![a]) == apply(store, a),
        apply_all(store, seq![a, b]) == apply(apply(store, a), b),
        apply_all(store, seq![a, b, c]) == apply(apply(apply(store, a), b), c),
{
    reveal_with_fuel(apply_all, 4);
    assert(seq![a].drop_last() =~= Seq::<Action>::empty());
    assert(seq![a, b].drop_last() =~= seq![a]);
    assert(seq![a, b, c].drop_last() =~= seq![a, b]);
}

/// Whatever the store does, it keeps what is committed: actions only add
/// to it.
pub proof fn lemma_apply_keeps_committed(store: Store, actions: Seq<Action>)
    ensures
        begins(store.committed, apply_all(store, actions).committed),
        (forall|i: int| 0 <= i < actions.len() ==> actions[i] != Action::Commit) ==> apply_all(
            store,
            actions,
        ).committed == store.committed,
    decreases actions.len(),
{
    if actions.len() == 0 {
        assert(store.committed.take(store.committed.len() as int) =~= store.committed);
    } else {
        let shorter = actions.drop_last();
        lemma_apply_keeps_committed(store, shorter);
        let before = apply_all(store, shorter);
        let after = apply_all(store, actions);
        assert(after.committed.take(store.committed.len() as int) =~= before.committed.take(
            store.committed.len() as int,
        ));
        if forall|i: int| 0 <= i < actions.len() ==> actions[i] != Action::Commit {
            assert forall|i: int| 0 <= i < shorter.len() implies shorter[i] != Action::Commit by {
                assert(shorter[i] == actions[i]);
            }
            assert(actions[actions.len() - 1] != Action::Commit);
        }
    }
}

/// Rows that are committed stay committed, in their order, whatever
/// happens later in the run.
pub proof fn lemma_committed_kept(p: Pipeline, store: Store, told: Seq<(Outcome, Option<int>)>)
    ensures
        begins(store.committed, run(p, store, told).1.committed),
    decreases told.len(),
{
    if told.len() == 0 {
        assert(store.committed.take(store.committed.len() as int) =~= store.committed);
    } else {
        lemma_committed_kept(p, store, told.drop_last());
        let before = run(p, store, told.drop_last());
        let step = decide(before.0, told.last().0);
        lemma_apply_keeps_committed(before.1, done_of(step.1, told.last().1));
        let after = run(p, store, told);
        assert(after.1.committed.take(store.committed.len() as int) =~= before.1.committed.take(
            store.committed.len() as int,
        ));
    }
}

/// What one more pixel does to the store: it joins the open chunk, and
/// the chunk is committed as a whole when the pixel fills it.
proof fn lemma_pixel_step(p: Pipeline, store: Store, pixel: RedditPixel)
    requires
        p.wf(),
        p.status == Status::Running,
        p.in_chunk == 0 ==> store.pending.len() == 0,
    ensures
        ({
            let step = decide(p, Outcome::Pixel(pixel));
            let after = apply_all(store, step.1);
            if p.in_chunk + 1 == p.chunk_size {
                &&& after.committed =~= store.committed + store.pending.push(pixel)
                &&& after.pending =~= Seq::<RedditPixel>::empty()
            } else {
                &&& after.committed == store.committed
                &&& after.pending == store.pending.push(pixel)
            }
        }),
{
    let step = decide(p, Outcome::Pixel(pixel));
    let insert = Action::Insert(pixel);
    lemma_apply_short(store, Action::Begin, insert, Action::Commit);
    lemma_apply_short(store, insert, Action::Commit, Action::Commit);
    assert(store.pending.len() == 0 ==> store.pending =~= Seq::<RedditPixel>::empty());
    if p.in_chunk == 0 {
        if p.in_chunk + 1 == p.chunk_size {
            assert(step.1 =~= seq![Action::Begin, insert, Action::Commit]);
        } else {
            assert(step.1 =~= seq![Action::Begin, insert]);
        }
    } else {
        if p.in_chunk + 1 == p.chunk_size {
            assert(step.1 =~= seq![insert, Action::Commit]);
        } else {
            assert(step.1 =~= seq![insert]);
        }
    }
}

/// One row more either fills the open chunk or adds to it.
proof fn lemma_next_remainder(n: int, size: int)
    requires
        0 <= n,
        0 < size,
    ensures
        0 <= n % size < size,
        (n + 1) % size == if n % size + 1 == size {
            0
        } else {
            n % size + 1
        },
{
    vstd::arithmetic::div_mod::lemma_fundamental_div_mod(n, size);
    vstd::arithmetic::div_mod::lemma_mod_pos_bound(n, size);
    let q = n / size;
    let r = n % size;
    if r + 1 == size {
        assert(n + 1 == (q + 1) * size + 0) by (nonlinear_arith)
            requires
                n == size * q + r,
                r + 1 == size,
        ;
        vstd::arithmetic::div_mod::lemma_fundamental_div_mod_converse(n + 1, size, q + 1, 0);
    } else {
        assert(n + 1 == q * size + (r + 1)) by (nonlinear_arith)
            requires
                n == size * q + r,
        ;
        vstd::arithmetic::div_mod::lemma_fundamental_div_mod_converse(n + 1, size, q, r + 1);
    }
}

/// While every row is good and the store does all it is told, the store
/// holds the rows of the full chunks as committed and the rows of the
/// chunk that is not yet full as pending.
pub proof fn lemma_run_pixels(chunk_size: usize, pixels: Seq<RedditPixel>)
    requires
        chunk_size > 0,
    ensures
        ({
            let end = run(Pipeline::start(chunk_size), empty_store(), pixels_as_steps(pixels));
            let whole = in_whole_chunks(pixels.len() as int, chunk_size as int);
            &&& end.0 == Pipeline {
                chunk_size,
                in_chunk: (pixels.len() % (chunk_size as nat)) as usize,
                status: Status::Running,
            }
            &&& end.0.wf()
            &&& 0 <= whole <= pixels.len()
            &&& end.1.committed == pixels.take(whole)
            &&& end.1.pending == pixels.skip(whole)
        }),
    decreases pixels.len(),
{
    let n = pixels.len() as int;
    let size = chunk_size as int;
    if n == 0 {
        assert(0int % size == 0) by {
            vstd::arithmetic::div_mod::lemma_small_mod(0, chunk_size as nat);
        }
        assert(pixels.take(0) =~= Seq::<RedditPixel>::empty());
        assert(pixels.skip(0) =~= Seq::<RedditPixel>::empty());
    } else {
        let shorter = pixels.drop_last();
        lemma_run_pixels(chunk_size, shorter);
        lemma_next_remainder(n - 1, size);
        assert(pixels_as_steps(pixels).drop_last() =~= pixels_as_steps(shorter));
        let before = run(Pipeline::start(chunk_size), empty_store(), pixels_as_steps(shorter));
        let whole_before = in_whole_chunks(n - 1, size);
        lemma_pixel_step(before.0, before.1, pixels.last());
        let end = run(Pipeline::start(chunk_size), empty_store(), pixels_as_steps(pixels));
        let whole = in_whole_chunks(n, size);
        if (n - 1) % size + 1 == size {
            assert(whole == n);
            assert(end.1.committed =~= pixels.take(whole));
            assert(end.1.pending =~= pixels.skip(whole));
        } else {
            assert(whole == whole_before);
            assert(end.1.committed =~= pixels.take(whole));
            assert(end.1.pending =~= pixels.skip(whole));
        }
    }
}

/// Once a run has failed, nothing changes the state or the store.
pub proof fn lemma_run_failed(p: Pipeline, store: Store, told: Seq<(Outcome, Option<int>)>)
    requires
        p.status is Failed,
    ensures
        run(p, store, told) == (p, store),
    decreases told.len(),
{
    if told.len() > 0 {
        lemma_run_failed(p, store, told.drop_last());
    }
}

/// Taking two sequences of steps one behind the other is taking the
/// second from where the first led.
pub proof fn lemma_run_concat(
    p: Pipeline,
    store: Store,
    a: Seq<(Outcome, Option<int>)>,
    b: Seq<(Outcome, Option<int>)>,
)
    ensures
        run(p, store, a + b) == run(run(p, store, a).0, run(p, store, a).1, b),
    decreases b.len(),
{
    if b.len() == 0 {
        assert(a + b =~= a);
    } else {
        lemma_run_concat(p, store, a, b.drop_last());
        assert((a + b).drop_last() =~= a + b.drop_last());
        assert((a + b).last() == b.last());
    }
}

/// Chunks are atomic. When good rows are followed by a failure, the
/// store keeps the rows of the chunks that were full before the failure
/// and nothing of the chunk in which it fell, the run has failed with
/// that failure, and whatever comes later changes nothing.
pub proof fn lemma_chunk_atomicity(
    chunk_size: usize,
    pixels: Seq<RedditPixel>,
    failure: IngestError,
    later: Seq<(Outcome, Option<int>)>,
)
    requires
        chunk_size > 0,
    ensures
        ({
            let told = pixels_as_steps(pixels).push((Outcome::Rejected(failure), None::<int>))
                + later;
            let end = run(Pipeline::start(chunk_size), empty_store(), told);
            &&& end.0.status == Status::Failed(failure)
            &&& end.1.committed == pixels.take(
                in_whole_chunks(pixels.len() as int, chunk_size as int),
            )
            &&& end.1.pending == Seq::<RedditPixel>::empty()
        }),
{
    let good = pixels_as_steps(pixels);
    let start = Pipeline::start(chunk_size);
    lemma_run_pixels(chunk_size, pixels);
    let before = run(start, empty_store(), good);
    let failed = good.push((Outcome::Rejected(failure), None::<int>));
    assert(failed.drop_last() =~= good);
    let step = decide(before.0, Outcome::Rejected(failure));
    lemma_apply_short(before.1, Action::Rollback, Action::Rollback, Action::Rollback);
    if before.0.in_chunk > 0 {
        assert(step.1 =~= seq![Action::Rollback]);
    } else {
        assert(before.1.pending.len() == 0);
        assert(before.1.pending =~= Seq::<RedditPixel>::empty());
    }
    let at_failure = run(start, empty_store(), failed);
    assert(at_failure.1.pending =~= Seq::<RedditPixel>::empty());
    lemma_run_concat(start, empty_store(), failed, later);
    lemma_run_failed(at_failure.0, at_failure.1, later);
}

/// A failure of the store is atomic too. When the store has done all it
/// was told for the good rows `pixels`, and then fails at one of the
/// actions of the next step, be that step a good row or the end of the
/// input, and be the action the `Begin`, the `Insert` or the `Commit`:
/// the run fails with `IngestError::Storage`, the store keeps the rows of
/// the chunks that were full before that step and nothing of the chunk
/// that was open or was to be closed, and whatever comes later changes
/// nothing.
pub proof fn lemma_store_failure_atomicity(
    chunk_size: usize,
    pixels: Seq<RedditPixel>,
    next: Outcome,
    failed_at: int,
    later: Seq<(Outcome, Option<int>)>,
)
    requires
        chunk_size > 0,
        next is Pixel || next is End,
        ({
            let before = run(Pipeline::start(chunk_size), empty_store(), pixels_as_steps(pixels));
            0 <= failed_at < decide(before.0, next).1.len()
        }),
    ensures
        ({
            let told = pixels_as_steps(pixels).push((next, Some(failed_at))).push(
                (Outcome::StoreFailed, None::<int>),
            ) + later;
            let end = run(Pipeline::start(chunk_size), empty_store(), told);
            &&& end.0.status == Status::Failed(IngestError::Storage)
            &&& end.1.committed == pixels.take(
                in_whole_chunks(pixels.len() as int, chunk_size as int),
            )
            &&& end.1.pending == Seq::<RedditPixel>::empty()
        }),
{
    let good = pixels_as_steps(pixels);
    let start = Pipeline::start(chunk_size);
    lemma_run_pixels(chunk_size, pixels);
    let before = run(start, empty_store(), good);
    let cut = good.push((next, Some(failed_at)));
    assert(cut.drop_last() =~= good);
    let step = decide(before.0, next);
    let done = done_of(step.1, Some(failed_at));
    assert(done == step.1.take(failed_at));
    assert forall|i: int| 0 <= i < done.len() implies done[i] != Action::Commit by {
        assert(done[i] == step.1[i]);
    }
    lemma_apply_keeps_committed(before.1, done);
    let at_cut = run(start, empty_store(), cut);
    assert(at_cut.0 == step.0);
    assert(at_cut.1.committed == before.1.committed);
    let told_failure = cut.push((Outcome::StoreFailed, None::<int>));
    assert(told_failure.drop_last() =~= cut);
    let answer = decide(at_cut.0, Outcome::StoreFailed);
    assert(answer.1 =~= seq![Action::Rollback]);
    lemma_apply_short(at_cut.1, Action::Rollback, Action::Rollback, Action::Rollback);
    let at_failure = run(start, empty_store(), told_failure);
    assert(at_failure.1.pending =~= Seq::<RedditPixel>::empty());
    lemma_run_concat(start, empty_store(), told_failure, later);
    lemma_run_failed(at_failure.0, at_failure.1, later);
}

/// When good rows are followed by the end of the input and the store
/// does all it is told, every row is committed, in the order of arrival,
/// and the run has finished.
pub proof fn lemma_end_commits_all(chunk_size: usize, pixels: Seq<RedditPixel>)
    requires
        chunk_size > 0,
    ensures
        ({
            let told = pixels_as_steps(pixels).push((Outcome::End, None::<int>));
            let end = run(Pipeline::start(chunk_size), empty_store(), told);
            &&& end.0.status == Status::Finished
            &&& end.1.committed == pixels
            &&& end.1.pending == Seq::<RedditPixel>::empty()
        }),
{
    let good = pixels_as_steps(pixels);
    let start = Pipeline::start(chunk_size);
    lemma_run_pixels(chunk_size, pixels);
    let before = run(start, empty_store(), good);
    let ended = good.push((Outcome::End, None::<int>));
    assert(ended.drop_last() =~= good);
    let step = decide(before.0, Outcome::End);
    lemma_apply_short(before.1, Action::Commit, Action::Commit, Action::Commit);
    let whole = in_whole_chunks(pixels.len() as int, chunk_size as int);
    assert(pixels.take(whole) + pixels.skip(whole) =~= pixels);
    if before.0.in_chunk > 0 {
        assert(step.1 =~= seq![Action::Commit]);
    } else {
        assert(pixels.skip(whole).len() == 0);
        assert(pixels.take(whole) =~= pixels);
    }
    let at_end = run(start, empty_store(), ended);
    assert(at_end.1.committed =~= pixels);
    assert(at_end.1.pending =~= Seq::<RedditPixel>::empty());
}

/// The identifiers known after the rows `rows` were normalised in turn.
pub open spec fn known_after_rows(rows: Seq<Seq<Seq<char>>>, known: Seq<Seq<char>>) -> Seq<
    Seq<char>,
>
    decreases rows.len(),
{
    if rows.len() == 0 {
        known
    } else {
        known_after(rows.last(), known_after_rows(rows.drop_last(), known))
    }
}

/// What each of the rows `rows` comes to when they are normalised in
/// turn, starting with the identifiers `known`.
pub open spec fn row_results(rows: Seq<Seq<Seq<char>>>, known: Seq<Seq<char>>) -> Seq<
    Result<RedditPixel, IngestError>,
> {
    Seq::new(rows.len(), |i: int| normalized(rows[i], known_after_rows(rows.take(i), known)))
}

/// The identifier fields of rows that have one.
pub open spec fn identifiers_of(rows: Seq<Seq<Seq<char>>>) -> Seq<Seq<char>> {
    Seq::new(rows.len(), |i: int| rows[i][1])
}

/// The row was good and its pixel event carries the surrogate key `key`.
pub open spec fn carries_key(result: Result<RedditPixel, IngestError>, key: int) -> bool {
    result is Ok && result->Ok_0.id == key
}

/// Ingesting the same rows with two registries that start out alike gives
/// the same results row for row, and leaves the two registries alike: what
/// a run gives depends on the rows and their order, and on nothing else.
pub proof fn lemma_reingestion_repeats(
    rows: Seq<Seq<Seq<char>>>,
    first: IdentifierRegistry,
    second: IdentifierRegistry,
)
    requires
        first.wf(),
        second.wf(),
        first@ == second@,
    ensures
        row_results(rows, first@) == row_results(rows, second@),
        known_after_rows(rows, first@) == known_after_rows(rows, second@),
{
}

/// When every row is good, the registry ends up with the distinct
/// identifiers of the rows in the order of their first appearance, and
/// each row carries the key that its identifier has in the end.
pub proof fn lemma_ids_follow_first_appearance(rows: Seq<Seq<Seq<char>>>, known: Seq<Seq<char>>)
    requires
        known.no_duplicates(),
        forall|i: int| 0 <= i < rows.len() ==> first_failure(#[trigger] rows[i]) is None,
        known_after_rows(rows, known).len() <= i64::MAX,
    ensures
        known_after_rows(rows, known) == learn_all(known, identifiers_of(rows)),
        known_after_rows(rows, known).no_duplicates(),
        forall|i: int|
            0 <= i < rows.len() ==> carries_key(
                #[trigger] row_results(rows, known)[i],
                surrogate(known_after_rows(rows, known), rows[i][1]),
            ),
    decreases rows.len(),
{
    let all = known_after_rows(rows, known);
    if rows.len() > 0 {
        let n = rows.len() - 1;
        let shorter = rows.drop_last();
        let before = known_after_rows(shorter, known);
        let seen = rows.last()[1];
        assert(first_failure(rows[n]) is None);
        assert(all == learn(before, seen));
        assert(before.len() <= all.len());
        assert forall|i: int| 0 <= i < shorter.len() implies first_failure(
            #[trigger] shorter[i],
        ) is None by {
            assert(shorter[i] == rows[i]);
        }
        lemma_ids_follow_first_appearance(shorter, known);
        assert(identifiers_of(rows).drop_last() =~= identifiers_of(shorter));
        assert(identifiers_of(rows).last() == seen);
        lemma_learn(before, seen, seen);
        assert forall|i: int| 0 <= i < rows.len() implies carries_key(
            #[trigger] row_results(rows, known)[i],
            surrogate(all, rows[i][1]),
        ) by {
            if i < n {
                assert(rows.take(i) =~= shorter.take(i));
                assert(row_results(rows, known)[i] == row_results(shorter, known)[i]);
                let id = shorter[i][1];
                lemma_surrogate_in(shorter, known, i);
                lemma_learn(before, id, seen);
            } else {
                assert(rows.take(n) =~= shorter);
                lemma_surrogate_range(all, seen);
            }
        }
    }
}

/// The identifier of a good row is known once the rows are normalised.
proof fn lemma_surrogate_in(rows: Seq<Seq<Seq<char>>>, known: Seq<Seq<char>>, i: int)
    requires
        known.no_duplicates(),
        0 <= i < rows.len(),
        forall|j: int| 0 <= j < rows.len() ==> first_failure(#[trigger] rows[j]) is None,
    ensures
        known_after_rows(rows, known).no_duplicates(),
        known_after_rows(rows, known).contains(rows[i][1]),
    decreases rows.len(),
{
    let shorter = rows.drop_last();
    let before = known_after_rows(shorter, known);
    let seen = rows.last()[1];
    assert(first_failure(rows[rows.len() - 1]) is None);
    assert forall|j: int| 0 <= j < shorter.len() implies first_failure(
        #[trigger] shorter[j],
    ) is None by {
        assert(shorter[j] == rows[j]);
    }
    lemma_known_distinct(shorter, known);
    if i < rows.len() - 1 {
        lemma_surrogate_in(shorter, known, i);
        lemma_learn(before, shorter[i][1], seen);
    } else {
        lemma_learn(before, seen, seen);
    }
}

/// Normalising rows keeps the known identifiers distinct.
proof fn lemma_known_distinct(rows: Seq<Seq<Seq<char>>>, known: Seq<Seq<char>>)
    requires
        known.no_duplicates(),
    ensures
        known_after_rows(rows, known).no_duplicates(),
    decreases rows.len(),
{
    if rows.len() > 0 {
        lemma_known_distinct(rows.drop_last(), known);
        lemma_learn(
            known_after_rows(rows.drop_last(), known),
            rows.last()[1],
            rows.last()[1],
        );
    }
}

} // verus!
