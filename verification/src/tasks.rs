//! The traversal work queues: one shared global injector seeded with the
//! search roots, and one private FIFO queue per worker. A worker takes from
//! its own queue first and steals from the global queue once it runs dry; a
//! steal that reports contention is retried, and a worker that sees the
//! global queue empty stops.

use vstd::prelude::*;

verus! {

#[verifier::external_type_specification]
#[verifier::external_body]
#[verifier::reject_recursive_types(T)]
pub struct ExInjector<T>(crossbeam_deque::Injector<T>);

/// Relies on `crossbeam_deque::Injector::steal`, retried while it reports a
/// race, as the crate's documentation prescribes. The injector is shared
/// between threads, so nothing can be promised of which task comes back, or
/// whether one does.
#[verifier::external_body]
fn steal_global(global: &crossbeam_deque::Injector<String>) -> (r: Option<String>) {
    loop {
        match global.steal() {
            crossbeam_deque::Steal::Success(t) => {
                return Some(t);
            },
            crossbeam_deque::Steal::Empty => {
                return None;
            },
            crossbeam_deque::Steal::Retry => {},
        }
    }
}

/// The tasks a local queue holds, front to back.
pub uninterp spec fn local_tasks(q: &LocalQueue) -> Seq<Seq<char>>;

/// One worker's private FIFO queue of directories still to list. The
/// crossbeam deque is kept in a private field, and no stealer handle to it is
/// ever created, so this owner is the only side that can reach it; the
/// contracts below rely on that exclusivity.
#[verifier::external_body]
pub struct LocalQueue {
    inner: crossbeam_deque::Worker<String>,
}

impl LocalQueue {
    /// Relies on `crossbeam_deque::Worker::new_fifo`: a fresh queue holds
    /// nothing.
    #[verifier::external_body]
    pub fn new() -> (q: LocalQueue)
        ensures
            local_tasks(&q) == Seq::<Seq<char>>::empty(),
    {
        LocalQueue { inner: crossbeam_deque::Worker::new_fifo() }
    }

    /// Relies on `crossbeam_deque::Worker::push` on a FIFO queue with no
    /// stealers: the task goes to the back.
    #[verifier::external_body]
    pub fn push(&mut self, t: String)
        ensures
            local_tasks(final(self)) == local_tasks(old(self)).push(t@),
    {
        self.inner.push(t)
    }

    /// Relies on `crossbeam_deque::Worker::pop` on a FIFO queue with no
    /// stealers: the front task comes off, or nothing when the queue is
    /// empty.
    #[verifier::external_body]
    pub fn pop(&mut self) -> (r: Option<String>)
        ensures
            match r {
                Some(t) => local_tasks(old(self)).len() > 0 && t@ == local_tasks(old(self))[0]
                    && local_tasks(final(self)) == local_tasks(old(self)).drop_first(),
                None => local_tasks(old(self)).len() == 0 && local_tasks(final(self)) == local_tasks(
                    old(self),
                ),
            },
    {
        self.inner.pop()
    }
}

/// One task fetch: the front of the worker's own queue when it has one, and
/// otherwise whatever a steal from the shared global queue yields — a task,
/// or nothing once the global queue is seen empty, which tells the worker to
/// stop. Nothing comes back empty-handed while the local queue holds work.
pub fn find_task(local: &mut LocalQueue, global: &crossbeam_deque::Injector<String>) -> (r: Option<
    String,
>)
    ensures
        local_tasks(old(local)).len() > 0 ==> (r matches Some(t) && t@ == local_tasks(old(local))[0]
            && local_tasks(final(local)) == local_tasks(old(local)).drop_first()),
        local_tasks(old(local)).len() == 0 ==> local_tasks(final(local)) == local_tasks(old(local)),
        r is None ==> local_tasks(old(local)).len() == 0,
{
    match local.pop() {
        Some(job) => Some(job),
        None => steal_global(global),
    }
}

} // verus!
