//! How a worker shares its bases among threads.
//!
//! Workers draw threads from a common pool. One that finds several bases
//! waiting takes what the pool has, starts that many threads and one in its own
//! place, and draws more whenever the pool has some and bases still wait. Each
//! thread that ends goes back to the pool, but for the one in the worker's own
//! place.
use vstd::prelude::*;

verus! {

/// What the pool is left with when a worker with several bases asks for
/// threads, or nothing if it has none to give: the worker takes them all.
pub fn take_all(available: isize) -> (left: Option<isize>)
    ensures
        left is Some <==> available > 0,
        left matches Some(n) ==> n == 0,
{
    if available > 0 {
        Some(0)
    } else {
        None
    }
}

/// Whether a worker with that many bases waiting should ask for threads.
pub fn is_worth_sharing(waiting: usize) -> (r: bool)
    ensures
        r == (waiting > 1),
{
    waiting > 1
}

/// How many more threads to start, and what the pool is left with, or nothing
/// if it has none to give: not more than bases wait.
pub fn draw(available: isize, waiting: usize) -> (drawn: Option<(isize, isize)>)
    requires
        waiting <= isize::MAX,
    ensures
        drawn is Some <==> available > 0,
        drawn matches Some((create, left)) ==> {
            &&& create == if available < waiting {
                available as int
            } else {
                waiting as int
            }
            &&& left == available - create
        },
{
    if available > 0 {
        let waiting: isize = waiting as isize;
        let create: isize = if available < waiting {
            available
        } else {
            waiting
        };
        Some((create, available - create))
    } else {
        None
    }
}

/// Whether the work is done: no thread is running and no base waits.
pub fn is_done(running: usize, waiting: usize) -> (r: bool)
    ensures
        r == (running == 0 && waiting == 0),
{
    running == 0 && waiting == 0
}

/// The threads of one worker.
pub struct Crew {
    threads_to_create: isize,
    returned_ourselves: bool,
    /// Threads drawn from the pool.
    drawn: Ghost<int>,
    /// Threads started.
    started: Ghost<int>,
    /// Threads that ended.
    ended: Ghost<int>,
    /// Threads given back to the pool.
    given_back: Ghost<int>,
}

impl Crew {
    pub closed spec fn wf(self) -> bool {
        &&& self.threads_to_create >= 0
        &&& self.drawn@ >= 0
        &&& self.started@ + self.threads_to_create == self.drawn@ + 1
        &&& 0 <= self.ended@ <= self.started@
        &&& self.returned_ourselves == (self.ended@ > 0)
        &&& self.given_back@ == if self.ended@ > 0 {
            self.ended@ - 1
        } else {
            0
        }
    }

    pub closed spec fn drawn(self) -> int {
        self.drawn@
    }

    pub closed spec fn started(self) -> int {
        self.started@
    }

    pub closed spec fn ended(self) -> int {
        self.ended@
    }

    pub closed spec fn given_back(self) -> int {
        self.given_back@
    }

    /// Threads that are about to be started.
    pub closed spec fn to_start(self) -> int {
        self.threads_to_create as int
    }

    /// A crew of as many threads as were drawn from the pool, and the worker itself.
    pub fn new(initial_threads: isize) -> (crew: Self)
        requires
            0 <= initial_threads < isize::MAX,
        ensures
            crew.wf(),
            crew.drawn() == initial_threads,
            crew.to_start() == initial_threads + 1,
            crew.started() == 0,
            crew.ended() == 0,
            crew.given_back() == 0,
    {
        Crew {
            threads_to_create: initial_threads + 1,
            returned_ourselves: false,
            drawn: Ghost(initial_threads as int),
            started: Ghost(0),
            ended: Ghost(0),
            given_back: Ghost(0),
        }
    }

    /// How many threads to start now.
    pub fn start(&mut self) -> (n: isize)
        requires
            old(self).wf(),
        ensures
            final(self).wf(),
            n == old(self).to_start(),
            final(self).to_start() == 0,
            final(self).started() == old(self).started() + n,
            final(self).drawn() == old(self).drawn(),
            final(self).ended() == old(self).ended(),
            final(self).given_back() == old(self).given_back(),
    {
        let n: isize = self.threads_to_create;
        self.threads_to_create = 0;
        self.started = Ghost(self.started@ + n);
        n
    }

    /// Take in threads that were drawn from the pool.
    pub fn add(&mut self, create: isize)
        requires
            old(self).wf(),
            old(self).to_start() == 0,
            create >= 0,
        ensures
            final(self).wf(),
            final(self).to_start() == create,
            final(self).drawn() == old(self).drawn() + create,
            final(self).started() == old(self).started(),
            final(self).ended() == old(self).ended(),
            final(self).given_back() == old(self).given_back(),
    {
        self.threads_to_create = create;
        self.drawn = Ghost(self.drawn@ + create);
    }

    /// A thread ended. Says whether it goes back to the pool.
    pub fn thread_ended(&mut self) -> (give_back: bool)
        requires
            old(self).wf(),
            old(self).ended() < old(self).started(),
        ensures
            final(self).wf(),
            give_back == (old(self).ended() > 0),
            final(self).ended() == old(self).ended() + 1,
            final(self).given_back() == old(self).given_back() + (if give_back {
                1int
            } else {
                0
            }),
            final(self).drawn() == old(self).drawn(),
            final(self).started() == old(self).started(),
            final(self).to_start() == old(self).to_start(),
    {
        let give_back: bool = self.returned_ourselves;
        self.returned_ourselves = true;
        self.ended = Ghost(self.ended@ + 1);
        self.given_back = Ghost(
            self.given_back@ + if give_back {
                1int
            } else {
                0
            },
        );
        give_back
    }
}

/// Once every thread ended, the pool has back exactly what was drawn from it.
pub proof fn law_all_threads_go_back(crew: Crew)
    requires
        crew.wf(),
        crew.to_start() == 0,
        crew.ended() == crew.started(),
    ensures
        crew.given_back() == crew.drawn(),
{
}

} // verus!
