//! Sources of uniform random draws.

use vstd::prelude::*;

verus! {

/// A supplier of uniformly distributed 64-bit draws.
pub trait RandomSource {
    /// Every draw handed out so far, oldest first.
    spec fn drawn(&self) -> Seq<u64>;

    /// Hands out the next draw.
    fn next_draw(&mut self) -> (draw: u64)
        ensures
            final(self).drawn() == old(self).drawn().push(draw),
    ;
}

/// Whether `after` has handed out everything that `before` had, in the same
/// order, and perhaps more.
pub open spec fn continues<R: RandomSource>(before: R, after: R) -> bool {
    before.drawn().is_prefix_of(after.drawn())
}

/// The draws that `after` has handed out beyond those of `before`.
pub open spec fn drawn_since<R: RandomSource>(before: R, after: R) -> Seq<u64> {
    after.drawn().skip(before.drawn().len() as int)
}

/// A prefix of a prefix is a prefix.
pub proof fn lemma_prefix_chain(a: Seq<u64>, b: Seq<u64>, c: Seq<u64>)
    requires
        a.is_prefix_of(b),
        b.is_prefix_of(c),
    ensures
        a.is_prefix_of(c),
{
    assert(a =~= c.subrange(0, a.len() as int));
}

/// Dropping the same number of leading draws from a prefix and from the
/// whole leaves a prefix of what is left of the whole.
pub proof fn lemma_skip_keeps_prefix(a: Seq<u64>, b: Seq<u64>, k: int)
    requires
        a.is_prefix_of(b),
        0 <= k <= a.len(),
    ensures
        a.skip(k).is_prefix_of(b.skip(k)),
{
    assert(a.skip(k) =~= b.skip(k).subrange(0, a.len() - k));
}

/// Calls `rand::random::<u64>()`, which asks the thread-local generator for a
/// uniformly distributed `u64`. Nothing is promised of the value.
#[verifier::external_body]
fn thread_random_u64() -> u64 {
    rand::random::<u64>()
}

/// The thread-local generator of the `rand` crate. Nothing is known of its
/// draws but that it hands them out one after another.
pub struct ThreadSource {
    log: Ghost<Seq<u64>>,
}

impl ThreadSource {
    /// A handle on the generator that has handed out nothing yet.
    pub fn new() -> (source: Self)
        ensures
            source.drawn() == Seq::<u64>::empty(),
    {
        ThreadSource { log: Ghost(Seq::empty()) }
    }
}

impl RandomSource for ThreadSource {
    closed spec fn drawn(&self) -> Seq<u64> {
        self.log@
    }

    fn next_draw(&mut self) -> (draw: u64) {
        let draw = thread_random_u64();
        proof {
            self.log@ = self.log@.push(draw);
        }
        draw
    }
}

/// The draw that a script gives at position `k`: the script starts over when
/// it ends, and an empty script gives zeros.
pub open spec fn script_draw(script: Seq<u64>, k: nat) -> u64 {
    if script.len() == 0 {
        0
    } else {
        script[(k % script.len()) as int]
    }
}

/// Where a replay stands: the place in the script of the next draw, and
/// every draw handed out so far.
struct Progress {
    next: usize,
    log: Ghost<Seq<u64>>,
}

/// A source that replays a fixed script of draws, over and over.
pub struct Replay {
    script: Vec<u64>,
    progress: Progress,
}

impl Replay {
    /// The place of the next draw follows from the number of draws handed
    /// out: it is that number, counted round the script.
    #[verifier::type_invariant]
    spec fn inv(self) -> bool {
        if self.script@.len() == 0 {
            self.progress.next == 0
        } else {
            self.progress.next == self.progress.log@.len() % self.script@.len()
        }
    }

    /// The script that the source replays.
    pub closed spec fn script(&self) -> Seq<u64> {
        self.script@
    }

    /// A source that has handed out nothing yet and will replay `script`.
    pub fn new(script: Vec<u64>) -> (source: Self)
        ensures
            source.script() == script@,
            source.drawn() == Seq::<u64>::empty(),
    {
        let progress = Progress { next: 0, log: Ghost(Seq::empty()) };
        assert(script@.len() > 0 ==> 0int % (script@.len() as int) == 0);
        Replay { script, progress }
    }
}

impl RandomSource for Replay {
    closed spec fn drawn(&self) -> Seq<u64> {
        self.progress.log@
    }

    fn next_draw(&mut self) -> (draw: u64)
        ensures
            draw == script_draw(old(self).script(), old(self).drawn().len()),
            final(self).script() == old(self).script(),
    {
        proof {
            use_type_invariant(&*self);
        }
        let ghost log = self.progress.log@;
        if self.script.len() == 0 {
            self.progress = Progress { next: 0, log: Ghost(log.push(0)) };
            return 0;
        }
        let draw = self.script[self.progress.next];
        let next: usize = if self.progress.next + 1 == self.script.len() {
            0
        } else {
            self.progress.next + 1
        };
        proof {
            let count = log.len() as int;
            let len = self.script@.len() as int;
            assert((count + 1) % len == next) by (nonlinear_arith)
                requires
                    len > 0,
                    count >= 0,
                    next == if count % len + 1 == len {
                        0
                    } else {
                        count % len + 1
                    },
            ;
        }
        self.progress = Progress { next, log: Ghost(log.push(draw)) };
        draw
    }
}

} // verus!
