use vstd::prelude::*;

verus! {

/// The most cuts the knife makes in a row, each in a piece of the one before; a
/// piece at this depth is kept as it is.
pub const MAX_RECURSE: usize = 16;

/// A path that waits to be cut by what is left of the knife's line, `depth` cuts
/// after the path it came from.
#[derive(Clone, Copy, Debug)]
pub struct SliceJob<X, L> {
    pub path: X,
    pub line: L,
    pub depth: usize,
}

/// The most finished pieces that a piece at `depth` can end in: `2` to the power
/// `MAX_RECURSE - depth`.
pub open spec fn piece_cap(depth: nat) -> nat
    decreases MAX_RECURSE - depth,
{
    if depth >= MAX_RECURSE {
        1
    } else {
        2 * piece_cap(depth + 1)
    }
}

/// The most steps (pieces taken and finished or cut) that a piece at `depth` can
/// still take.
pub open spec fn step_cap(depth: nat) -> int {
    2 * piece_cap(depth) - 1
}

/// The most finished pieces that the waiting pieces can end in.
pub open spec fn pieces_left<X, L>(jobs: Seq<SliceJob<X, L>>) -> nat
    decreases jobs.len(),
{
    if jobs.len() == 0 {
        0
    } else {
        pieces_left(jobs.drop_last()) + piece_cap(jobs.last().depth as nat)
    }
}

/// The most steps that the waiting pieces can still take.
pub open spec fn steps_left<X, L>(jobs: Seq<SliceJob<X, L>>) -> int
    decreases jobs.len(),
{
    if jobs.len() == 0 {
        0
    } else {
        steps_left(jobs.drop_last()) + step_cap(jobs.last().depth as nat)
    }
}

/// A piece can always end in at least one finished piece.
pub proof fn lemma_piece_cap_pos(depth: nat)
    ensures
        piece_cap(depth) >= 1,
    decreases MAX_RECURSE - depth,
{
    if depth < MAX_RECURSE {
        lemma_piece_cap_pos(depth + 1);
    }
}

/// The steps left never fall below zero.
pub proof fn lemma_steps_left_nonneg<X, L>(jobs: Seq<SliceJob<X, L>>)
    ensures
        steps_left(jobs) >= 0,
    decreases jobs.len(),
{
    if jobs.len() > 0 {
        lemma_steps_left_nonneg(jobs.drop_last());
        lemma_piece_cap_pos(jobs.last().depth as nat);
    }
}

/// One path is cut into at most `2` to the power `MAX_RECURSE` pieces.
pub proof fn lemma_piece_limit()
    ensures
        piece_cap(0) == 65536,
{
    reveal_with_fuel(piece_cap, 18);
}

/// The work of cutting one path with a line: the pieces still to be cut, last one
/// first, and the finished pieces, in order.
pub struct SliceJobs<X, L> {
    pending: Vec<SliceJob<X, L>>,
    done: Vec<X>,
}

impl<X, L> SliceJobs<X, L> {
    /// The pieces still to be cut; the last one is cut next.
    pub closed spec fn pending(&self) -> Seq<SliceJob<X, L>> {
        self.pending@
    }

    /// The finished pieces, in order.
    pub closed spec fn done(&self) -> Seq<X> {
        self.done@
    }

    /// No piece waits at a depth beyond the limit, and the finished pieces with all
    /// the pieces the waiting ones can end in are at most `piece_cap(0)`.
    pub open spec fn wf(&self) -> bool {
        &&& forall|i: int| 0 <= i < self.pending().len() ==> (#[trigger] self.pending()[i]).depth <= MAX_RECURSE
        &&& self.done().len() + pieces_left(self.pending()) <= piece_cap(0)
    }
}

impl<X, L: Copy> SliceJobs<X, L> {
    /// The work of cutting `path` with `line`.
    pub fn new(path: X, line: L) -> (r: Self)
        ensures
            r.wf(),
            r.pending() == seq![SliceJob { path: path, line: line, depth: 0 }],
            r.done() == Seq::<X>::empty(),
            steps_left(r.pending()) == step_cap(0),
    {
        let mut pending: Vec<SliceJob<X, L>> = Vec::new();
        pending.push(SliceJob { path, line, depth: 0 });
        let r = SliceJobs { pending, done: Vec::new() };
        proof {
            assert(r.pending().drop_last() =~= Seq::<SliceJob<X, L>>::empty());
            assert(pieces_left(r.pending().drop_last()) == 0);
            assert(steps_left(r.pending().drop_last()) == 0);
            assert(r.pending().last().depth == 0);
        }
        r
    }

    /// The piece to cut next, if any is left.
    pub fn current(&self) -> (r: Option<&SliceJob<X, L>>)
        requires
            self.wf(),
        ensures
            self.pending().len() == 0 ==> r is None,
            self.pending().len() > 0 ==> r == Some(&self.pending().last()),
            r matches Some(job) ==> job.depth <= MAX_RECURSE,
    {
        let n = self.pending.len();
        if n > 0 {
            Some(&self.pending[n - 1])
        } else {
            None
        }
    }

    /// Whether a piece that the line crosses `hit_count` times is cut again: it is
    /// where the line crosses it twice or more, unless the piece lies at the depth limit.
    pub fn should_cut(job: &SliceJob<X, L>, hit_count: usize) -> (r: bool)
        ensures
            r == (hit_count > 1 && job.depth != MAX_RECURSE),
    {
        !(hit_count <= 1 || job.depth == MAX_RECURSE)
    }

    /// The piece to cut next is not cut: it is finished as it is. The steps left
    /// fall by at least one.
    pub fn keep_current(&mut self)
        requires
            old(self).wf(),
            old(self).pending().len() > 0,
        ensures
            final(self).wf(),
            final(self).done() == old(self).done().push(old(self).pending().last().path),
            final(self).pending() == old(self).pending().drop_last(),
            steps_left(final(self).pending()) < steps_left(old(self).pending()),
    {
        let ghost before = self.pending@;
        let job = self.pending.pop();
        proof {
            lemma_piece_cap_pos(before.last().depth as nat);
            assert(before.drop_last() == self.pending@);
        }
        match job {
            Some(job) => {
                self.done.push(job.path);
            },
            None => {},
        }
        proof {
            assert forall|i: int| 0 <= i < self.pending().len() implies (#[trigger] self.pending()[i]).depth
                <= MAX_RECURSE by {
                assert(self.pending()[i] == before[i]);
            }
        }
    }

    /// The piece to cut next is cut in two, `first` and `second`, and both are cut
    /// again with `line`, what is left of the knife's line; `first` is cut before
    /// `second`. The steps left fall by one.
    pub fn split_current(&mut self, first: X, second: X, line: L)
        requires
            old(self).wf(),
            old(self).pending().len() > 0,
            old(self).pending().last().depth < MAX_RECURSE,
        ensures
            final(self).wf(),
            final(self).pending() == old(self).pending().drop_last()
                .push(SliceJob { path: second, line: line, depth: (old(self).pending().last().depth + 1) as usize })
                .push(SliceJob { path: first, line: line, depth: (old(self).pending().last().depth + 1) as usize }),
            final(self).done() == old(self).done(),
            steps_left(final(self).pending()) + 1 == steps_left(old(self).pending()),
    {
        let ghost before = self.pending@;
        let n = self.pending.len();
        let depth = self.pending[n - 1].depth + 1;
        let _ = self.pending.pop();
        proof {
            assert(before.drop_last() == self.pending@);
        }
        let ghost mid = self.pending@;
        self.pending.push(SliceJob { path: second, line, depth });
        let ghost one = self.pending@;
        self.pending.push(SliceJob { path: first, line, depth });
        proof {
            assert(one.drop_last() =~= mid);
            assert(self.pending@.drop_last() =~= one);
            assert(piece_cap((depth - 1) as nat) == 2 * piece_cap(depth as nat));
            assert(pieces_left(before) == pieces_left(mid) + piece_cap((depth - 1) as nat));
            assert(pieces_left(one) == pieces_left(mid) + piece_cap(depth as nat));
            assert(pieces_left(self.pending@) == pieces_left(one) + piece_cap(depth as nat));
            assert(steps_left(before) == steps_left(mid) + step_cap((depth - 1) as nat));
            assert(steps_left(one) == steps_left(mid) + step_cap(depth as nat));
            assert(steps_left(self.pending@) == steps_left(one) + step_cap(depth as nat));
            assert forall|i: int| 0 <= i < self.pending().len() implies (#[trigger] self.pending()[i]).depth
                <= MAX_RECURSE by {
                if i < mid.len() {
                    assert(self.pending()[i] == before[i]);
                }
            }
        }
    }

    /// The finished pieces, in order; there are at most `piece_cap(0)` of them.
    pub fn into_paths(self) -> (r: Vec<X>)
        requires
            self.wf(),
        ensures
            r@ == self.done(),
            r@.len() <= piece_cap(0),
    {
        self.done
    }
}

} // verus!
