use vstd::prelude::*;
use std::collections::VecDeque;

verus! {

/// One entry of the flattened work list: either a move, or the mark that
/// closes a path and tells its length. A mark has 255 as its second half,
/// which no move has.
#[derive(Clone, Copy)]
pub struct MoveSegment((u8, u8));

impl MoveSegment {
    /// The two bytes of the entry.
    pub closed spec fn raw(self) -> (u8, u8) {
        self.0
    }

    /// The mark that closes a path of `depth` moves.
    pub fn from_depth(depth: u8) -> (segment: Self)
        ensures
            segment.raw() == (depth, 255u8),
    {
        MoveSegment((depth, 0xFF))
    }

    /// The entry for the move `m`.
    pub fn from_move(m: (u8, u8)) -> (segment: Self)
        ensures
            segment.raw() == m,
    {
        MoveSegment(m)
    }

    /// The length that a mark tells; `None` for a move.
    pub fn as_depth(self) -> (depth: Option<u8>)
        ensures
            depth == if self.raw().1 == 255 {
                Some(self.raw().0)
            } else {
                None
            },
    {
        if self.0.1 == 255 {
            Some(self.0.0)
        } else {
            None
        }
    }

    /// The move of a move entry; `None` for a mark.
    pub fn as_move(self) -> (m: Option<(u8, u8)>)
        ensures
            m == if self.raw().1 == 255 {
                None
            } else {
                Some(self.raw())
            },
    {
        if self.0.1 == 255 {
            None
        } else {
            Some(self.0)
        }
    }
}

/// The bytes of a run of entries.
pub open spec fn raws(segments: Seq<MoveSegment>) -> Seq<(u8, u8)> {
    Seq::new(segments.len(), |i: int| segments[i].raw())
}

/// The entries that stand for one path: its moves, then the mark with its
/// length.
pub open spec fn encoded(path: Seq<(u8, u8)>) -> Seq<(u8, u8)> {
    path.push((path.len() as u8, 255u8))
}

/// The entries that stand for a list of paths, one path after the other.
pub open spec fn flattened(paths: Seq<Seq<(u8, u8)>>) -> Seq<(u8, u8)>
    decreases paths.len(),
{
    if paths.len() == 0 {
        Seq::empty()
    } else {
        flattened(paths.drop_last()) + encoded(paths.last())
    }
}

/// Each path takes at least one entry of the buffer.
pub proof fn lemma_flattened_len(paths: Seq<Seq<(u8, u8)>>)
    ensures
        paths.len() <= flattened(paths).len(),
    decreases paths.len(),
{
    if paths.len() > 0 {
        lemma_flattened_len(paths.drop_last());
    }
}

/// The entries of a list of paths begin with the entries of its first path.
pub proof fn lemma_flattened_front(paths: Seq<Seq<(u8, u8)>>)
    requires
        paths.len() > 0,
    ensures
        flattened(paths) =~= encoded(paths.first()) + flattened(paths.drop_first()),
    decreases paths.len(),
{
    if paths.len() == 1 {
        assert(flattened(paths.drop_last()) =~= Seq::<(u8, u8)>::empty());
        assert(flattened(paths.drop_first()) =~= Seq::<(u8, u8)>::empty());
    } else {
        let shorter = paths.drop_last();
        lemma_flattened_front(shorter);
        assert(shorter.first() == paths.first());
        assert(paths.drop_first().drop_last() =~= shorter.drop_first());
        assert(paths.drop_first().last() == paths.last());
    }
}

/// Whether a path can be stored: it is shorter than 256 moves and none of
/// its moves looks like a mark.
pub open spec fn storable(path: Seq<(u8, u8)>) -> bool {
    &&& path.len() < 256
    &&& forall|i: int| 0 <= i < path.len() ==> (#[trigger] path[i]).1 != 255
}

/// A line of paths still to be explored, each a sequence of moves from the
/// root. The path that has waited longest is the first one popped, so that
/// the search goes through the positions level by level. All paths share one
/// buffer, in which each is closed by a mark that tells its length.
pub struct MoveQueue {
    segments: VecDeque<MoveSegment>,
    paths: Ghost<Seq<Seq<(u8, u8)>>>,
}

impl View for MoveQueue {
    type V = Seq<Seq<(u8, u8)>>;

    /// The paths in the list, oldest first.
    closed spec fn view(&self) -> Seq<Seq<(u8, u8)>> {
        self.paths@
    }
}

impl MoveQueue {
    /// The buffer holds the flattened paths, and every path can be stored.
    pub closed spec fn wf(&self) -> bool {
        &&& raws(self.segments@) =~= flattened(self.paths@)
        &&& forall|j: int| 0 <= j < self.paths@.len() ==> storable(#[trigger] self.paths@[j])
    }

    /// The list never holds more paths than a `usize` can count.
    pub proof fn lemma_len_fits(&self)
        requires
            self.wf(),
        ensures
            self@.len() <= usize::MAX,
    {
        lemma_flattened_len(self.paths@);
        assert(self.segments@.len() == self.segments.len());
        assert(raws(self.segments@).len() == self.segments@.len());
    }

    /// An empty list.
    pub fn new() -> (queue: Self)
        ensures
            queue.wf(),
            queue@ == Seq::<Seq<(u8, u8)>>::empty(),
    {
        MoveQueue { segments: VecDeque::new(), paths: Ghost(Seq::empty()) }
    }

    /// Whether no path is left.
    pub fn is_empty(&self) -> (empty: bool)
        requires
            self.wf(),
        ensures
            empty == (self@.len() == 0),
    {
        proof {
            if self.paths@.len() > 0 {
                assert(flattened(self.paths@).len() > 0);
            }
        }
        self.segments.len() == 0
    }

    /// Drops every path.
    pub fn clear(&mut self)
        ensures
            final(self).wf(),
            final(self)@ == Seq::<Seq<(u8, u8)>>::empty(),
    {
        self.segments.clear();
        self.paths = Ghost(Seq::empty());
    }

    /// Appends the moves of `m` to the buffer.
    fn extend(&mut self, m: &[(u8, u8)])
        ensures
            raws(final(self).segments@) == raws(old(self).segments@) + m@,
            final(self).paths@ == old(self).paths@,
    {
        let ghost before = raws(self.segments@);
        let mut i: usize = 0;
        while i < m.len()
            invariant
                i <= m@.len(),
                self.paths@ == old(self).paths@,
                raws(self.segments@) == before + m@.take(i as int),
            decreases m@.len() - i,
        {
            let ghost earlier = self.segments@;
            self.segments.push_back(MoveSegment::from_move(m[i]));
            proof {
                assert(raws(self.segments@) =~= raws(earlier).push(m@[i as int]));
                assert(m@.take(i + 1) =~= m@.take(i as int).push(m@[i as int]));
            }
            i = i + 1;
        }
        assert(m@.take(m@.len() as int) == m@);
    }

    /// Adds the path `m` to the list.
    pub fn push(&mut self, m: &[(u8, u8)])
        requires
            old(self).wf(),
            storable(m@),
        ensures
            final(self).wf(),
            final(self)@ == old(self)@.push(m@),
    {
        self.extend(m);
        let ghost filled = self.segments@;
        self.segments.push_back(MoveSegment::from_depth(m.len() as u8));
        proof {
            let grown = self.paths@.push(m@);
            assert(grown.drop_last() =~= self.paths@);
            assert(grown.last() == m@);
            assert(raws(self.segments@) =~= raws(filled).push((m@.len() as u8, 255u8)));
            assert(flattened(grown) == flattened(self.paths@) + encoded(m@));
            self.paths@ = grown;
            assert(raws(self.segments@) =~= flattened(self.paths@));
        }
    }

    /// Adds the path made of `m` followed by the move `next` to the list.
    pub fn push_suffixed(&mut self, m: &[(u8, u8)], next: (u8, u8))
        requires
            old(self).wf(),
            storable(m@.push(next)),
        ensures
            final(self).wf(),
            final(self)@ == old(self)@.push(m@.push(next)),
    {
        self.extend(m);
        let ghost filled = self.segments@;
        self.segments.push_back(MoveSegment::from_move(next));
        let ghost longer = self.segments@;
        self.segments.push_back(MoveSegment::from_depth(m.len() as u8 + 1));
        proof {
            let path = m@.push(next);
            let grown = self.paths@.push(path);
            assert(grown.drop_last() =~= self.paths@);
            assert(grown.last() == path);
            assert(raws(longer) =~= raws(filled).push(next));
            assert(raws(self.segments@) =~= raws(longer).push((path.len() as u8, 255u8)));
            assert(flattened(grown) == flattened(self.paths@) + encoded(path));
            self.paths@ = grown;
            assert(raws(self.segments@) =~= flattened(self.paths@));
        }
    }

    /// Takes the path that has waited longest off the line; `None` when the
    /// line is empty.
    pub fn pop(&mut self) -> (path: Option<Vec<(u8, u8)>>)
        requires
            old(self).wf(),
        ensures
            final(self).wf(),
            match path {
                Some(moves) => {
                    &&& old(self)@.len() > 0
                    &&& moves@ == old(self)@.first()
                    &&& final(self)@ == old(self)@.drop_first()
                    &&& storable(moves@)
                },
                None => old(self)@.len() == 0 && final(self)@ == old(self)@,
            },
    {
        let ghost paths = self.paths@;
        if self.segments.len() == 0 {
            proof {
                if paths.len() > 0 {
                    lemma_flattened_len(paths);
                }
            }
            return None;
        }
        let ghost first = paths.first();
        let ghost rest = flattened(paths.drop_first());
        proof {
            if paths.len() == 0 {
                assert(flattened(paths).len() == 0);
            }
            lemma_flattened_front(paths);
            assert(storable(paths[0]));
        }
        let mut moves: Vec<(u8, u8)> = Vec::new();
        let mut closed: bool = false;
        while !closed
            invariant
                storable(first),
                self.paths@ == paths,
                moves@.len() <= first.len(),
                moves@ == first.take(moves@.len() as int),
                !closed ==> raws(self.segments@) =~= encoded(first).skip(moves@.len() as int) + rest,
                closed ==> moves@ == first && raws(self.segments@) =~= rest,
            decreases first.len() - moves@.len() + if closed {
                    0int
                } else {
                    1int
                },
        {
            let ghost left = raws(self.segments@);
            let ghost taken = moves@.len() as int;
            assert(left[0] == encoded(first)[taken]);
            let head: MoveSegment = match self.segments.pop_front() {
                Some(segment) => segment,
                None => {
                    proof {
                        assert(false);
                    }
                    return None;
                },
            };
            assert(head.raw() == left[0]);
            proof {
                assert(raws(self.segments@) =~= left.skip(1));
            }
            match head.as_move() {
                Some(m) => {
                    proof {
                        assert(taken < first.len());
                        assert(encoded(first).skip(taken).skip(1) =~= encoded(first).skip(taken + 1));
                        assert(left.skip(1) =~= encoded(first).skip(taken + 1) + rest);
                        assert(first.take(taken + 1) =~= first.take(taken).push(first[taken]));
                    }
                    moves.push(m);
                },
                None => {
                    proof {
                        assert(taken == first.len());
                        assert(first.take(taken) =~= first);
                        assert(left.skip(1) =~= rest);
                    }
                    closed = true;
                },
            }
        }
        proof {
            self.paths@ = paths.drop_first();
            assert forall|j: int| 0 <= j < paths.drop_first().len() implies storable(
                #[trigger] paths.drop_first()[j],
            ) by {
                assert(paths.drop_first()[j] == paths[j + 1]);
            }
        }
        Some(moves)
    }
}

impl Default for MoveQueue {
    /// An empty list.
    fn default() -> (queue: Self)
        ensures
            queue.wf(),
            queue@ == Seq::<Seq<(u8, u8)>>::empty(),
    {
        MoveQueue::new()
    }
}

} // verus!
