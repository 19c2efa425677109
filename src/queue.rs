use vstd::prelude::*;
use std::collections::VecDeque;
use crate::tile::Tile;

verus! {

/// The pending tiles, handed out front first. Each claim removes the tile it
/// returns, so a tile is delivered to exactly one claimant.
pub struct WorkQueue {
    pending: VecDeque<Tile>,
}

impl View for WorkQueue {
    type V = Seq<Tile>;

    closed spec fn view(&self) -> Seq<Tile> {
        self.pending@
    }
}

impl WorkQueue {
    /// A queue holding `tiles`, in their order.
    pub fn from_tiles(tiles: Vec<Tile>) -> (r: WorkQueue)
        ensures
            r@ == tiles@,
    {
        let ghost all = tiles@;
        let mut rest = tiles;
        let mut pending: VecDeque<Tile> = VecDeque::new();
        while rest.len() > 0
            invariant
                rest@.len() <= all.len(),
                rest@ == all.subrange(0, rest@.len() as int),
                pending@ == all.subrange(rest@.len() as int, all.len() as int),
            decreases rest@.len(),
        {
            let t = rest.pop().unwrap();
            pending.push_front(t);
            proof {
                assert(pending@ =~= all.subrange(rest@.len() as int, all.len() as int));
                assert(rest@ =~= all.subrange(0, rest@.len() as int));
            }
        }
        proof {
            assert(pending@ =~= all);
        }
        WorkQueue { pending }
    }

    /// Number of tiles not yet claimed.
    pub fn len(&self) -> (r: usize)
        ensures
            r == self@.len(),
    {
        self.pending.len()
    }

    /// Adds a tile at the back.
    pub fn push(&mut self, tile: Tile)
        ensures
            final(self)@ == old(self)@.push(tile),
    {
        self.pending.push_back(tile);
    }

    /// Takes the front tile out of the queue; `None` once it is empty.
    pub fn claim(&mut self) -> (r: Option<Tile>)
        ensures
            old(self)@.len() == 0 ==> r is None && final(self)@ == old(self)@,
            old(self)@.len() > 0 ==> r == Some(old(self)@[0]) && final(self)@ == old(self)@.drop_first(),
    {
        let r = self.pending.pop_front();
        proof {
            if old(self)@.len() > 0 {
                assert(self@ =~= old(self)@.drop_first());
            }
        }
        r
    }
}

} // verus!
