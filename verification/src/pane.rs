//! Output for a pane whose window has not connected yet: it is kept, in
//! order, until the window hands over its terminal.

use vstd::prelude::*;

verus! {

/// The chunks written to a pane before its window connected, oldest first.
pub struct PendingOutput {
    chunks: Vec<Vec<u8>>,
}

impl View for PendingOutput {
    type V = Seq<Seq<u8>>;

    closed spec fn view(&self) -> Seq<Seq<u8>> {
        self.chunks@.map_values(|c: Vec<u8>| c@)
    }
}

impl PendingOutput {
    /// Nothing pending.
    pub fn new() -> (r: PendingOutput)
        ensures
            r@ == Seq::<Seq<u8>>::empty(),
    {
        let r = PendingOutput { chunks: Vec::new() };
        assert(r@ =~= Seq::<Seq<u8>>::empty());
        r
    }

    /// Keeps `buf` for later; like a write that accepts everything, it
    /// reports `buf.len()` bytes written.
    pub fn write(&mut self, buf: &[u8]) -> (r: usize)
        ensures
            r == buf@.len(),
            final(self)@ == old(self)@.push(buf@),
    {
        let ghost before = self@;
        let mut v: Vec<u8> = Vec::new();
        let mut i: usize = 0;
        while i < buf.len()
            invariant
                i <= buf@.len(),
                v@ == buf@.take(i as int),
            decreases buf@.len() - i,
        {
            v.push(buf[i]);
            assert(buf@.take(i + 1) =~= buf@.take(i as int).push(buf@[i as int]));
            i = i + 1;
        }
        assert(buf@.take(buf@.len() as int) =~= buf@);
        self.chunks.push(v);
        assert(self@ =~= before.push(buf@));
        buf.len()
    }

    /// Hands over everything pending, oldest first, and keeps nothing.
    pub fn take(&mut self) -> (r: Vec<Vec<u8>>)
        ensures
            r@.map_values(|c: Vec<u8>| c@) == old(self)@,
            final(self)@ == Seq::<Seq<u8>>::empty(),
    {
        let mut r: Vec<Vec<u8>> = Vec::new();
        std::mem::swap(&mut r, &mut self.chunks);
        assert(self@ =~= Seq::<Seq<u8>>::empty());
        r
    }

    /// Nothing is pending.
    pub fn is_empty(&self) -> (r: bool)
        ensures
            r == (self@.len() == 0),
    {
        self.chunks.len() == 0
    }
}


/// What is pending after `write` of each chunk of `ws`, in order, starting
/// from the pending chunks `p`.
pub open spec fn after_writes(p: Seq<Seq<u8>>, ws: Seq<Seq<u8>>) -> Seq<Seq<u8>>
    decreases ws.len(),
{
    if ws.len() == 0 {
        p
    } else {
        after_writes(p.push(ws[0]), ws.drop_first())
    }
}

/// Chunks written one after another are all kept, in the order of the
/// calls, after what was already pending; so `take` after `new` and those
/// writes hands them over exactly as they were written.
pub proof fn lemma_writes_kept_in_order(p: Seq<Seq<u8>>, ws: Seq<Seq<u8>>)
    ensures
        after_writes(p, ws) == p + ws,
        after_writes(Seq::empty(), ws) == ws,
    decreases ws.len(),
{
    if ws.len() > 0 {
        lemma_writes_kept_in_order(p.push(ws[0]), ws.drop_first());
        assert(p.push(ws[0]) + ws.drop_first() =~= p + ws);
        lemma_writes_kept_in_order(Seq::empty().push(ws[0]), ws.drop_first());
        assert(Seq::<Seq<u8>>::empty().push(ws[0]) + ws.drop_first() =~= ws);
    } else {
        assert(p + ws =~= p);
    }
}

} // verus!
