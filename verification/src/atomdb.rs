//! The store of ground atoms that propagation has established.
use crate::program::{copy_vec, DeepCopy, GroundAtom, GroundAtomView};
use vstd::prelude::*;

verus! {

/// A list of ground atoms, in the order they were added; an atom may occur
/// more than once.
pub struct AtomDB {
    atoms: Vec<GroundAtom>,
}

impl DeepView for AtomDB {
    type V = Seq<GroundAtomView>;

    closed spec fn deep_view(&self) -> Seq<GroundAtomView> {
        self.atoms.deep_view()
    }
}

impl AtomDB {
    /// A store that holds `atoms`.
    pub fn new(atoms: Vec<GroundAtom>) -> (r: AtomDB)
        ensures
            r.deep_view() == atoms.deep_view(),
    {
        AtomDB { atoms }
    }

    /// Appends a copy of `atom`.
    pub fn insert(&mut self, atom: &GroundAtom)
        ensures
            final(self).deep_view() == old(self).deep_view().push(atom.deep_view()),
    {
        let ghost before = self.atoms.deep_view();
        self.atoms.push(atom.deep_copy());
        assert(self.atoms.deep_view() =~= before.push(atom.deep_view()));
    }

    /// A copy of the atoms, in order.
    pub fn atoms(&self) -> (r: Vec<GroundAtom>)
        ensures
            r.deep_view() == self.deep_view(),
    {
        copy_vec(&self.atoms)
    }
}


/// Inserting atoms one after another appends them, in the order inserted,
/// after the atoms the store was made with; nothing is dropped, merged or
/// reordered. Here `states[i]` is what a store made with `v` holds after
/// the first `i` inserts of `adds`, each related to the one before as
/// `insert` states (`states[i + 1]` is `states[i]` with `adds[i]` pushed).
pub proof fn lemma_inserts_append(
    v: Seq<GroundAtomView>,
    adds: Seq<GroundAtomView>,
    states: Seq<Seq<GroundAtomView>>,
)
    requires
        states.len() == adds.len() + 1,
        states[0] == v,
        forall|i: int| 0 <= i < adds.len() ==> #[trigger] states[i + 1] == states[i].push(adds[i]),
    ensures
        forall|i: int| 0 <= i <= adds.len() ==> #[trigger] states[i] == v + adds.take(i),
        states.last() == v + adds,
    decreases adds.len(),
{
    if adds.len() == 0 {
        assert(v + adds.take(0) =~= v);
        assert(v + adds =~= v);
    } else {
        let n = adds.len() - 1;
        let s0 = states.drop_last();
        let a0 = adds.drop_last();
        assert forall|i: int| 0 <= i < a0.len() implies #[trigger] s0[i + 1] == s0[i].push(a0[i]) by {
            assert(s0[i + 1] == states[i + 1] && s0[i] == states[i] && a0[i] == adds[i]);
        }
        assert(s0[0] == v);
        lemma_inserts_append(v, a0, s0);
        assert forall|i: int| 0 <= i <= adds.len() implies #[trigger] states[i] == v + adds.take(i) by {
            if i <= n {
                assert(states[i] == s0[i]);
                assert(adds.take(i) =~= a0.take(i));
            } else {
                assert(states[n + 1] == states[n].push(adds[n]));
                assert(states[n] == s0[n]);
                assert(a0.take(n) =~= adds.take(n));
                assert((v + adds.take(n)).push(adds[n]) =~= v + adds.take(i));
            }
        }
        assert(adds.take(adds.len() as int) =~= adds);
    }
}

} // verus!
