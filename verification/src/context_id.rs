//! Hierarchical identifiers.
//!
//! A [`ContextId`] has a number that no other context has and a dotted path
//! that tells where in the hierarchy it stands. It is not `Clone`: a copy would
//! hand out the same child numbers again. Pass it by reference or move it.

use crate::text;
use vstd::prelude::*;
use vstd::std_specs::cmp::PartialEqSpec;

verus! {

/// The source of the numbers that tell contexts apart.
pub struct IdSource {
    next: u64,
}

impl IdSource {
    /// The number that is handed out next.
    pub closed spec fn next(self) -> u64 {
        self.next
    }

    /// A source that has handed out nothing. Number zero is the root's.
    pub fn new() -> (r: IdSource)
        ensures
            r.next() == 1,
    {
        IdSource { next: 1 }
    }

    /// Hand out a number. After the largest one the numbers start over.
    pub fn take(&mut self) -> (r: u64)
        ensures
            r == old(self).next(),
            final(self).next() == old(self).next().wrapping_add(1),
    {
        let r = self.next;
        self.next = r.wrapping_add(1);
        r
    }
}

/// An identifier in a hierarchy.
pub struct ContextId {
    id: u64,
    name: Vec<u64>,
    child_counter: u64,
}

/// The text of a path: its numbers with dots between them, `0` for the root.
pub open spec fn path_text(path: Seq<u64>) -> Seq<char> {
    if path.len() == 0 {
        seq!['0']
    } else {
        text::joined(path.map_values(|n: u64| n as nat), seq!['.'])
    }
}

/// The root of a hierarchy.
pub open spec fn is_root(context: ContextId) -> bool {
    &&& context.spec_id() == 0
    &&& context.path() == Seq::<u64>::empty()
    &&& context.next_child() == 1
}

/// A child was made: it has the next number of the source and the next place
/// below its parent, and both counters have moved on.
pub open spec fn is_new_child(
    before: ContextId,
    after: ContextId,
    ids_before: IdSource,
    ids_after: IdSource,
    child: ContextId,
) -> bool {
    &&& child.spec_id() == ids_before.next()
    &&& child.path() == before.path().push(before.next_child())
    &&& child.next_child() == 1
    &&& after.spec_id() == before.spec_id()
    &&& after.path() == before.path()
    &&& after.next_child() == before.next_child() + 1
    &&& ids_after.next() == ids_before.next().wrapping_add(1)
}

impl ContextId {
    /// The number that tells this context apart.
    pub closed spec fn spec_id(self) -> u64 {
        self.id
    }

    /// The child numbers on the way down from the root.
    pub closed spec fn path(self) -> Seq<u64> {
        self.name@
    }

    /// The number that the next child gets.
    pub closed spec fn next_child(self) -> u64 {
        self.child_counter
    }

    /// The root of a hierarchy. Make one, and pass it on: every root counts its
    /// children from one.
    pub fn root() -> (r: ContextId)
        ensures
            is_root(r),
    {
        ContextId { id: 0, name: Vec::new(), child_counter: 1 }
    }

    /// Whether there is a number left for one more child.
    pub fn has_room(&self) -> (r: bool)
        ensures
            r == (self.next_child() < u64::MAX),
    {
        self.child_counter < u64::MAX
    }

    /// A new context below this one.
    pub fn new_child(&mut self, ids: &mut IdSource) -> (child: ContextId)
        requires
            old(self).next_child() < u64::MAX,
        ensures
            is_new_child(*old(self), *final(self), *old(ids), *final(ids), child),
    {
        let child_num = self.child_counter;
        self.child_counter = child_num + 1;
        let mut name: Vec<u64> = Vec::new();
        name.extend_from_slice(self.name.as_slice());
        name.push(child_num);
        assert(name@ == old(self).path().push(old(self).next_child()));
        ContextId { id: ids.take(), name, child_counter: 1 }
    }

    /// The number that tells this context apart.
    pub fn id(&self) -> (r: u64)
        ensures
            r == self.spec_id(),
    {
        self.id
    }

    /// The dotted path, `0` for the root.
    pub fn to_string(&self) -> (r: String)
        ensures
            r@ == path_text(self.path()),
    {
        proof {
            reveal_strlit("0");
            reveal_strlit(".");
            assert("0"@ == seq!['0']);
            assert("."@ == seq!['.']);
        }
        if self.name.len() == 0 {
            return "0".to_owned();
        }
        text::joined_text(&self.name, ".")
    }
}

impl PartialEq for ContextId {
    /// Contexts are equal if they have the same number.
    fn eq(&self, other: &Self) -> (r: bool) {
        self.id == other.id
    }
}

impl vstd::std_specs::cmp::PartialEqSpecImpl for ContextId {
    open spec fn obeys_eq_spec() -> bool {
        true
    }

    open spec fn eq_spec(&self, other: &Self) -> bool {
        self.spec_id() == other.spec_id()
    }
}

impl Eq for ContextId {

}

/// `Hash::hash` of a `u64`: it feeds the number to the hasher. Nothing is
/// claimed of what the hasher holds afterwards.
pub assume_specification<H>[ <u64 as std::hash::Hash>::hash::<H> ](n: &u64, state: &mut H) where
    H: std::hash::Hasher,
;

impl std::hash::Hash for ContextId {
    /// Equal contexts hash alike: only the number counts.
    fn hash<H: std::hash::Hasher>(&self, state: &mut H) {
        self.id.hash(state);
    }
}

/// Two contexts are equal if and only if they have the same number, whatever their
/// paths and their children.
pub proof fn lemma_contexts_are_equal_by_their_number(a: ContextId, b: ContextId)
    ensures
        a.eq_spec(&b) <==> a.spec_id() == b.spec_id(),
{
}

/// What a new child is, piece by piece: it has the next number of the source, its path
/// is its parent's and the parent's next child number, and its own children count from
/// one. Of the parent only the next child number changes, by one; the source goes on to
/// the next number, and from the largest to zero.
pub proof fn lemma_new_child_piece_by_piece(
    before: ContextId,
    after: ContextId,
    ids_before: IdSource,
    ids_after: IdSource,
    child: ContextId,
)
    requires
        is_new_child(before, after, ids_before, ids_after, child),
    ensures
        child.spec_id() == ids_before.next(),
        child.path().len() == before.path().len() + 1,
        forall|k: int|
            0 <= k < before.path().len() ==> #[trigger] child.path()[k] == before.path()[k],
        child.path()[before.path().len() as int] == before.next_child(),
        child.next_child() == 1,
        after.spec_id() == before.spec_id(),
        after.path() == before.path(),
        after.next_child() == before.next_child() + 1,
        ids_before.next() < u64::MAX ==> ids_after.next() == ids_before.next() + 1,
        ids_before.next() == u64::MAX ==> ids_after.next() == 0,
{
}

/// The root has number zero and no number on its way, and its first child is number
/// one.
pub proof fn lemma_root_piece_by_piece(root: ContextId)
    requires
        is_root(root),
    ensures
        root.spec_id() == 0,
        root.path().len() == 0,
        root.next_child() == 1,
{
}

} // verus!
