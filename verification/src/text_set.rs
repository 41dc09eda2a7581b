//! A set of texts that remembers the order in which they came in.

use vstd::prelude::*;
use vstd::hash_set::StringHashSet;
use crate::text::views;

verus! {

/// A set of texts. Its view is the set; `list` gives its members in the
/// order in which they were inserted.
pub struct TextSet {
    items: Vec<String>,
    index: StringHashSet,
}

impl View for TextSet {
    type V = Set<Seq<char>>;

    closed spec fn view(&self) -> Set<Seq<char>> {
        self.index@
    }
}

impl TextSet {
    /// The members, each once, oldest first.
    pub closed spec fn list(&self) -> Seq<Seq<char>> {
        views(self.items@)
    }

    #[verifier::type_invariant]
    closed spec fn consistent(&self) -> bool {
        &&& views(self.items@).no_duplicates()
        &&& forall|p: Seq<char>| #[trigger] self.index@.contains(p) <==> views(self.items@).contains(p)
    }

    pub fn new() -> (r: TextSet)
        ensures
            r@ == Set::<Seq<char>>::empty(),
            r.list() == Seq::<Seq<char>>::empty(),
    {
        let r = TextSet { items: Vec::new(), index: StringHashSet::new() };
        assert(r.list() =~= Seq::<Seq<char>>::empty());
        r
    }

    /// The list holds every member of the set once, and nothing else.
    pub open spec fn listed(&self) -> bool {
        &&& self.list().no_duplicates()
        &&& forall|p: Seq<char>| #[trigger] self@.contains(p) <==> self.list().contains(p)
    }

    pub fn len(&self) -> (r: usize)
        ensures
            r == self.list().len(),
            self@.finite(),
            r == self@.len(),
            self.listed(),
    {
        proof {
            use_type_invariant(self);
            let list = views(self.items@);
            list.unique_seq_to_set();
            assert(list.to_set() =~= self@) by {
                assert forall|p: Seq<char>| list.to_set().contains(p) <==> self@.contains(p) by {
                    assert(self.index@.contains(p) <==> list.contains(p));
                }
            }
        }
        self.items.len()
    }

    pub fn is_empty(&self) -> (r: bool)
        ensures
            r == (self.list().len() == 0),
            r == (self@ =~= Set::<Seq<char>>::empty()),
    {
        proof {
            use_type_invariant(self);
            if self.items@.len() > 0 {
                assert(views(self.items@)[0] == self.items@[0]@);
                assert(self@.contains(self.items@[0]@));
            }
        }
        self.items.len() == 0
    }

    pub fn contains(&self, text: &str) -> (r: bool)
        ensures
            r == self@.contains(text@),
            self.listed(),
    {
        proof {
            use_type_invariant(self);
        }
        self.index.contains(text)
    }

    /// Adds a text; tells whether it was new.
    pub fn insert(&mut self, text: String) -> (r: bool)
        ensures
            final(self)@ == old(self)@.insert(text@),
            r == !old(self)@.contains(text@),
            final(self).list() == if old(self)@.contains(text@) {
                old(self).list()
            } else {
                old(self).list().push(text@)
            },
    {
        proof {
            use_type_invariant(&*self);
        }
        if self.index.contains(text.as_str()) {
            assert(old(self)@ =~= old(self)@.insert(text@));
            return false;
        }
        let mut taken = TextSet::new();
        core::mem::swap(self, &mut taken);
        let TextSet { mut items, mut index } = taken;
        let ghost before = views(items@);
        index.insert(text.clone());
        items.push(text);
        proof {
            assert(views(items@) =~= before.push(text@));
            assert forall|p: Seq<char>| #[trigger] index@.contains(p) <==> views(items@).contains(p) by {
                if before.contains(p) {
                    let i = choose|i: int| 0 <= i < before.len() && before[i] == p;
                    assert(views(items@)[i] == p);
                }
                assert(views(items@)[before.len() as int] == text@);
            }
        }
        *self = TextSet { items, index };
        true
    }
}

} // verus!
