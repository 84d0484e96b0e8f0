//! Interned terms.

use vstd::prelude::*;
use std::collections::HashMap;
use crate::tokenize::strings_view;

verus! {

/// `rustc_hash::FxBuildHasher`, the hasher of [`TermTable`]'s map.
#[verifier::external_type_specification]
#[verifier::external_body]
pub struct ExFxBuildHasher(rustc_hash::FxBuildHasher);

/// What a map from terms to numbers holds.
pub uninterp spec fn fx_contents(m: HashMap<String, usize, rustc_hash::FxBuildHasher>) -> Map<Seq<char>, usize>;

/// `FxHashMap::default`: a map that holds nothing.
#[verifier::external_body]
fn fx_new() -> (r: HashMap<String, usize, rustc_hash::FxBuildHasher>)
    ensures
        fx_contents(r).dom() == Set::<Seq<char>>::empty(),
{
    rustc_hash::FxHashMap::default()
}

/// `HashMap::get` by a term.
#[verifier::external_body]
fn fx_get(m: &HashMap<String, usize, rustc_hash::FxBuildHasher>, term: &str) -> (r: Option<usize>)
    ensures
        r == if fx_contents(*m).dom().contains(term@) { Some(fx_contents(*m)[term@]) } else { None },
{
    m.get(term).copied()
}

/// `HashMap::insert`: the term maps to the number from now on, all others to
/// what they did.
#[verifier::external_body]
fn fx_insert(m: &mut HashMap<String, usize, rustc_hash::FxBuildHasher>, term: String, id: usize)
    ensures
        fx_contents(*final(m)) == fx_contents(*old(m)).insert(term@, id),
{
    m.insert(term, id);
}

/// Terms numbered in the order they were first seen.
pub struct TermTable {
    ids: HashMap<String, usize, rustc_hash::FxBuildHasher>,
    names: Vec<String>,
}

impl TermTable {
    /// The terms, each at its number.
    pub closed spec fn names(&self) -> Seq<Seq<char>> {
        strings_view(self.names@)
    }

    /// The map knows exactly the listed terms, each once.
    pub closed spec fn wf(&self) -> bool {
        &&& forall|i: int| 0 <= i < self.names@.len() ==> {
            &&& fx_contents(self.ids).dom().contains((#[trigger] self.names@[i])@)
            &&& fx_contents(self.ids)[self.names@[i]@] == i
        }
        &&& forall|t: Seq<char>| #[trigger] fx_contents(self.ids).dom().contains(t) ==> fx_contents(self.ids)[t] < self.names@.len()
            && self.names@[fx_contents(self.ids)[t] as int]@ == t
    }

    /// No term is listed twice.
    pub proof fn lemma_distinct(&self)
        requires
            self.wf(),
        ensures
            forall|i: int, j: int| 0 <= i < self.names().len() && 0 <= j < self.names().len() && self.names()[i] == self.names()[j] ==> i == j,
    {
        assert forall|i: int, j: int| 0 <= i < self.names().len() && 0 <= j < self.names().len() && self.names()[i] == self.names()[j] implies i == j by {
            assert(self.names()[i] == self.names@[i]@);
            assert(self.names()[j] == self.names@[j]@);
        }
    }

    pub fn new() -> (r: Self)
        ensures
            r.wf(),
            r.names().len() == 0,
    {
        TermTable { ids: fx_new(), names: Vec::new() }
    }

    /// How many terms there are.
    pub fn len(&self) -> (r: usize)
        ensures
            r == self.names().len(),
    {
        self.names.len()
    }

    /// The term with number `i`.
    pub fn name(&self, i: usize) -> (r: &String)
        requires
            i < self.names().len(),
        ensures
            r@ == self.names()[i as int],
    {
        &self.names[i]
    }

    /// The number of a term.
    pub fn find(&self, term: &str) -> (r: Option<usize>)
        requires
            self.wf(),
        ensures
            match r {
                Some(i) => i < self.names().len() && self.names()[i as int] == term@,
                None => !self.names().contains(term@),
            },
    {
        let r: Option<usize> = fx_get(&self.ids, term);
        proof {
            if r is None && self.names().contains(term@) {
                let i = self.names().index_of(term@);
                assert(self.names@[i]@ == term@);
            }
        }
        r
    }

    /// The number of a term, which is added if it is new.
    pub fn intern(&mut self, term: &str) -> (r: usize)
        requires
            old(self).wf(),
        ensures
            final(self).wf(),
            r < final(self).names().len(),
            final(self).names()[r as int] == term@,
            old(self).names().contains(term@) ==> final(self).names() == old(self).names(),
            !old(self).names().contains(term@) ==> final(self).names() == old(self).names().push(term@) && r == old(self).names().len(),
    {
        match self.find(term) {
            Some(i) => {
                proof {
                    assert(self.names()[i as int] == term@);
                }
                i
            },
            None => {
                let id: usize = self.names.len();
                let ghost was = self.names@;
                let ghost ids = fx_contents(self.ids);
                self.names.push(term.to_owned());
                fx_insert(&mut self.ids, term.to_owned(), id);
                proof {
                    assert(self.names() =~= strings_view(was).push(term@));
                    assert forall|i: int| 0 <= i < self.names@.len() implies {
                        &&& fx_contents(self.ids).dom().contains((#[trigger] self.names@[i])@)
                        &&& fx_contents(self.ids)[self.names@[i]@] == i
                    } by {
                        if i < was.len() {
                            assert(was[i]@ != term@) by {
                                assert(strings_view(was)[i] == was[i]@);
                            }
                        }
                    }
                }
                id
            },
        }
    }
}

} // verus!
