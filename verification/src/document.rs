//! Sections and the document that a parse assembles from them.

use vstd::prelude::*;
use crate::sorted::{find, has_key, keys_ascending, lemma_index_of, upsert, value_of};
use crate::value::{values_view, Dictionary, Value, ValueView};

verus! {

/// One named block of a document: its entries and its table rows.
#[derive(Debug, PartialEq)]
pub struct Section {
    pub dictionary: Dictionary,
    pub rows: Vec<Vec<Value>>,
}

/// What a `Section` stands for.
#[verifier::ext_equal]
pub struct SectionView {
    pub dictionary: Map<Seq<char>, ValueView>,
    pub rows: Seq<Seq<ValueView>>,
}

/// What each of `rows` stands for, in order.
pub open spec fn rows_view(rows: Seq<Vec<Value>>) -> Seq<Seq<ValueView>> {
    Seq::new(rows.len(), |i: int| values_view(rows[i]@))
}

impl View for Section {
    type V = SectionView;

    open spec fn view(&self) -> SectionView {
        SectionView { dictionary: self.dictionary@, rows: rows_view(self.rows@) }
    }
}

impl SectionView {
    /// The section without entries and rows.
    pub open spec fn empty() -> SectionView {
        SectionView { dictionary: Map::empty(), rows: Seq::empty() }
    }
}

impl Section {
    /// A section without entries and rows.
    pub fn new() -> (section: Section)
        ensures
            section@ == SectionView::empty(),
    {
        Section::with_capacity(0)
    }

    /// A section without entries and rows, with room for `capacity` rows.
    pub fn with_capacity(capacity: usize) -> (section: Section)
        ensures
            section@ == SectionView::empty(),
    {
        let section = Section { dictionary: Dictionary::new(), rows: Vec::with_capacity(capacity) };
        assert(section@ =~= SectionView::empty());
        section
    }
}

/// A mapping from section names to sections with unique names, kept in
/// ascending order of the names.
#[derive(Debug, PartialEq)]
pub struct Document {
    sections: Vec<(String, Section)>,
}

impl View for Document {
    type V = Map<Seq<char>, SectionView>;

    closed spec fn view(&self) -> Map<Seq<char>, SectionView> {
        Map::new(
            |name: Seq<char>| has_key(self.sections@, name),
            |name: Seq<char>| value_of(self.sections@, name)@,
        )
    }
}

impl Document {
    #[verifier::type_invariant]
    spec fn ascending(self) -> bool {
        keys_ascending(self.sections@)
    }

    /// A document without sections.
    pub fn new() -> (document: Document)
        ensures
            document@ == Map::<Seq<char>, SectionView>::empty(),
    {
        let document = Document { sections: Vec::new() };
        assert(document@ =~= Map::<Seq<char>, SectionView>::empty());
        document
    }

    /// Puts `section` under `name`; a section already there is replaced and
    /// returned.
    pub fn insert(&mut self, name: String, section: Section) -> (previous: Option<Section>)
        ensures
            final(self)@ == old(self)@.insert(name@, section@),
            match previous {
                Some(s) => old(self)@.contains_key(name@) && s@ == old(self)@[name@],
                None => !old(self)@.contains_key(name@),
            },
    {
        proof {
            use_type_invariant(&*self);
        }
        let ghost before = self.sections@;
        let ghost name_view = name@;
        let ghost section_view = section@;
        let mut sections: Vec<(String, Section)> = Vec::new();
        std::mem::swap(&mut self.sections, &mut sections);
        let previous = upsert(&mut sections, name, section);
        self.sections = sections;
        proof {
            let after = self.sections@;
            assert forall|k: Seq<char>| k != name_view && has_key(before, k) implies value_of(
                after,
                k,
            ) == value_of(before, k) by {}
            assert(self@ =~= old(self)@.insert(name_view, section_view));
        }
        previous
    }

    /// The section under `name`, if there is one.
    pub fn get(&self, name: &str) -> (r: Option<&Section>)
        ensures
            match r {
                Some(s) => self@.contains_key(name@) && s@ == self@[name@],
                None => !self@.contains_key(name@),
            },
    {
        proof {
            use_type_invariant(self);
        }
        find(&self.sections, name)
    }

    /// The sections in ascending order of their names.
    pub fn sections(&self) -> (r: &Vec<(String, Section)>)
        ensures
            keys_ascending(r@),
            forall|name: Seq<char>| #[trigger] has_key(r@, name) <==> self@.contains_key(name),
            forall|i: int| 0 <= i < r@.len() ==> self@[r@[i].0@] == (#[trigger] r@[i]).1@,
    {
        proof {
            use_type_invariant(self);
            assert forall|i: int| 0 <= i < self.sections@.len() implies self@[self.sections@[i].0@]
                == (#[trigger] self.sections@[i]).1@ by {
                lemma_index_of(self.sections@, i);
            }
        }
        &self.sections
    }
}

} // verus!
