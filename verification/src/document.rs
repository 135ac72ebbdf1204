//! The nested key-value document that a menu is written in.

use crate::text::same_text;
use vstd::prelude::*;

verus! {

/// A node of a document: a mapping of keys to nodes, a string scalar, or
/// anything else (a list, a number, a null).
#[derive(Debug)]
pub enum Document {
    Mapping(Vec<Entry>),
    Text(String),
    Other,
}

/// One key of a mapping with the node it maps to.
#[derive(Debug)]
pub struct Entry {
    pub key: Document,
    pub value: Document,
}

/// What a `Document` holds.
pub enum DocumentView {
    Mapping(Seq<EntryView>),
    Text(Seq<char>),
    Other,
}

/// What an `Entry` holds.
pub struct EntryView {
    pub key: DocumentView,
    pub value: DocumentView,
}

impl View for Document {
    type V = DocumentView;

    open spec fn view(&self) -> DocumentView
        decreases self,
    {
        match self {
            Document::Mapping(entries) => DocumentView::Mapping(
                Seq::new(
                    entries.len() as nat,
                    |i: int|
                        if 0 <= i < entries.len() {
                            EntryView { key: entries[i].key@, value: entries[i].value@ }
                        } else {
                            EntryView { key: DocumentView::Other, value: DocumentView::Other }
                        },
                ),
            ),
            Document::Text(s) => DocumentView::Text(s@),
            Document::Other => DocumentView::Other,
        }
    }
}

impl View for Entry {
    type V = EntryView;

    open spec fn view(&self) -> EntryView {
        EntryView { key: self.key@, value: self.value@ }
    }
}

impl DocumentView {
    /// The entries of a mapping, in order; none for any other node.
    pub open spec fn entries(self) -> Seq<EntryView> {
        match self {
            DocumentView::Mapping(entries) => entries,
            _ => Seq::empty(),
        }
    }

    /// The characters of a string scalar; none for any other node.
    pub open spec fn text(self) -> Seq<char> {
        match self {
            DocumentView::Text(s) => s,
            _ => Seq::empty(),
        }
    }

    /// Whether this node is a mapping whose keys are all strings.
    pub open spec fn has_names(self) -> bool {
        &&& self is Mapping
        &&& forall|i: int| 0 <= i < self.entries().len() ==> (#[trigger] self.entries()[i]).key is Text
    }

    /// Whether this node can define a menu node: it is a mapping, each of
    /// its keys is a string, and each mapping it maps to can define one too.
    pub open spec fn is_menu(self) -> bool
        decreases self,
    {
        match self {
            DocumentView::Mapping(entries) => forall|i: int|
                0 <= i < entries.len() ==> {
                    &&& (#[trigger] entries[i]).key is Text
                    &&& entries[i].value is Mapping ==> entries[i].value.is_menu()
                },
            _ => false,
        }
    }
}

/// The node that the last entry with the string key `key` maps to.
pub open spec fn lookup(entries: Seq<EntryView>, key: Seq<char>) -> Option<DocumentView>
    decreases entries.len(),
{
    if entries.len() == 0 {
        None
    } else if entries.last().key == DocumentView::Text(key) {
        Some(entries.last().value)
    } else {
        lookup(entries.drop_last(), key)
    }
}

impl Document {
    /// The node that the string key `key` maps to, where this node is a
    /// mapping that has the key. Of equal keys the last counts.
    pub fn get(&self, key: &str) -> (found: Option<&Document>)
        ensures
            match found {
                Some(d) => lookup(self@.entries(), key@) == Some(d@),
                None => lookup(self@.entries(), key@) is None,
            },
    {
        match self {
            Document::Mapping(entries) => {
                let mut i = entries.len();
                assert(self@.entries().take(i as int) =~= self@.entries());
                while i > 0
                    invariant
                        i <= entries.len(),
                        self == Document::Mapping(*entries),
                        lookup(self@.entries(), key@) == lookup(self@.entries().take(i as int), key@),
                    decreases i,
                {
                    let entry = &entries[i - 1];
                    proof {
                        let part = self@.entries().take(i as int);
                        assert(part.last() == entry@);
                        assert(part.drop_last() =~= self@.entries().take(i - 1));
                    }
                    let hit = match &entry.key {
                        Document::Text(name) => same_text(name.as_str(), key),
                        _ => false,
                    };
                    if hit {
                        return Some(&entry.value);
                    }
                    i -= 1;
                }
                None
            },
            _ => None,
        }
    }

    /// The entries of a mapping, in order; none for any other node.
    pub open spec fn spec_entries(&self) -> Seq<Entry> {
        match self {
            Document::Mapping(entries) => entries@,
            _ => Seq::empty(),
        }
    }

    /// Whether this node can define a menu node.
    pub fn is_menu(&self) -> (b: bool)
        ensures
            b == self@.is_menu(),
        decreases self,
    {
        match self {
            Document::Mapping(entries) => {
                let mut i: usize = 0;
                while i < entries.len()
                    invariant
                        i <= entries.len(),
                        self == Document::Mapping(*entries),
                        forall|k: int|
                            0 <= k < i ==> {
                                &&& (#[trigger] self@.entries()[k]).key is Text
                                &&& self@.entries()[k].value is Mapping
                                    ==> self@.entries()[k].value.is_menu()
                            },
                    decreases entries.len() - i,
                {
                    let entry = &entries[i];
                    assert(self@.entries()[i as int] == entry@);
                    let key_is_text = match &entry.key {
                        Document::Text(_) => true,
                        _ => false,
                    };
                    if !key_is_text {
                        return false;
                    }
                    let value_is_mapping = match &entry.value {
                        Document::Mapping(_) => true,
                        _ => false,
                    };
                    if value_is_mapping && !entry.value.is_menu() {
                        return false;
                    }
                    i += 1;
                }
                true
            },
            _ => false,
        }
    }
}

} // verus!
