//! A small word-mapping store: each "left" key maps to an ordered,
//! append-only history of "right" values (an evolution chain), with
//! circular case-insensitive search, a strictly validated line-oriented
//! text format, and canonical sorted serialization.

use vstd::prelude::*;

pub mod errors;
pub mod mutate;
pub mod parse;
pub mod roundtrip;
pub mod save;
pub mod search;
pub mod text;

pub use errors::BrokenReason;
pub use errors::ReadError;
pub use errors::ReasonModel;
pub use errors::WriteError;
pub use text::ascii_fold;
pub use text::contains_sub;
pub use text::is_ws;
pub use text::lower_char;
pub use text::sub_at;
pub use text::trim_end_spec;
pub use text::trim_spec;
pub use text::trim_start_spec;

verus! {

/// One entry of the store: a lookup key and the ordered history of values
/// assigned to it; the last element of `right` is the current value.
pub struct Entry {
    pub left: String,
    pub right: Vec<String>,
}

/// Ghost model of an entry: the key and the chain, as character sequences.
pub struct EntryModel {
    pub left: Seq<char>,
    pub right: Seq<Seq<char>>,
}

impl View for Entry {
    type V = EntryModel;

    open spec fn view(&self) -> EntryModel {
        EntryModel { left: self.left@, right: self.right.deep_view() }
    }
}

/// The chain separator `-->`, forbidden inside keys and chain elements.
pub open spec fn arrow() -> Seq<char> {
    seq!['-', '-', '>']
}

/// The text written between a key and its chain: `` = ``.
pub open spec fn sep_eq() -> Seq<char> {
    seq![' ', '=', ' ']
}

/// The text written between chain elements: `` --> ``.
pub open spec fn sep_arrow() -> Seq<char> {
    seq![' ', '-', '-', '>', ' ']
}

/// A stored key: trimmed, and free of the two format delimiters.
pub open spec fn valid_key(k: Seq<char>) -> bool {
    &&& !contains_sub(k, arrow())
    &&& !k.contains('=')
    &&& trim_spec(k) == k
}

/// A stored chain element: non-empty, trimmed, and free of the delimiters.
pub open spec fn valid_elem(v: Seq<char>) -> bool {
    &&& v.len() > 0
    &&& !contains_sub(v, arrow())
    &&& !v.contains('=')
    &&& trim_spec(v) == v
}

/// A well-formed entry: a valid key and a non-empty chain of valid elements.
pub open spec fn valid_entry(e: EntryModel) -> bool {
    &&& valid_key(e.left)
    &&& e.right.len() > 0
    &&& forall|j: int| 0 <= j < e.right.len() ==> valid_elem(#[trigger] e.right[j])
}

/// Keys are pairwise distinct under ASCII case folding.
pub open spec fn distinct_keys(es: Seq<EntryModel>) -> bool {
    forall|i: int, j: int|
        0 <= i < j < es.len() ==> ascii_fold(#[trigger] es[i].left) != ascii_fold(
            #[trigger] es[j].left,
        )
}

/// The store invariant.
pub open spec fn valid_table(es: Seq<EntryModel>) -> bool {
    &&& forall|i: int| 0 <= i < es.len() ==> valid_entry(#[trigger] es[i])
    &&& distinct_keys(es)
}

/// The in-memory dictionary: an ordered, index-addressed sequence of entries.
///
/// Every constructor establishes and every method preserves `wf`; code that
/// builds a `Dictionary` directly must establish `wf` itself.
pub struct Dictionary {
    pub entries: Vec<Entry>,
}

impl View for Dictionary {
    type V = Seq<EntryModel>;

    open spec fn view(&self) -> Seq<EntryModel> {
        Seq::new(self.entries@.len(), |i: int| self.entries@[i]@)
    }
}

impl Dictionary {
    /// The store invariant, established by every constructor and preserved
    /// by every method.
    pub open spec fn wf(&self) -> bool {
        valid_table(self@)
    }

    /// Creates an empty dictionary.
    pub fn new() -> (d: Dictionary)
        ensures
            d@ == Seq::<EntryModel>::empty(),
            d.wf(),
    {
        let d = Dictionary { entries: Vec::new() };
        proof {
            assert(d@ =~= Seq::<EntryModel>::empty());
        }
        d
    }

    /// The number of entries.
    pub fn count(&self) -> (n: usize)
        ensures
            n == self@.len(),
    {
        self.entries.len()
    }

    /// The key at `index`, or `None` if `index` is out of range.
    pub fn get_left(&self, index: usize) -> (r: Option<&str>)
        ensures
            match r {
                Some(s) => index < self@.len() && s@ == self@[index as int].left,
                None => index >= self@.len(),
            },
    {
        if index < self.entries.len() {
            Some(self.entries[index].left.as_str())
        } else {
            None
        }
    }

    /// The current (most recent) value at `index`, or `None` if out of range.
    pub fn get_right(&self, index: usize) -> (r: Option<&str>)
        requires
            self.wf(),
        ensures
            match r {
                Some(s) => {
                    &&& index < self@.len()
                    &&& s@ == self@[index as int].right[self@[index as int].right.len() - 1]
                },
                None => index >= self@.len(),
            },
    {
        if index < self.entries.len() {
            let chain = &self.entries[index].right;
            proof {
                assert(valid_entry(self@[index as int]));
                assert(chain.deep_view().len() == chain@.len());
            }
            let last = chain.len() - 1;
            assert(chain.deep_view()[last as int] == chain@[last as int]@);
            Some(chain[last].as_str())
        } else {
            None
        }
    }

    /// The whole chain at `index`, oldest first, or `None` if out of range.
    pub fn get_all_right(&self, index: usize) -> (r: Option<&[String]>)
        ensures
            match r {
                Some(v) => index < self@.len() && v.deep_view() == self@[index as int].right,
                None => index >= self@.len(),
            },
    {
        if index < self.entries.len() {
            let chain = self.entries[index].right.as_slice();
            proof {
                assert(chain.deep_view() =~~= self@[index as int].right);
            }
            Some(chain)
        } else {
            None
        }
    }
}

} // verus!
