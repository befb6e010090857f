//! The mutation subsystem: add-or-append, and delete.  Mutations persist
//! through the write path, which re-sorts the whole table, so every
//! successful mutation leaves the table sorted.

use vstd::prelude::*;
use vstd::seq_lib::group_to_multiset_ensures;

use crate::Dictionary;
use crate::Entry;
use crate::EntryModel;
use crate::WriteError;
use crate::arrow;
use crate::parse::arrow_vec;
use crate::parse::first_fold_match_from;
use crate::parse::lemma_first_fold_match_none;
use crate::parse::lemma_first_fold_match_some;
use crate::parse::lemma_trim_spec_trimmed;
use crate::save::sorted_fold;
use crate::text::ascii_fold;
use crate::text::chars_to_string;
use crate::text::contains_char_exec;
use crate::text::contains_sub;
use crate::text::contains_sub_exec;
use crate::text::str_to_chars;
use crate::text::trim_chars;
use crate::text::trim_spec;
use crate::valid_entry;
use crate::valid_key;
use crate::valid_table;

verus! {

/// Decides exact equality of two character vectors.
fn chars_eq(a: &Vec<char>, b: &Vec<char>) -> (r: bool)
    ensures
        r == (a@ == b@),
{
    if a.len() != b.len() {
        return false;
    }
    let mut i: usize = 0;
    while i < a.len()
        invariant
            a@.len() == b@.len(),
            0 <= i <= a@.len(),
            forall|j: int| 0 <= j < i ==> a@[j] == b@[j],
        decreases a@.len() - i,
    {
        if a[i] != b[i] {
            return false;
        }
        i = i + 1;
    }
    proof {
        assert(a@ =~= b@);
    }
    true
}

impl Dictionary {
    /// Adds a word or appends a new current value to an existing word.
    ///
    /// Both inputs are trimmed first.  The key is rejected if it contains
    /// `-->` or `=`; the value if it contains `-->` or `=` or is empty after
    /// trimming; equal key and value are rejected.  If a key with the same
    /// ASCII case folding exists: an identical current value is rejected,
    /// otherwise the value is appended to that entry's chain and `Ok(false)`
    /// ("updated") is returned.  Otherwise a new entry is created and
    /// `Ok(true)` ("created") is returned.  On success the table is
    /// re-sorted, as writing it through the serializer does.
    pub fn add_edit(&mut self, left: &str, right: &str) -> (r: Result<bool, WriteError>)
        requires
            old(self).wf(),
        ensures
            final(self).wf(),
            ({
                let tl = trim_spec(left@);
                let tr = trim_spec(right@);
                let bad_l = contains_sub(tl, arrow()) || tl.contains('=');
                let bad_r = contains_sub(tr, arrow()) || tr.contains('=') || tr.len() == 0;
                if bad_l {
                    &&& r == Err::<bool, WriteError>(WriteError::BadLeftString)
                    &&& final(self)@ == old(self)@
                } else if bad_r {
                    &&& r == Err::<bool, WriteError>(WriteError::BadRightString)
                    &&& final(self)@ == old(self)@
                } else if tl == tr {
                    &&& r == Err::<bool, WriteError>(WriteError::Same)
                    &&& final(self)@ == old(self)@
                } else {
                    match first_fold_match_from(old(self)@, tl, 0) {
                        Some(i) => {
                            if old(self)@[i].right.last() == tr {
                                &&& r == Err::<bool, WriteError>(WriteError::Duplicated)
                                &&& final(self)@ == old(self)@
                            } else {
                                let updated = EntryModel {
                                    left: old(self)@[i].left,
                                    right: old(self)@[i].right.push(tr),
                                };
                                &&& r == Ok::<bool, WriteError>(false)
                                &&& sorted_fold(final(self)@)
                                &&& final(self)@.to_multiset() == old(self)@.update(
                                    i,
                                    updated,
                                ).to_multiset()
                                &&& exists|j: int|
                                    0 <= j < final(self)@.len() && final(self)@[j] == updated
                            }
                        },
                        None => {
                            let added = EntryModel { left: tl, right: seq![tr] };
                            &&& r == Ok::<bool, WriteError>(true)
                            &&& sorted_fold(final(self)@)
                            &&& final(self)@.to_multiset() == old(self)@.push(added).to_multiset()
                            &&& exists|j: int|
                                0 <= j < final(self)@.len() && final(self)@[j] == added
                        },
                    }
                }
            }),
    {
        broadcast use group_to_multiset_ensures;

        let lc0 = str_to_chars(left);
        let lc = trim_chars(&lc0);
        let rc0 = str_to_chars(right);
        let rc = trim_chars(&rc0);
        let ghost tl = trim_spec(left@);
        let ghost tr = trim_spec(right@);
        let arrowv = arrow_vec();
        if contains_sub_exec(&lc, &arrowv) || contains_char_exec(&lc, '=') {
            return Err(WriteError::BadLeftString);
        }
        if contains_sub_exec(&rc, &arrowv) || contains_char_exec(&rc, '=') || rc.len() == 0 {
            return Err(WriteError::BadRightString);
        }
        if chars_eq(&lc, &rc) {
            return Err(WriteError::Same);
        }
        proof {
            lemma_trim_spec_trimmed(left@);
            lemma_trim_spec_trimmed(right@);
            assert(valid_key(tl));
            assert(crate::valid_elem(tr));
        }
        match self.find_fold_from0(&lc) {
            Some(i) => {
                proof {
                    lemma_first_fold_match_some(self@, tl, 0, i as int);
                    assert(valid_entry(self@[i as int]));
                }
                let last = self.entries[i].right.len() - 1;
                let lastc = str_to_chars(self.entries[i].right[last].as_str());
                proof {
                    assert(self@[i as int].right[last as int]
                        == self.entries@[i as int].right@[last as int]@);
                    assert(self@[i as int].right.last() == self@[i as int].right[last as int]);
                }
                if chars_eq(&lastc, &rc) {
                    return Err(WriteError::Duplicated);
                }
                let ghost old_view = self@;
                let ghost updated = EntryModel {
                    left: old_view[i as int].left,
                    right: old_view[i as int].right.push(tr),
                };
                let mut ent = self.entries.remove(i);
                ent.right.push(chars_to_string(&rc));
                self.entries.insert(i, ent);
                proof {
                    assert(ent@.right =~= old_view[i as int].right.push(tr));
                    assert(ent@ == updated);
                    assert(self@ =~= old_view.update(i as int, updated));
                    // the mutated table is still well formed: the key did
                    // not change and the appended element is valid
                    assert forall|a: int| 0 <= a < self@.len() implies valid_entry(
                        #[trigger] self@[a],
                    ) by {
                        if a != i {
                            assert(self@[a] == old_view[a]);
                        } else {
                            assert forall|q: int| 0 <= q < updated.right.len() implies
                                crate::valid_elem(#[trigger] updated.right[q]) by {
                                if q < updated.right.len() - 1 {
                                    assert(updated.right[q] == old_view[i as int].right[q]);
                                }
                            }
                        }
                    }
                    assert forall|a: int, b: int| 0 <= a < b < self@.len() implies ascii_fold(
                        #[trigger] self@[a].left,
                    ) != ascii_fold(#[trigger] self@[b].left) by {
                        assert(self@[a].left == old_view[a].left);
                        assert(self@[b].left == old_view[b].left);
                    }
                    assert(self.wf());
                }
                self.sort_entries();
                proof {
                    assert(final(self)@.to_multiset().count(updated) == old_view.update(
                        i as int,
                        updated,
                    ).to_multiset().count(updated));
                    assert(old_view.update(i as int, updated).contains(updated)) by {
                        assert(old_view.update(i as int, updated)[i as int] == updated);
                    }
                    assert(final(self)@.to_multiset().count(updated) > 0);
                    assert(final(self)@.contains(updated));
                }
                Ok(false)
            },
            None => {
                let ghost old_view = self@;
                let ghost added = EntryModel { left: tl, right: seq![tr] };
                let mut chain: Vec<String> = Vec::new();
                chain.push(chars_to_string(&rc));
                let ent = Entry { left: chars_to_string(&lc), right: chain };
                proof {
                    assert(ent@.right =~= seq![tr]);
                    assert(ent@ == added);
                }
                self.entries.push(ent);
                proof {
                    assert(self@ =~= old_view.push(added));
                    lemma_first_fold_match_none(old_view, tl, 0);
                    assert forall|a: int| 0 <= a < self@.len() implies valid_entry(
                        #[trigger] self@[a],
                    ) by {
                        if a < self@.len() - 1 {
                            assert(self@[a] == old_view[a]);
                        } else {
                            assert(self@[a] == added);
                            assert(added.right[0] == tr);
                        }
                    }
                    assert forall|a: int, b: int| 0 <= a < b < self@.len() implies ascii_fold(
                        #[trigger] self@[a].left,
                    ) != ascii_fold(#[trigger] self@[b].left) by {
                        if b < self@.len() - 1 {
                            assert(self@[a] == old_view[a] && self@[b] == old_view[b]);
                        } else {
                            assert(self@[a] == old_view[a] && self@[b] == added);
                        }
                    }
                    assert(self.wf());
                }
                self.sort_entries();
                proof {
                    assert(old_view.push(added).contains(added)) by {
                        assert(old_view.push(added)[old_view.len() as int] == added);
                    }
                    assert(final(self)@.to_multiset().count(added) > 0);
                    assert(final(self)@.contains(added));
                }
                Ok(true)
            },
        }
    }

    /// Deletes the entry at `index`, if it is within bounds, and reports
    /// whether anything was deleted; an out-of-range index is a harmless
    /// no-op, not an error.  Deleting re-sorts the table, as writing it
    /// through the serializer does; later entries shift down by one index.
    pub fn delete(&mut self, index: usize) -> (r: bool)
        requires
            old(self).wf(),
        ensures
            final(self).wf(),
            index < old(self)@.len() ==> {
                &&& r == true
                &&& sorted_fold(final(self)@)
                &&& final(self)@.to_multiset() == old(self)@.remove(index as int).to_multiset()
                &&& sorted_fold(old(self)@) ==> final(self)@ == old(self)@.remove(index as int)
            },
            index >= old(self)@.len() ==> r == false && final(self)@ == old(self)@,
    {
        if index < self.entries.len() {
            let ghost old_view = self@;
            self.entries.remove(index);
            proof {
                assert(self@ =~= old_view.remove(index as int));
                let rv = old_view.remove(index as int);
                assert forall|a: int| 0 <= a < rv.len() implies valid_entry(#[trigger] rv[a]) by {
                    if a < index {
                        assert(rv[a] == old_view[a]);
                    } else {
                        assert(rv[a] == old_view[a + 1]);
                    }
                }
                assert forall|a: int, b: int| 0 <= a < b < rv.len() implies ascii_fold(
                    #[trigger] rv[a].left,
                ) != ascii_fold(#[trigger] rv[b].left) by {
                    let a0 = if a < index {
                        a
                    } else {
                        a + 1
                    };
                    let b0 = if b < index {
                        b
                    } else {
                        b + 1
                    };
                    assert(rv[a] == old_view[a0] && rv[b] == old_view[b0]);
                }
                assert(self.wf());
                if sorted_fold(old_view) {
                    assert forall|a: int, b: int| 0 <= a < b < rv.len() implies crate::save::key_le(
                        #[trigger] rv[a],
                        #[trigger] rv[b],
                    ) by {
                        let a0 = if a < index {
                            a
                        } else {
                            a + 1
                        };
                        let b0 = if b < index {
                            b
                        } else {
                            b + 1
                        };
                        assert(rv[a] == old_view[a0] && rv[b] == old_view[b0]);
                    }
                }
            }
            self.sort_entries();
            true
        } else {
            false
        }
    }
}

} // verus!
