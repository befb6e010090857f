//! The persistence serializer: sorts the table by key (case-insensitively,
//! via Unicode upper-casing) and renders it as dictionary text, one entry
//! per line, with no trailing newline.  Saving leaves the in-memory table
//! sorted as a side effect.

use vstd::prelude::*;
use vstd::seq_lib::group_to_multiset_ensures;

use crate::Dictionary;
use crate::Entry;
use crate::EntryModel;
use crate::distinct_keys;
use crate::sep_arrow;
use crate::sep_eq;
use crate::text::ascii_fold;
use crate::text::chars_to_string;
use crate::text::concat_with;
use crate::text::lemma_concat_with_push;
use crate::text::lemma_lex_le_total;
use crate::text::lemma_lex_le_trans;
use crate::text::lex_le;
use crate::text::lex_le_exec;
use crate::text::str_to_chars;
use crate::text::to_upper_string;
use crate::text::upper_of;
use crate::valid_entry;
use crate::valid_table;

verus! {

/// The sort order of the serializer: lexicographic comparison (by code
/// point) of the Unicode upper-casings of the keys.
pub open spec fn key_le(a: EntryModel, b: EntryModel) -> bool {
    lex_le(upper_of(a.left), upper_of(b.left))
}

/// The table is sorted by `key_le`.
pub open spec fn sorted_fold(es: Seq<EntryModel>) -> bool {
    forall|i: int, j: int| 0 <= i < j < es.len() ==> key_le(#[trigger] es[i], #[trigger] es[j])
}

/// One serialized line: `<key> = <elem1> --> ... --> <elemN>`.
pub open spec fn line_of(e: EntryModel) -> Seq<char> {
    e.left + sep_eq() + concat_with(e.right, sep_arrow())
}

/// The serialized text: the lines joined by `'\n'`, no trailing newline;
/// an empty table serializes to the empty text.
pub open spec fn serialize_spec(es: Seq<EntryModel>) -> Seq<char> {
    concat_with(es.map_values(|e: EntryModel| line_of(e)), seq!['\n'])
}

/// Every entry of a sequence multiset-equal to a table of valid entries is
/// valid.
pub proof fn lemma_valid_of_multiset(orig: Seq<EntryModel>, s: Seq<EntryModel>)
    requires
        forall|i: int| 0 <= i < orig.len() ==> valid_entry(#[trigger] orig[i]),
        s.to_multiset() == orig.to_multiset(),
    ensures
        forall|i: int| 0 <= i < s.len() ==> valid_entry(#[trigger] s[i]),
{
    broadcast use group_to_multiset_ensures;

    assert forall|i: int| 0 <= i < s.len() implies valid_entry(#[trigger] s[i]) by {
        assert(s.contains(s[i]));
        assert(s.to_multiset().count(s[i]) > 0);
        assert(orig.contains(s[i]));
        let j = choose|j: int| 0 <= j < orig.len() && orig[j] == s[i];
        assert(valid_entry(orig[j]));
    }
}

/// Key distinctness survives any reordering.
pub proof fn lemma_distinct_of_multiset(orig: Seq<EntryModel>, s: Seq<EntryModel>)
    requires
        distinct_keys(orig),
        s.to_multiset() == orig.to_multiset(),
    ensures
        distinct_keys(s),
{
    broadcast use group_to_multiset_ensures;

    assert forall|a: int, b: int| 0 <= a < b < s.len() implies ascii_fold(
        #[trigger] s[a].left,
    ) != ascii_fold(#[trigger] s[b].left) by {
        if ascii_fold(s[a].left) == ascii_fold(s[b].left) {
            if s[a] == s[b] {
                // the same entry twice: its count is at least 2
                let e = s[a];
                let s2 = s.remove(a);
                assert(s2.to_multiset() =~= s.to_multiset().remove(e));
                assert(s2[b - 1] == e);
                assert(s2.contains(e));
                assert(s2.to_multiset().count(e) > 0);
                assert(s.to_multiset().count(e) >= 2);
                assert(orig.to_multiset().count(e) >= 2);
                assert(orig.contains(e));
                let i = choose|i: int| 0 <= i < orig.len() && orig[i] == e;
                let o2 = orig.remove(i);
                assert(o2.to_multiset() =~= orig.to_multiset().remove(e));
                assert(o2.to_multiset().count(e) >= 1);
                assert(o2.contains(e));
                let j = choose|j: int| 0 <= j < o2.len() && o2[j] == e;
                let j2 = if j < i {
                    j
                } else {
                    j + 1
                };
                assert(orig[j2] == e);
                assert(j2 != i);
            } else {
                assert(s.contains(s[a]) && s.contains(s[b]));
                assert(orig.to_multiset().count(s[a]) > 0);
                assert(orig.to_multiset().count(s[b]) > 0);
                assert(orig.contains(s[a]) && orig.contains(s[b]));
                let i = choose|i: int| 0 <= i < orig.len() && orig[i] == s[a];
                let j = choose|j: int| 0 <= j < orig.len() && orig[j] == s[b];
                assert(i != j);
            }
        }
    }
}

fn sep_eq_vec() -> (r: Vec<char>)
    ensures
        r@ == sep_eq(),
{
    let mut v: Vec<char> = Vec::new();
    v.push(' ');
    v.push('=');
    v.push(' ');
    proof {
        assert(v@ =~= sep_eq());
    }
    v
}

fn sep_arrow_vec() -> (r: Vec<char>)
    ensures
        r@ == sep_arrow(),
{
    let mut v: Vec<char> = Vec::new();
    v.push(' ');
    v.push('-');
    v.push('-');
    v.push('>');
    v.push(' ');
    proof {
        assert(v@ =~= sep_arrow());
    }
    v
}

/// Joins a chain with ` --> `.
#[verifier::loop_isolation(false)]
fn join_chain(chain: &Vec<String>) -> (r: Vec<char>)
    ensures
        r@ == concat_with(chain.deep_view(), sep_arrow()),
{
    let ghost cv = chain.deep_view();
    let mut out: Vec<char> = Vec::new();
    let nc = chain.len();
    proof {
        assert(cv.len() == chain@.len());
        assert(cv.subrange(0, 0) =~= Seq::<Seq<char>>::empty());
        assert(out@ =~= concat_with(cv.subrange(0, 0), sep_arrow()));
    }
    let mut j: usize = 0;
    while j < nc
        invariant
            0 <= j <= nc,
            nc == cv.len(),
            out@ == concat_with(cv.subrange(0, j as int), sep_arrow()),
        decreases nc - j,
    {
        if j > 0 {
            let mut av = sep_arrow_vec();
            out.append(&mut av);
        }
        proof {
            assert(cv[j as int] == chain@[j as int]@);
        }
        let mut ev = str_to_chars(chain[j].as_str());
        out.append(&mut ev);
        proof {
            let pre = cv.subrange(0, j as int);
            lemma_concat_with_push(pre, cv[j as int], sep_arrow());
            assert(pre.push(cv[j as int]) =~= cv.subrange(0, j + 1));
            assert(out@ =~= concat_with(cv.subrange(0, j + 1), sep_arrow()));
        }
        j = j + 1;
    }
    proof {
        assert(cv.subrange(0, nc as int) =~= cv);
    }
    out
}

/// Decides whether `a`'s sort key is strictly greater than `b`'s.
fn key_gt_exec(a: &Entry, b: &Entry) -> (r: bool)
    ensures
        r == !key_le(a@, b@),
{
    let ua = to_upper_string(a.left.as_str());
    let ub = to_upper_string(b.left.as_str());
    let ca = str_to_chars(ua.as_str());
    let cb = str_to_chars(ub.as_str());
    !lex_le_exec(&ca, &cb)
}

impl Dictionary {
    /// Selection sort of the table by `key_le`.  The result is some sorted
    /// permutation of the entries; an already sorted table is not changed.
    #[verifier::loop_isolation(false)]
    pub(crate) fn sort_entries(&mut self)
        requires
            old(self).wf(),
        ensures
            final(self).wf(),
            sorted_fold(final(self)@),
            final(self)@.to_multiset() == old(self)@.to_multiset(),
            sorted_fold(old(self)@) ==> final(self)@ == old(self)@,
    {
        broadcast use group_to_multiset_ensures;

        let ghost orig = self@;
        let mut rem: Vec<Entry> = Vec::new();
        core::mem::swap(&mut rem, &mut self.entries);
        let ghost remv = Seq::new(rem@.len(), |i: int| rem@[i]@);
        proof {
            assert(remv =~= orig);
            assert(self@ =~= Seq::<EntryModel>::empty());
            assert(Seq::<EntryModel>::empty().to_multiset().add(orig.to_multiset())
                =~= orig.to_multiset());
            assert(orig.subrange(0, 0) =~= Seq::<EntryModel>::empty());
            assert(orig.subrange(0, orig.len() as int) =~= orig);
        }
        while rem.len() > 0
            invariant
                self@.len() + rem@.len() == orig.len(),
                self@.to_multiset().add(Seq::new(rem@.len(), |i: int| rem@[i]@).to_multiset())
                    == orig.to_multiset(),
                sorted_fold(self@),
                forall|a: int, b: int|
                    0 <= a < self@.len() && 0 <= b < rem@.len() ==> key_le(
                        #[trigger] self@[a],
                        #[trigger] rem@[b]@,
                    ),
                sorted_fold(orig) ==> (self@ == orig.subrange(0, self@.len() as int) && Seq::new(
                    rem@.len(),
                    |i: int| rem@[i]@,
                ) == orig.subrange(self@.len() as int, orig.len() as int)),
            decreases rem@.len(),
        {
            let ghost outv = self@;
            let ghost remv = Seq::new(rem@.len(), |i: int| rem@[i]@);
            let n = rem.len();
            let mut m: usize = 0;
            let mut j: usize = 1;
            proof {
                crate::text::lemma_lex_le_refl(upper_of(rem@[0]@.left));
            }
            while j < n
                invariant
                    0 <= m < j <= n,
                    n == rem@.len(),
                    forall|q: int| 0 <= q < j ==> key_le(rem@[m as int]@, #[trigger] rem@[q]@),
                    sorted_fold(orig) ==> m == 0,
                decreases n - j,
            {
                if key_gt_exec(&rem[m], &rem[j]) {
                    proof {
                        lemma_lex_le_total(upper_of(rem@[m as int]@.left), upper_of(
                            rem@[j as int]@.left,
                        ));
                        assert forall|q: int| 0 <= q < j + 1 implies key_le(
                            rem@[j as int]@,
                            #[trigger] rem@[q]@,
                        ) by {
                            if q < j {
                                lemma_lex_le_trans(
                                    upper_of(rem@[j as int]@.left),
                                    upper_of(rem@[m as int]@.left),
                                    upper_of(rem@[q as int]@.left),
                                );
                            } else {
                                crate::text::lemma_lex_le_refl(upper_of(rem@[j as int]@.left));
                            }
                        }
                        if sorted_fold(orig) {
                            // a sorted table never triggers a swap
                            assert(remv == orig.subrange(outv.len() as int, orig.len() as int));
                            assert(remv[m as int] == orig[outv.len() + m]);
                            assert(remv[j as int] == orig[outv.len() + j]);
                            assert(key_le(remv[m as int], remv[j as int]));
                            assert(false);
                        }
                    }
                    m = j;
                }
                j = j + 1;
            }
            let e = rem.remove(m);
            self.entries.push(e);
            proof {
                let outv2 = self@;
                let remv2 = Seq::new(rem@.len(), |i: int| rem@[i]@);
                assert(outv2 =~= outv.push(e@));
                assert(remv2 =~= remv.remove(m as int));
                assert(remv.remove(m as int).to_multiset() =~= remv.to_multiset().remove(
                    remv[m as int],
                ));
                assert(remv[m as int] == e@);
                assert(remv.contains(remv[m as int]));
                assert(remv.to_multiset().count(e@) > 0);
                assert(outv2.to_multiset().add(remv2.to_multiset()) =~= orig.to_multiset());
                // sortedness of the grown prefix
                assert forall|a: int, b: int| 0 <= a < b < outv2.len() implies key_le(
                    #[trigger] outv2[a],
                    #[trigger] outv2[b],
                ) by {
                    if b == outv2.len() - 1 {
                        assert(outv2[a] == outv[a]);
                        assert(key_le(outv[a], remv[m as int]));
                    }
                }
                // the minimum stays below everything left over
                assert forall|a: int, b: int|
                    0 <= a < outv2.len() && 0 <= b < remv2.len() implies key_le(
                    #[trigger] outv2[a],
                    #[trigger] remv2[b],
                ) by {
                    let b0 = if b < m {
                        b
                    } else {
                        b + 1
                    };
                    assert(remv2[b] == remv[b0]);
                    if a < outv2.len() - 1 {
                        assert(outv2[a] == outv[a]);
                        assert(key_le(outv[a], remv[b0]));
                    } else {
                        assert(outv2[a] == remv[m as int]);
                        assert(key_le(remv[m as int], remv[b0]));
                    }
                }
                if sorted_fold(orig) {
                    assert(m == 0);
                    assert(outv2 =~= orig.subrange(0, outv2.len() as int));
                    assert(remv2 =~= orig.subrange(outv2.len() as int, orig.len() as int));
                }
            }
        }
        proof {
            let remv2 = Seq::new(rem@.len(), |i: int| rem@[i]@);
            assert(remv2 =~= Seq::<EntryModel>::empty());
            assert forall|x: EntryModel| remv2.to_multiset().count(x) == 0 by {
                if remv2.to_multiset().count(x) > 0 {
                    assert(remv2.contains(x));
                }
            }
            assert(self@.to_multiset().add(remv2.to_multiset()) =~= self@.to_multiset());
            assert(self@.to_multiset() == orig.to_multiset());
            lemma_valid_of_multiset(orig, self@);
            lemma_distinct_of_multiset(orig, self@);
            if sorted_fold(orig) {
                assert(self@ == orig.subrange(0, self@.len() as int));
                assert(self@.to_multiset().len() == self@.len());
                assert(orig.to_multiset().len() == orig.len());
                assert(self@.len() == orig.len());
                assert(orig.subrange(0, orig.len() as int) =~= orig);
            }
        }
    }

    /// The chain at `index` joined with ` --> `, or `None` if out of range.
    pub fn get_all_right_to_string(&self, index: usize) -> (r: Option<String>)
        ensures
            match r {
                Some(s) => index < self@.len() && s@ == concat_with(
                    self@[index as int].right,
                    sep_arrow(),
                ),
                None => index >= self@.len(),
            },
    {
        if index < self.entries.len() {
            let jc = join_chain(&self.entries[index].right);
            proof {
                assert(self@[index as int].right == self.entries@[index as int]@.right);
            }
            Some(chars_to_string(&jc))
        } else {
            None
        }
    }

    /// Renders the table as dictionary text, without reordering it.
    #[verifier::loop_isolation(false)]
    fn render(&self) -> (r: String)
        requires
            self.wf(),
        ensures
            r@ == serialize_spec(self@),
    {
        let ghost lines = self@.map_values(|e: EntryModel| line_of(e));
        let mut out: Vec<char> = Vec::new();
        let n = self.entries.len();
        let mut i: usize = 0;
        proof {
            assert(self@.subrange(0, 0).map_values(|e: EntryModel| line_of(e))
                =~= Seq::<Seq<char>>::empty());
            assert(out@ =~= serialize_spec(self@.subrange(0, 0)));
        }
        while i < n
            invariant
                0 <= i <= n,
                n == self@.len(),
                out@ == serialize_spec(self@.subrange(0, i as int)),
            decreases n - i,
        {
            let ghost done = self@.subrange(0, i as int);
            if i > 0 {
                out.push('\n');
            }
            let ghost e = self@[i as int];
            proof {
                assert(valid_entry(e));
            }
            // build the line for entry i
            let entry = &self.entries[i];
            let mut lb = str_to_chars(entry.left.as_str());
            let mut sepv = sep_eq_vec();
            lb.append(&mut sepv);
            proof {
                assert(entry@ == e);
                assert(lb@ == e.left + sep_eq());
                assert(e.right.subrange(0, 0) =~= Seq::<Seq<char>>::empty());
                assert(concat_with(e.right.subrange(0, 0), sep_arrow()) =~= Seq::<char>::empty());
                assert(lb@ =~= e.left + sep_eq() + concat_with(e.right.subrange(0, 0), sep_arrow()));
            }
            let mut jc = join_chain(&entry.right);
            lb.append(&mut jc);
            proof {
                assert(entry.right.deep_view() == e.right);
                assert(lb@ =~= line_of(e));
            }
            out.append(&mut lb);
            i = i + 1;
            proof {
                let done2 = self@.subrange(0, i as int);
                let lines_done = done.map_values(|x: EntryModel| line_of(x));
                let lines_done2 = done2.map_values(|x: EntryModel| line_of(x));
                lemma_concat_with_push(lines_done, line_of(e), seq!['\n']);
                assert(lines_done2 =~= lines_done.push(line_of(e)));
                if i == 1 {
                    assert(out@ =~= serialize_spec(done2));
                } else {
                    assert(serialize_spec(done) + seq!['\n'] + line_of(e) =~= out@);
                    assert(out@ =~= serialize_spec(done2));
                }
            }
        }
        proof {
            assert(self@.subrange(0, n as int) =~= self@);
        }
        chars_to_string(&out)
    }

    /// Sorts the table by key (case-insensitively) and returns the
    /// serialized dictionary text.
    ///
    /// The result is exactly the serialization of the table as left behind,
    /// so saving twice in a row without a mutation in between returns
    /// byte-identical text: the first call leaves the table sorted, and a
    /// sorted table is not changed by sorting again.
    pub fn save_to_string(&mut self) -> (r: String)
        requires
            old(self).wf(),
        ensures
            final(self).wf(),
            sorted_fold(final(self)@),
            final(self)@.to_multiset() == old(self)@.to_multiset(),
            r@ == serialize_spec(final(self)@),
            sorted_fold(old(self)@) ==> final(self)@ == old(self)@,
    {
        self.sort_entries();
        self.render()
    }
}

} // verus!
