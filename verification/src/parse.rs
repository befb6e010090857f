//! The persistence parser: line-oriented dictionary text to table entries,
//! with strict validation and line-precise error reporting.
//!
//! The text is split on `'\n'`; each line is trimmed; blank lines are
//! skipped without advancing the line counter.  A non-blank line is split on
//! `'='`: the first segment is the candidate key, the second the value
//! section, which is split on `-->` into the chain.  The first violation
//! aborts the load; entries of earlier lines stay in the table.

use vstd::prelude::*;

use crate::BrokenReason;
use crate::Dictionary;
use crate::Entry;
use crate::EntryModel;
use crate::ReadError;
use crate::ReasonModel;
use crate::arrow;
use crate::text::ascii_fold;
use crate::text::chars_to_string;
use crate::text::contains_sub;
use crate::text::contains_sub_exec;
use crate::text::eq_fold;
use crate::text::is_trimmed;
use crate::text::is_ws;
use crate::text::lemma_contains_char_sub;
use crate::text::lemma_split_on_first_prefix;
use crate::text::lemma_split_on_len;
use crate::text::lemma_split_on_pieces_free;
use crate::text::lemma_trim_end_props;
use crate::text::lemma_trim_start_props;
use crate::text::lemma_trimmed_fix;
use crate::text::split_chars;
use crate::text::split_on;
use crate::text::str_to_chars;
use crate::text::sub_at;
use crate::text::trim_chars;
use crate::text::trim_end_spec;
use crate::text::trim_spec;
use crate::text::trim_start_spec;
use crate::valid_entry;
use crate::valid_key;

verus! {

// ---------------------------------------------------------------------------
// Spec model of one line
// ---------------------------------------------------------------------------

/// What one raw line means to the parser.
pub enum LineOutcome {
    /// Blank after trimming: skipped, the line counter does not advance.
    Blank,
    /// The line parses into this entry.
    Good { entry: EntryModel },
    /// The line is rejected, with the (partially parsed) key and the reason.
    Bad { left: Seq<char>, reason: ReasonModel },
}

/// First index at or after `i` whose key's ASCII case folding equals `k`'s.
pub open spec fn first_fold_match_from(es: Seq<EntryModel>, k: Seq<char>, i: int) -> Option<int>
    decreases es.len() - i,
{
    if !(0 <= i <= es.len()) {
        None
    } else if i == es.len() {
        None
    } else if ascii_fold(es[i].left) == ascii_fold(k) {
        Some(i)
    } else {
        first_fold_match_from(es, k, i + 1)
    }
}

pub proof fn lemma_first_fold_match_none(es: Seq<EntryModel>, k: Seq<char>, i: int)
    requires
        0 <= i <= es.len(),
        first_fold_match_from(es, k, i) is None,
    ensures
        forall|j: int| i <= j < es.len() ==> ascii_fold(#[trigger] es[j].left) != ascii_fold(k),
    decreases es.len() - i,
{
    if i < es.len() {
        lemma_first_fold_match_none(es, k, i + 1);
    }
}

pub proof fn lemma_first_fold_match_some(es: Seq<EntryModel>, k: Seq<char>, i: int, m: int)
    requires
        0 <= i <= es.len(),
        first_fold_match_from(es, k, i) == Some(m),
    ensures
        i <= m < es.len(),
        ascii_fold(es[m].left) == ascii_fold(k),
        forall|j: int| i <= j < m ==> ascii_fold(#[trigger] es[j].left) != ascii_fold(k),
    decreases es.len() - i,
{
    if i < es.len() && ascii_fold(es[i].left) != ascii_fold(k) {
        lemma_first_fold_match_some(es, k, i + 1, m);
    }
}

/// The parser's verdict on one raw line, given the table built so far.
/// Checks run in this order: chain separator in the key; duplicate key;
/// missing value section; extra `=`; empty chain element.
pub open spec fn parse_line(table: Seq<EntryModel>, raw: Seq<char>) -> LineOutcome {
    let l = trim_spec(raw);
    if l.len() == 0 {
        LineOutcome::Blank
    } else {
        let segs = split_on(l, seq!['=']);
        let left0 = segs[0];
        if contains_sub(left0, arrow()) {
            LineOutcome::Bad { left: left0, reason: ReasonModel::BadLeft }
        } else {
            let key = trim_end_spec(left0);
            match first_fold_match_from(table, key, 0) {
                Some(i) => LineOutcome::Bad {
                    left: key,
                    reason: ReasonModel::Duplicated { another_left_string: table[i].left },
                },
                None => {
                    if segs.len() < 2 {
                        LineOutcome::Bad { left: key, reason: ReasonModel::NoRight }
                    } else if segs.len() > 2 {
                        LineOutcome::Bad {
                            left: key,
                            reason: ReasonModel::BadRight { right_string: segs[1] },
                        }
                    } else {
                        let pieces = split_on(segs[1], arrow());
                        let elems = pieces.map_values(|p: Seq<char>| trim_spec(p));
                        if exists|j: int| 0 <= j < elems.len() && #[trigger] elems[j].len() == 0 {
                            LineOutcome::Bad {
                                left: key,
                                reason: ReasonModel::BadRight { right_string: segs[1] },
                            }
                        } else {
                            LineOutcome::Good { entry: EntryModel { left: key, right: elems } }
                        }
                    }
                },
            }
        }
    }
}

// ---------------------------------------------------------------------------
// Spec model of a whole load
// ---------------------------------------------------------------------------

/// What a load leaves behind.
pub enum LoadOutcome {
    /// Every line parsed; `table` is the resulting table.
    Success { table: Seq<EntryModel> },
    /// Line number `line` (1-based, counting entry lines) was rejected;
    /// `table` holds the entries of the lines before it.
    Failure { table: Seq<EntryModel>, line: int, left: Seq<char>, reason: ReasonModel },
}

/// Folds `parse_line` over the raw lines, growing `table`.
pub open spec fn load_lines(
    table: Seq<EntryModel>,
    lines: Seq<Seq<char>>,
    counter: int,
) -> LoadOutcome
    decreases lines.len(),
{
    if lines.len() == 0 {
        LoadOutcome::Success { table }
    } else {
        match parse_line(table, lines[0]) {
            LineOutcome::Blank => load_lines(table, lines.subrange(1, lines.len() as int), counter),
            LineOutcome::Good { entry } => load_lines(
                table.push(entry),
                lines.subrange(1, lines.len() as int),
                counter + 1,
            ),
            LineOutcome::Bad { left, reason } => LoadOutcome::Failure {
                table,
                line: counter,
                left,
                reason,
            },
        }
    }
}

// ---------------------------------------------------------------------------
// Counting helpers (to bound the line counter)
// ---------------------------------------------------------------------------

pub open spec fn sum_lens(lines: Seq<Seq<char>>) -> int
    decreases lines.len(),
{
    if lines.len() == 0 {
        0
    } else {
        lines[0].len() + sum_lens(lines.subrange(1, lines.len() as int))
    }
}

/// The pieces of a split, plus one separator per cut, make up the input.
pub proof fn lemma_split_sum(h: Seq<char>, n: Seq<char>)
    requires
        n.len() > 0,
    ensures
        sum_lens(split_on(h, n)) + (split_on(h, n).len() - 1) * n.len() == h.len(),
    decreases h.len(),
{
    lemma_split_on_len(h, n);
    if sub_at(h, n, 0) {
        let t = h.subrange(n.len() as int, h.len() as int);
        lemma_split_sum(t, n);
        lemma_split_on_len(t, n);
        let r = split_on(h, n);
        let rt = split_on(t, n);
        assert(r == seq![Seq::<char>::empty()] + rt);
        assert(r.subrange(1, r.len() as int) =~= rt);
        assert(sum_lens(r) == r[0].len() + sum_lens(r.subrange(1, r.len() as int)));
        assert(r[0].len() == 0);
        assert(sum_lens(r) == sum_lens(rt));
        assert(r.len() == rt.len() + 1);
        assert((r.len() - 1) * n.len() == (rt.len() - 1) * n.len() + n.len())
            by (nonlinear_arith)
            requires
                r.len() == rt.len() + 1,
        ;
        assert(sum_lens(rt) + (rt.len() - 1) * n.len() == t.len());
        assert(t.len() == h.len() - n.len());
    } else if h.len() == 0 {
        assert(split_on(h, n) == seq![Seq::<char>::empty()]);
        assert(seq![Seq::<char>::empty()].subrange(1, 1) =~= Seq::<Seq<char>>::empty());
        assert(sum_lens(Seq::<Seq<char>>::empty()) == 0);
        assert(sum_lens(split_on(h, n)) == 0);
        assert((split_on(h, n).len() - 1) * n.len() == 0) by (nonlinear_arith)
            requires
                split_on(h, n).len() == 1,
        ;
    } else {
        let t = h.subrange(1, h.len() as int);
        lemma_split_sum(t, n);
        lemma_split_on_len(t, n);
        let r = split_on(h, n);
        let rt = split_on(t, n);
        assert(r == seq![seq![h[0]] + rt[0]] + rt.subrange(1, rt.len() as int));
        assert(r.subrange(1, r.len() as int) =~= rt.subrange(1, rt.len() as int));
        assert(sum_lens(r) == r[0].len() + sum_lens(r.subrange(1, r.len() as int)));
        assert(sum_lens(rt) == rt[0].len() + sum_lens(rt.subrange(1, rt.len() as int)));
        assert(r[0].len() == rt[0].len() + 1);
        assert(r.len() == rt.len());
        assert(sum_lens(r) == sum_lens(rt) + 1);
        assert(sum_lens(rt) + (rt.len() - 1) * n.len() == t.len());
        assert(t.len() == h.len() - 1);
    }
}

// ---------------------------------------------------------------------------
// Occurrence transfer lemmas
// ---------------------------------------------------------------------------

/// An occurrence inside a subrange is an occurrence in the whole.
pub proof fn lemma_contains_sub_subrange(s: Seq<char>, a: int, b: int, n: Seq<char>)
    requires
        0 <= a <= b <= s.len(),
        contains_sub(s.subrange(a, b), n),
    ensures
        contains_sub(s, n),
{
    let p = s.subrange(a, b);
    let i = choose|i: int| sub_at(p, n, i);
    assert(s.subrange(a + i, a + i + n.len() as int) =~= p.subrange(i, i + n.len() as int));
    assert(sub_at(s, n, a + i));
}

/// The trimmed sequence is a subrange of the original: occurrences and
/// characters transfer.
pub proof fn lemma_trim_spec_is_subrange(s: Seq<char>) -> (ab: (int, int))
    ensures
        0 <= ab.0 <= ab.1 <= s.len(),
        trim_spec(s) == s.subrange(ab.0, ab.1),
{
    lemma_trim_start_props(s);
    let t = trim_start_spec(s);
    lemma_trim_end_props(t);
    let a = s.len() - t.len();
    let b = a + trim_end_spec(t).len();
    assert(t.subrange(0, trim_end_spec(t).len() as int) =~= s.subrange(a, b));
    (a, b)
}

/// The result of trimming is itself trimmed.
pub proof fn lemma_trim_spec_trimmed(s: Seq<char>)
    ensures
        is_trimmed(trim_spec(s)),
        trim_spec(trim_spec(s)) == trim_spec(s),
{
    lemma_trim_start_props(s);
    let t = trim_start_spec(s);
    lemma_trim_end_props(t);
    let e = trim_end_spec(t);
    if e.len() > 0 {
        assert(e[0] == t[0]);
    }
    lemma_trimmed_fix(e);
}

pub proof fn lemma_sum_lens_nonneg(lines: Seq<Seq<char>>)
    ensures
        sum_lens(lines) >= 0,
    decreases lines.len(),
{
    if lines.len() > 0 {
        lemma_sum_lens_nonneg(lines.subrange(1, lines.len() as int));
    }
}

pub proof fn lemma_sum_lens_split(lines: Seq<Seq<char>>, i: int)
    requires
        0 <= i <= lines.len(),
    ensures
        sum_lens(lines) == sum_lens(lines.subrange(0, i)) + sum_lens(
            lines.subrange(i, lines.len() as int),
        ),
    decreases i,
{
    if i == 0 {
        assert(lines.subrange(0, 0) =~= Seq::<Seq<char>>::empty());
        assert(lines.subrange(0, lines.len() as int) =~= lines);
    } else {
        let tail = lines.subrange(1, lines.len() as int);
        lemma_sum_lens_split(tail, i - 1);
        let front = lines.subrange(0, i);
        assert(sum_lens(front) == front[0].len() + sum_lens(front.subrange(1, front.len() as int)));
        assert(front.subrange(1, front.len() as int) =~= tail.subrange(0, i - 1));
        assert(lines.subrange(i, lines.len() as int) =~= tail.subrange(i - 1, tail.len() as int));
    }
}

/// Every character of every piece of a split occurs in the input.
pub proof fn lemma_split_on_pieces_chars(h: Seq<char>, n: Seq<char>, c: char)
    requires
        n.len() > 0,
        !h.contains(c),
    ensures
        forall|k: int| 0 <= k < split_on(h, n).len() ==> !(#[trigger] split_on(h, n)[k]).contains(
            c,
        ),
    decreases h.len(),
{
    let r = split_on(h, n);
    if sub_at(h, n, 0) {
        let t = h.subrange(n.len() as int, h.len() as int);
        assert(!t.contains(c)) by {
            if t.contains(c) {
                let i = choose|i: int| 0 <= i < t.len() && t[i] == c;
                assert(h[n.len() + i] == c);
            }
        }
        lemma_split_on_pieces_chars(t, n, c);
        assert forall|k: int| 0 <= k < r.len() implies !(#[trigger] r[k]).contains(c) by {
            if k == 0 {
                assert(r[0] =~= Seq::<char>::empty());
            } else {
                assert(r[k] == split_on(t, n)[k - 1]);
            }
        }
    } else if h.len() == 0 {
        assert forall|k: int| 0 <= k < r.len() implies !(#[trigger] r[k]).contains(c) by {
            assert(r[k] =~= Seq::<char>::empty());
        }
    } else {
        let t = h.subrange(1, h.len() as int);
        assert(!t.contains(c)) by {
            if t.contains(c) {
                let i = choose|i: int| 0 <= i < t.len() && t[i] == c;
                assert(h[1 + i] == c);
            }
        }
        lemma_split_on_pieces_chars(t, n, c);
        let rt = split_on(t, n);
        lemma_split_on_len(t, n);
        assert forall|k: int| 0 <= k < r.len() implies !(#[trigger] r[k]).contains(c) by {
            if k == 0 {
                let p = seq![h[0]] + rt[0];
                assert(r[0] == p);
                if p.contains(c) {
                    let i = choose|i: int| 0 <= i < p.len() && p[i] == c;
                    if i == 0 {
                        assert(h[0] == c);
                    } else {
                        assert(rt[0][i - 1] == c);
                    }
                }
            } else {
                assert(r[k] == rt[k]);
            }
        }
    }
}

// ---------------------------------------------------------------------------
// Executable parser
// ---------------------------------------------------------------------------

/// The characters of the chain separator `-->`.
pub(crate) fn arrow_vec() -> (r: Vec<char>)
    ensures
        r@ == arrow(),
{
    let mut v: Vec<char> = Vec::new();
    v.push('-');
    v.push('-');
    v.push('>');
    proof {
        assert(v@ =~= arrow());
    }
    v
}

fn eq_vec() -> (r: Vec<char>)
    ensures
        r@ == seq!['='],
{
    let mut v: Vec<char> = Vec::new();
    v.push('=');
    proof {
        assert(v@ =~= seq!['=']);
    }
    v
}

fn nl_vec() -> (r: Vec<char>)
    ensures
        r@ == seq!['\n'],
{
    let mut v: Vec<char> = Vec::new();
    v.push('\n');
    proof {
        assert(v@ =~= seq!['\n']);
    }
    v
}

/// The parser's verdict on one line, executably.
enum ParsedLine {
    Blank,
    Good(Entry),
    Bad(String, BrokenReason),
}

impl Dictionary {
    /// First index whose key's ASCII case folding equals `kc`'s.
    pub(crate) fn find_fold_from0(&self, kc: &Vec<char>) -> (r: Option<usize>)
        ensures
            match r {
                Some(i) => first_fold_match_from(self@, kc@, 0) == Some(i as int),
                None => first_fold_match_from(self@, kc@, 0) is None,
            },
    {
        let n = self.entries.len();
        let mut i: usize = 0;
        while i < n
            invariant
                0 <= i <= n,
                n == self@.len(),
                first_fold_match_from(self@, kc@, 0) == first_fold_match_from(self@, kc@, i as int),
            decreases n - i,
        {
            let lc = str_to_chars(self.entries[i].left.as_str());
            proof {
                assert(self@[i as int].left == lc@);
            }
            if eq_fold(&lc, kc) {
                return Some(i);
            }
            i = i + 1;
        }
        None
    }

    /// Parses one raw line against the table built so far.
    #[verifier::loop_isolation(false)]
    fn parse_one(&self, raw: &Vec<char>) -> (r: ParsedLine)
        ensures
            ({
                let out = parse_line(self@, raw@);
                match r {
                    ParsedLine::Blank => out == LineOutcome::Blank,
                    ParsedLine::Good(e) => {
                        &&& out == (LineOutcome::Good { entry: e@ })
                        &&& valid_entry(e@)
                        &&& first_fold_match_from(self@, e@.left, 0) is None
                    },
                    ParsedLine::Bad(ls, reason) => out == (LineOutcome::Bad {
                        left: ls@,
                        reason: reason@,
                    }),
                }
            }),
    {
        let ghost out = parse_line(self@, raw@);
        let l = trim_chars(raw);
        if l.len() == 0 {
            return ParsedLine::Blank;
        }
        proof {
            lemma_trim_spec_trimmed(raw@);
        }
        let eqv = eq_vec();
        let segs = split_chars(&l, &eqv);
        proof {
            lemma_split_on_len(l@, seq!['=']);
            assert(segs.deep_view().len() == segs@.len());
            assert(segs.deep_view()[0] == segs@[0]@);
        }
        let left0 = &segs[0];
        let ghost left0s = split_on(l@, seq!['='])[0];
        proof {
            assert(left0@ == left0s);
        }
        let arrowv = arrow_vec();
        if contains_sub_exec(left0, &arrowv) {
            return ParsedLine::Bad(chars_to_string(left0), BrokenReason::BadLeftString);
        }
        // the key: the first segment with trailing white space removed;
        // since the line is trimmed, the segment has no leading white space,
        // so a full trim computes exactly the end trim
        let key = trim_chars(left0);
        proof {
            lemma_split_on_first_prefix(l@, seq!['=']);
            if left0s.len() > 0 {
                assert(left0s[0] == l@[0]);
                assert(!is_ws(left0s[0]));
            }
            assert(trim_start_spec(left0s) == left0s);
            assert(key@ == trim_end_spec(left0s));
        }
        let ghost keys = trim_end_spec(left0s);
        // validity of the key
        proof {
            lemma_trim_end_props(left0s);
            assert(keys == left0s.subrange(0, keys.len() as int));
            if contains_sub(keys, arrow()) {
                lemma_contains_sub_subrange(left0s, 0, keys.len() as int, arrow());
            }
            lemma_split_on_pieces_free(l@, seq!['=']);
            assert(!contains_sub(left0s, seq!['=']));
            lemma_contains_char_sub(left0s, '=');
            if keys.contains('=') {
                let i = choose|i: int| 0 <= i < keys.len() && keys[i] == '=';
                assert(left0s[i] == '=');
            }
            if keys.len() > 0 {
                assert(keys[0] == left0s[0]);
            }
            lemma_trimmed_fix(keys);
            assert(valid_key(keys));
        }
        match self.find_fold_from0(&key) {
            Some(i) => {
                proof {
                    lemma_first_fold_match_some(self@, keys, 0, i as int);
                }
                let another = self.entries[i].left.clone();
                proof {
                    assert(self@[i as int].left == another@);
                }
                return ParsedLine::Bad(
                    chars_to_string(&key),
                    BrokenReason::Duplicated { another_left_string: another },
                );
            },
            None => {},
        }
        if segs.len() < 2 {
            return ParsedLine::Bad(chars_to_string(&key), BrokenReason::NoRightString);
        }
        proof {
            assert(segs.deep_view()[1] == segs@[1]@);
        }
        let ghost vals = split_on(l@, seq!['='])[1];
        if segs.len() > 2 {
            return ParsedLine::Bad(
                chars_to_string(&key),
                BrokenReason::BadRightString { right_string: chars_to_string(&segs[1]) },
            );
        }
        let pieces = split_chars(&segs[1], &arrowv);
        let ghost piecess = split_on(vals, arrow());
        let ghost elems = piecess.map_values(|p: Seq<char>| trim_spec(p));
        proof {
            lemma_split_on_len(vals, arrow());
        }
        let mut chain: Vec<String> = Vec::new();
        let np = pieces.len();
        let mut j: usize = 0;
        while j < np
            invariant
                0 <= j <= np,
                np == piecess.len(),
                pieces.deep_view() == piecess,
                elems == piecess.map_values(|p: Seq<char>| trim_spec(p)),
                chain@.len() == j,
                forall|q: int| 0 <= q < j ==> (#[trigger] chain@[q])@ == elems[q],
                forall|q: int| 0 <= q < j ==> elems[q].len() > 0,
            decreases np - j,
        {
            proof {
                assert(pieces.deep_view()[j as int] == pieces@[j as int]@);
            }
            let tj = trim_chars(&pieces[j]);
            if tj.len() == 0 {
                proof {
                    assert(elems[j as int].len() == 0);
                }
                return ParsedLine::Bad(
                    chars_to_string(&key),
                    BrokenReason::BadRightString { right_string: chars_to_string(&segs[1]) },
                );
            }
            chain.push(chars_to_string(&tj));
            j = j + 1;
        }
        proof {
            assert(!(exists|q: int| 0 <= q < elems.len() && #[trigger] elems[q].len() == 0));
        }
        let entry = Entry { left: chars_to_string(&key), right: chain };
        proof {
            assert(entry@.right =~~= elems);
            assert(entry@.left == keys);
            assert(entry@ == EntryModel { left: keys, right: elems });
            // validity of each chain element
            lemma_split_on_pieces_free(vals, arrow());
            lemma_split_on_pieces_free(l@, seq!['=']);
            lemma_contains_char_sub(vals, '=');
            assert(!vals.contains('='));
            lemma_split_on_pieces_chars(vals, arrow(), '=');
            assert forall|q: int| 0 <= q < elems.len() implies crate::valid_elem(
                #[trigger] elems[q],
            ) by {
                let p = piecess[q];
                assert(elems[q] == trim_spec(p));
                lemma_trim_spec_trimmed(p);
                let ab = lemma_trim_spec_is_subrange(p);
                if contains_sub(elems[q], arrow()) {
                    lemma_contains_sub_subrange(p, ab.0, ab.1, arrow());
                }
                assert(!p.contains('='));
                if elems[q].contains('=') {
                    let x = choose|x: int| 0 <= x < elems[q].len() && elems[q][x] == '=';
                    assert(p[ab.0 + x] == '=');
                }
                lemma_trimmed_fix(elems[q]);
            }
            assert(valid_entry(entry@));
            assert(out == (LineOutcome::Good { entry: entry@ }));
        }
        ParsedLine::Good(entry)
    }

    /// Loads dictionary text into the table.
    ///
    /// On success the parsed entries are appended to the table in line
    /// order.  On the first offending line the load stops and reports the
    /// 1-based line number (counting only lines that parse into an entry),
    /// the offending key and the reason; entries of earlier lines remain.
    #[verifier::loop_isolation(false)]
    pub fn load_from_str(&mut self, data: &str) -> (r: Result<(), ReadError>)
        requires
            old(self).wf(),
        ensures
            final(self).wf(),
            ({
                let out = load_lines(old(self)@, split_on(data@, seq!['\n']), 1);
                match out {
                    LoadOutcome::Success { table } => r is Ok && final(self)@ == table,
                    LoadOutcome::Failure { table, line, left, reason } => {
                        &&& final(self)@ == table
                        &&& match r {
                            Err(ReadError::Broken { line: l2, left_string, reason: r2 }) => {
                                &&& l2 as int == line
                                &&& left_string@ == left
                                &&& r2@ == reason
                            },
                            _ => false,
                        }
                    },
                }
            }),
    {
        let dc = str_to_chars(data);
        let nlv = nl_vec();
        let lines = split_chars(&dc, &nlv);
        let ghost lines_v = split_on(data@, seq!['\n']);
        let ghost out = load_lines(old(self)@, lines_v, 1);
        let dn = dc.len();
        proof {
            assert(dn == data@.len());
            lemma_split_on_len(data@, seq!['\n']);
            lemma_split_sum(data@, seq!['\n']);
            assert(lines_v.subrange(0, lines_v.len() as int) =~= lines_v);
            assert(lines_v.subrange(0, 0) =~= Seq::<Seq<char>>::empty());
        }
        let nl = lines.len();
        let mut counter: usize = 1;
        let mut i: usize = 0;
        while i < nl
            invariant
                0 <= i <= nl,
                nl == lines_v.len(),
                lines.deep_view() == lines_v,
                lines_v == split_on(data@, seq!['\n']),
                data@.len() <= usize::MAX,
                sum_lens(lines_v) + lines_v.len() - 1 == data@.len(),
                out == load_lines(old(self)@, lines_v, 1),
                self.wf(),
                counter >= 1,
                2 * (counter - 1) <= sum_lens(lines_v.subrange(0, i as int)) + i,
                out == load_lines(
                    self@,
                    lines_v.subrange(i as int, lines_v.len() as int),
                    counter as int,
                ),
            decreases nl - i,
        {
            let ghost rem = lines_v.subrange(i as int, lines_v.len() as int);
            let ghost table_now = self@;
            proof {
                assert(lines.deep_view()[i as int] == lines@[i as int]@);
                assert(rem[0] == lines_v[i as int]);
                assert(rem.subrange(1, rem.len() as int) =~= lines_v.subrange(
                    i + 1,
                    lines_v.len() as int,
                ));
            }
            match self.parse_one(&lines[i]) {
                ParsedLine::Blank => {
                    proof {
                        assert(parse_line(table_now, rem[0]) == LineOutcome::Blank);
                        lemma_sum_lens_split(lines_v, i as int);
                        lemma_sum_lens_split(lines_v, i + 1);
                        lemma_sum_lens_nonneg(lines_v.subrange(i + 1, lines_v.len() as int));
                        assert(lines_v.subrange(i as int, lines_v.len() as int)[0]
                            == lines_v[i as int]);
                        assert(sum_lens(lines_v.subrange(0, i + 1)) >= sum_lens(
                            lines_v.subrange(0, i as int),
                        )) by {
                            assert(sum_lens(lines_v.subrange(i as int, lines_v.len() as int))
                                == lines_v[i as int].len() + sum_lens(
                                lines_v.subrange(i + 1, lines_v.len() as int),
                            )) by {
                                let s = lines_v.subrange(i as int, lines_v.len() as int);
                                assert(s.subrange(1, s.len() as int) =~= lines_v.subrange(
                                    i + 1,
                                    lines_v.len() as int,
                                ));
                            }
                        }
                    }
                },
                ParsedLine::Good(e) => {
                    proof {
                        assert(parse_line(table_now, rem[0]) == (LineOutcome::Good {
                            entry: e@,
                        }));
                        // the line is non-blank, so it has at least one character
                        assert(trim_spec(rem[0]).len() > 0);
                        lemma_trim_start_props(rem[0]);
                        lemma_trim_end_props(trim_start_spec(rem[0]));
                        assert(rem[0].len() >= 1);
                        // bound the counter
                        lemma_sum_lens_split(lines_v, i + 1);
                        lemma_sum_lens_nonneg(lines_v.subrange(i + 1, lines_v.len() as int));
                        assert(sum_lens(lines_v.subrange(0, i + 1)) == sum_lens(
                            lines_v.subrange(0, i as int),
                        ) + lines_v[i as int].len()) by {
                            lemma_sum_lens_split(lines_v, i as int);
                            let s = lines_v.subrange(i as int, lines_v.len() as int);
                            assert(s.subrange(1, s.len() as int) =~= lines_v.subrange(
                                i + 1,
                                lines_v.len() as int,
                            ));
                            assert(sum_lens(s) == s[0].len() + sum_lens(
                                s.subrange(1, s.len() as int),
                            ));
                        }
                        assert(2 * (counter as int) <= sum_lens(lines_v.subrange(0, i + 1)) + i
                            + 1);
                        assert(sum_lens(lines_v.subrange(0, i + 1)) + i + 1 <= data@.len() + 2)
                            by {
                            lemma_sum_lens_split(lines_v, i + 1);
                            lemma_sum_lens_nonneg(lines_v.subrange(i + 1, lines_v.len() as int));
                        }
                        assert(counter + 1 <= usize::MAX);
                    }
                    let ghost old_view = self@;
                    self.entries.push(e);
                    counter = counter + 1;
                    proof {
                        assert(self@ =~= old_view.push(e@));
                        // well-formedness is preserved: the new key's folding
                        // differs from every stored key's
                        lemma_first_fold_match_none(old_view, e@.left, 0);
                        assert forall|a: int, b: int| 0 <= a < b < self@.len() implies ascii_fold(
                            #[trigger] self@[a].left,
                        ) != ascii_fold(#[trigger] self@[b].left) by {
                            if b < self@.len() - 1 {
                                assert(self@[a] == old_view[a] && self@[b] == old_view[b]);
                            } else {
                                assert(self@[a] == old_view[a] && self@[b] == e@);
                            }
                        }
                        assert(self.wf());
                    }
                },
                ParsedLine::Bad(ls, reason) => {
                    proof {
                        assert(parse_line(table_now, rem[0]) == (LineOutcome::Bad {
                            left: ls@,
                            reason: reason@,
                        }));
                        assert(out == (LoadOutcome::Failure {
                            table: table_now,
                            line: counter as int,
                            left: ls@,
                            reason: reason@,
                        }));
                    }
                    return Err(
                        ReadError::Broken { line: counter, left_string: ls, reason },
                    );
                },
            }
            i = i + 1;
        }
        proof {
            assert(lines_v.subrange(nl as int, lines_v.len() as int)
                =~= Seq::<Seq<char>>::empty());
            assert(out == (LoadOutcome::Success { table: self@ }));
        }
        Ok(())
    }
}

} // verus!
