//! The round-trip law: loading saved dictionary text into an empty table
//! reproduces the saved entries, keys and chains alike.

use vstd::prelude::*;

use crate::EntryModel;
use crate::arrow;
use crate::parse::LineOutcome;
use crate::parse::LoadOutcome;
use crate::parse::first_fold_match_from;
use crate::parse::lemma_first_fold_match_some;
use crate::parse::load_lines;
use crate::parse::parse_line;
use crate::save::line_of;
use crate::save::serialize_spec;
use crate::sep_arrow;
use crate::sep_eq;
use crate::text::concat_with;
use crate::text::contains_sub;
use crate::text::is_trimmed;
use crate::text::is_ws;
use crate::text::lemma_split_on_absent;
use crate::text::lemma_split_on_prefix;
use crate::text::lemma_trim_end_take;
use crate::text::lemma_trim_padded;
use crate::text::lemma_trim_start_skip;
use crate::text::lemma_trimmed_fix;
use crate::text::split_on;
use crate::text::sub_at;
use crate::text::trim_end_spec;
use crate::text::trim_spec;
use crate::text::trim_start_spec;
use crate::valid_elem;
use crate::valid_entry;
use crate::valid_key;
use crate::valid_table;

verus! {

/// No key and no chain element contains a newline.  A newline inside a
/// stored string would split its line in the text format, so the round-trip
/// law holds under this premise.
pub open spec fn newline_free(es: Seq<EntryModel>) -> bool {
    forall|i: int|
        0 <= i < es.len() ==> {
            &&& !(#[trigger] es[i]).left.contains('\n')
            &&& forall|j: int| 0 <= j < es[i].right.len() ==> !(#[trigger] es[i].right[j]).contains(
                '\n',
            )
        }
}

/// Characters pass through concatenation.
proof fn lemma_concat_char(a: Seq<char>, b: Seq<char>, c: char)
    requires
        !a.contains(c),
        !b.contains(c),
    ensures
        !(a + b).contains(c),
{
    if (a + b).contains(c) {
        let i = choose|i: int| 0 <= i < (a + b).len() && (a + b)[i] == c;
        if i < a.len() {
            assert(a[i] == c);
        } else {
            assert(b[i - a.len()] == c);
        }
    }
}

/// A join of `c`-free pieces with a `c`-free separator is `c`-free.
proof fn lemma_concat_with_char(elems: Seq<Seq<char>>, sep: Seq<char>, c: char)
    requires
        forall|j: int| 0 <= j < elems.len() ==> !(#[trigger] elems[j]).contains(c),
        !sep.contains(c),
    ensures
        !concat_with(elems, sep).contains(c),
    decreases elems.len(),
{
    if elems.len() == 0 {
        if concat_with(elems, sep).contains(c) {
            let i = choose|i: int|
                0 <= i < concat_with(elems, sep).len() && concat_with(elems, sep)[i] == c;
        }
    } else if elems.len() == 1 {
        assert(!elems[0].contains(c));
    } else {
        let rest = elems.subrange(1, elems.len() as int);
        lemma_concat_with_char(rest, sep, c);
        lemma_concat_char(sep, concat_with(rest, sep), c);
        lemma_concat_char(elems[0], sep + concat_with(rest, sep), c);
        assert(elems[0] + sep + concat_with(rest, sep) =~= elems[0] + (sep + concat_with(
            rest,
            sep,
        )));
    }
}

/// The last character of a join is the last character of the last piece.
proof fn lemma_concat_with_last(elems: Seq<Seq<char>>, sep: Seq<char>)
    requires
        elems.len() >= 1,
        elems.last().len() > 0,
    ensures
        concat_with(elems, sep).len() > 0,
        concat_with(elems, sep).last() == elems.last().last(),
    decreases elems.len(),
{
    if elems.len() == 1 {
    } else {
        let rest = elems.subrange(1, elems.len() as int);
        lemma_concat_with_last(rest, sep);
        let w = elems[0] + sep + concat_with(rest, sep);
        assert(w.last() == concat_with(rest, sep).last());
    }
}

/// An occurrence-free sequence, extended by the separator itself, still has
/// no occurrence that starts inside it.  (An occurrence straddling the
/// boundary is impossible: the window then ends with `-` where the
/// separator has `>`.)
proof fn lemma_arrow_prefix_hyp(p: Seq<char>, t: Seq<char>)
    requires
        !contains_sub(p, arrow()),
    ensures
        forall|i: int| 0 <= i < p.len() ==> !sub_at(p + arrow() + t, arrow(), i),
{
    let h = p + arrow() + t;
    assert forall|i: int| 0 <= i < p.len() implies !sub_at(h, arrow(), i) by {
        if sub_at(h, arrow(), i) {
            let w = h.subrange(i, i + 3);
            assert(w[0] == h[i] && w[1] == h[i + 1] && w[2] == h[i + 2]);
            if i + 3 <= p.len() {
                assert(p.subrange(i, i + 3) =~= w);
                assert(sub_at(p, arrow(), i));
            } else if i + 3 == p.len() + 1 {
                assert(h[i + 2] == arrow()[0]);
                assert(w[2] == '>');
                assert(false);
            } else {
                assert(i + 3 == p.len() + 2);
                assert(h[i + 2] == arrow()[1]);
                assert(w[2] == '>');
                assert(false);
            }
        }
    }
}

/// A single-character separator: the prefix hypothesis is plain absence.
proof fn lemma_char_prefix_hyp(p: Seq<char>, c: char, t: Seq<char>)
    requires
        !p.contains(c),
    ensures
        forall|i: int| 0 <= i < p.len() ==> !sub_at(p + seq![c] + t, seq![c], i),
{
    let h = p + seq![c] + t;
    assert forall|i: int| 0 <= i < p.len() implies !sub_at(h, seq![c], i) by {
        if sub_at(h, seq![c], i) {
            assert(h.subrange(i, i + 1)[0] == h[i]);
            assert(h[i] == c);
            assert(p[i] == c);
        }
    }
}

/// Padding an arrow-free sequence with spaces keeps it arrow-free.
proof fn lemma_arrow_free_pad(e: Seq<char>)
    requires
        !contains_sub(e, arrow()),
    ensures
        !contains_sub(seq![' '] + e, arrow()),
        !contains_sub(e + seq![' '], arrow()),
        !contains_sub(seq![' '] + e + seq![' '], arrow()),
{
    let l = seq![' '] + e;
    assert forall|i: int| !sub_at(l, arrow(), i) by {
        if sub_at(l, arrow(), i) {
            let w = l.subrange(i, i + 3);
            assert(w[0] == l[i] && w[1] == l[i + 1] && w[2] == l[i + 2]);
            if i == 0 {
                assert(w[0] == ' ');
            } else {
                assert(e.subrange(i - 1, i + 2) =~= w);
                assert(sub_at(e, arrow(), i - 1));
            }
        }
    }
    let r = e + seq![' '];
    assert forall|i: int| !sub_at(r, arrow(), i) by {
        if sub_at(r, arrow(), i) {
            let w = r.subrange(i, i + 3);
            assert(w[0] == r[i] && w[1] == r[i + 1] && w[2] == r[i + 2]);
            if i + 3 <= e.len() {
                assert(e.subrange(i, i + 3) =~= w);
                assert(sub_at(e, arrow(), i));
            } else {
                assert(w[2] == ' ');
            }
        }
    }
    let b = seq![' '] + e + seq![' '];
    assert(b =~= seq![' '] + r);
    assert forall|i: int| !sub_at(b, arrow(), i) by {
        if sub_at(b, arrow(), i) {
            let w = b.subrange(i, i + 3);
            assert(w[0] == b[i] && w[1] == b[i + 1] && w[2] == b[i + 2]);
            if i == 0 {
                assert(w[0] == ' ');
            } else {
                assert(r.subrange(i - 1, i + 2) =~= w);
                assert(sub_at(r, arrow(), i - 1));
            }
        }
    }
}

/// The pieces that splitting the value section of a serialized line on
/// `-->` gives: each element, space-padded; the separator's surrounding
/// spaces go to the neighbouring pieces, and the leading space comes from
/// `` = ``.
pub open spec fn padded_pieces(elems: Seq<Seq<char>>) -> Seq<Seq<char>> {
    Seq::new(
        elems.len(),
        |j: int|
            if j < elems.len() - 1 {
                seq![' '] + elems[j] + seq![' ']
            } else {
                seq![' '] + elems[j]
            },
    )
}

/// Splitting the space-led join of arrow-free elements on `-->` recovers
/// the space-padded elements.
proof fn lemma_split_join(elems: Seq<Seq<char>>)
    requires
        elems.len() >= 1,
        forall|j: int| 0 <= j < elems.len() ==> !contains_sub(#[trigger] elems[j], arrow()),
    ensures
        split_on(seq![' '] + concat_with(elems, sep_arrow()), arrow()) == padded_pieces(elems),
    decreases elems.len(),
{
    let s = seq![' '] + concat_with(elems, sep_arrow());
    if elems.len() == 1 {
        assert(s =~= seq![' '] + elems[0]);
        lemma_arrow_free_pad(elems[0]);
        lemma_split_on_absent(s, arrow());
        assert(padded_pieces(elems) =~= seq![s]);
    } else {
        let rest = elems.subrange(1, elems.len() as int);
        let p = seq![' '] + elems[0] + seq![' '];
        let t = seq![' '] + concat_with(rest, sep_arrow());
        assert(s =~= p + arrow() + t) by {
            assert(concat_with(elems, sep_arrow()) == elems[0] + sep_arrow() + concat_with(
                rest,
                sep_arrow(),
            ));
            assert(seq![' '] + (elems[0] + sep_arrow() + concat_with(rest, sep_arrow())) =~= p
                + arrow() + t);
        }
        lemma_arrow_free_pad(elems[0]);
        lemma_arrow_prefix_hyp(p, t);
        lemma_split_on_prefix(p, arrow(), t);
        lemma_split_join(rest);
        assert(split_on(s, arrow()) == seq![p] + padded_pieces(rest));
        assert(split_on(s, arrow()) =~= padded_pieces(elems)) by {
            assert(padded_pieces(elems)[0] == p);
            assert forall|k: int| 1 <= k < elems.len() implies (seq![p] + padded_pieces(rest))[k]
                == padded_pieces(elems)[k] by {
                assert(padded_pieces(rest)[k - 1] == padded_pieces(elems)[k]);
            }
        }
    }
}

/// One serialized line of a valid entry parses back into that entry,
/// against any table whose keys all fold differently from its key.
proof fn lemma_line_round_trip(table: Seq<EntryModel>, e: EntryModel)
    requires
        valid_entry(e),
        !e.left.contains('\n'),
        first_fold_match_from(table, e.left, 0) is None,
    ensures
        parse_line(table, line_of(e)) == (LineOutcome::Good { entry: e }),
{
    let raw = line_of(e);
    let join = concat_with(e.right, sep_arrow());
    let lastelem = e.right.last();
    assert(valid_elem(lastelem));
    lemma_trimmed_fix(lastelem);
    lemma_concat_with_last(e.right, sep_arrow());
    assert(!is_ws(join.last()));
    lemma_trimmed_fix(e.left);

    // the trimmed line
    assert(raw =~= e.left + sep_eq() + join);
    assert(raw.last() == join.last());
    let l = trim_spec(raw);
    if e.left.len() > 0 {
        assert(raw[0] == e.left[0]);
        assert(is_trimmed(raw));
        lemma_trimmed_fix(raw);
        assert(l == raw);
    } else {
        assert(raw[0] == ' ' && raw[1] == '=');
        lemma_trim_start_skip(raw, 1);
        let r1 = raw.subrange(1, raw.len() as int);
        assert(!is_ws(r1[0]));
        assert(trim_start_spec(raw) == r1);
        assert(r1.last() == raw.last());
        assert(trim_end_spec(r1) == r1);
        assert(l == r1);
    }
    // in both cases: l == (e.left + [' ']) + ['='] + ([' '] + join), with the
    // left part lost to trimming exactly when the key is empty
    let vs = seq![' '] + join;

    // the join contains no '='
    assert(!sep_arrow().contains('=')) by {
        if sep_arrow().contains('=') {
            let i = choose|i: int| 0 <= i < sep_arrow().len() && sep_arrow()[i] == '=';
        }
    }
    assert forall|j: int| 0 <= j < e.right.len() implies !(#[trigger] e.right[j]).contains(
        '=',
    ) by {
        assert(valid_elem(e.right[j]));
    }
    lemma_concat_with_char(e.right, sep_arrow(), '=');
    assert(!vs.contains('=')) by {
        if vs.contains('=') {
            let i = choose|i: int| 0 <= i < vs.len() && vs[i] == '=';
            if i > 0 {
                assert(join[i - 1] == '=');
            }
        }
    }
    crate::text::lemma_contains_char_sub(vs, '=');
    lemma_split_on_absent(vs, seq!['=']);

    // split the line on '='
    let segs = split_on(l, seq!['=']);
    if e.left.len() > 0 {
        let p = e.left + seq![' '];
        assert(!p.contains('=')) by {
            if p.contains('=') {
                let i = choose|i: int| 0 <= i < p.len() && p[i] == '=';
                if i < e.left.len() {
                    assert(e.left[i] == '=');
                }
            }
        }
        lemma_char_prefix_hyp(p, '=', vs);
        assert(l =~= p + seq!['='] + vs);
        lemma_split_on_prefix(p, seq!['='], vs);
        assert(segs == seq![p] + seq![vs]);
        assert(segs.len() == 2);
        assert(segs[0] == p && segs[1] == vs);
        // the key is recovered by the end trim
        lemma_trim_end_take(p, e.left.len() as int);
        assert(p.subrange(0, e.left.len() as int) =~= e.left);
        assert(trim_end_spec(p) == trim_end_spec(e.left));
        assert(trim_end_spec(e.left) == e.left);
        // the first segment holds no chain separator
        lemma_arrow_free_pad(e.left);
        assert(!contains_sub(p, arrow()));
    } else {
        let p = Seq::<char>::empty();
        lemma_char_prefix_hyp(p, '=', vs);
        assert(l =~= p + seq!['='] + vs);
        lemma_split_on_prefix(p, seq!['='], vs);
        assert(segs == seq![p] + seq![vs]);
        assert(segs.len() == 2);
        assert(segs[0] == p && segs[1] == vs);
        assert(trim_end_spec(p) == e.left);
        if contains_sub(p, arrow()) {
            let i = choose|i: int| sub_at(p, arrow(), i);
        }
    }
    assert(l.len() > 0);
    assert(trim_end_spec(segs[0]) == e.left);

    // split the value section on the chain separator
    assert forall|j: int| 0 <= j < e.right.len() implies !contains_sub(
        #[trigger] e.right[j],
        arrow(),
    ) by {
        assert(valid_elem(e.right[j]));
    }
    lemma_split_join(e.right);
    let pieces = split_on(vs, arrow());
    assert(pieces == padded_pieces(e.right));
    let elems = pieces.map_values(|pp: Seq<char>| trim_spec(pp));
    assert forall|j: int| 0 <= j < elems.len() implies #[trigger] elems[j] == e.right[j] by {
        assert(valid_elem(e.right[j]));
        lemma_trimmed_fix(e.right[j]);
        if j < e.right.len() - 1 {
            assert(pieces[j] == seq![' '] + e.right[j] + seq![' ']);
            lemma_trim_padded(seq![' '], e.right[j], seq![' ']);
        } else {
            assert(pieces[j] == seq![' '] + e.right[j]);
            lemma_trim_padded(seq![' '], e.right[j], Seq::<char>::empty());
            assert(seq![' '] + e.right[j] + Seq::<char>::empty() =~= seq![' '] + e.right[j]);
        }
    }
    assert(elems =~~= e.right);
    assert(forall|j: int| 0 <= j < elems.len() ==> (#[trigger] elems[j]).len() > 0);
    assert(parse_line(table, raw) == (LineOutcome::Good {
        entry: EntryModel { left: e.left, right: e.right },
    }));
    assert(EntryModel { left: e.left, right: e.right } == e);
}

/// A serialized line contains no newline, provided the entry's strings
/// do not.
proof fn lemma_line_newline_free(e: EntryModel)
    requires
        valid_entry(e),
        !e.left.contains('\n'),
        forall|j: int| 0 <= j < e.right.len() ==> !(#[trigger] e.right[j]).contains('\n'),
    ensures
        !line_of(e).contains('\n'),
{
    assert(!sep_arrow().contains('\n')) by {
        if sep_arrow().contains('\n') {
            let i = choose|i: int| 0 <= i < sep_arrow().len() && sep_arrow()[i] == '\n';
        }
    }
    assert(!sep_eq().contains('\n')) by {
        if sep_eq().contains('\n') {
            let i = choose|i: int| 0 <= i < sep_eq().len() && sep_eq()[i] == '\n';
        }
    }
    lemma_concat_with_char(e.right, sep_arrow(), '\n');
    lemma_concat_char(e.left, sep_eq(), '\n');
    lemma_concat_char(e.left + sep_eq(), concat_with(e.right, sep_arrow()), '\n');
    assert(line_of(e) =~= (e.left + sep_eq()) + concat_with(e.right, sep_arrow()));
}

/// Splitting the serialized text on newlines recovers the lines, one per
/// entry.
proof fn lemma_serialize_lines(es: Seq<EntryModel>)
    requires
        es.len() >= 1,
        valid_table(es),
        newline_free(es),
    ensures
        split_on(serialize_spec(es), seq!['\n']) == es.map_values(|e: EntryModel| line_of(e)),
    decreases es.len(),
{
    let lines = es.map_values(|e: EntryModel| line_of(e));
    lemma_line_newline_free(es[0]);
    if es.len() == 1 {
        crate::text::lemma_contains_char_sub(lines[0], '\n');
        lemma_split_on_absent(serialize_spec(es), seq!['\n']);
        assert(serialize_spec(es) == lines[0]);
        assert(seq![serialize_spec(es)] =~= lines);
    } else {
        let rest = es.subrange(1, es.len() as int);
        assert(valid_table(rest)) by {
            assert(forall|i: int|
                0 <= i < rest.len() ==> rest[i] == es[i + 1] && valid_entry(#[trigger] rest[i]));
            assert forall|i: int, j: int| 0 <= i < j < rest.len() implies crate::ascii_fold(
                #[trigger] rest[i].left,
            ) != crate::ascii_fold(#[trigger] rest[j].left) by {
                assert(rest[i] == es[i + 1] && rest[j] == es[j + 1]);
            }
        }
        assert(newline_free(rest)) by {
            assert(forall|i: int| 0 <= i < rest.len() ==> rest[i] == es[i + 1]);
            assert forall|i: int| 0 <= i < rest.len() implies {
                &&& !(#[trigger] rest[i]).left.contains('\n')
                &&& forall|j: int|
                    0 <= j < rest[i].right.len() ==> !(#[trigger] rest[i].right[j]).contains('\n')
            } by {
                assert(rest[i] == es[i + 1]);
            }
        }
        lemma_serialize_lines(rest);
        let restlines = rest.map_values(|e: EntryModel| line_of(e));
        assert(serialize_spec(es) == lines[0] + seq!['\n'] + serialize_spec(rest)) by {
            assert(lines.subrange(1, lines.len() as int) =~= restlines);
            assert(concat_with(lines, seq!['\n']) == lines[0] + seq!['\n'] + concat_with(
                lines.subrange(1, lines.len() as int),
                seq!['\n'],
            ));
        }
        lemma_char_prefix_hyp(lines[0], '\n', serialize_spec(rest));
        lemma_split_on_prefix(lines[0], seq!['\n'], serialize_spec(rest));
        assert(split_on(serialize_spec(es), seq!['\n'])
            =~= es.map_values(|e: EntryModel| line_of(e)));
    }
}

/// Loading the lines of valid entries, whose keys fold differently from
/// each other's and from every key already in the table, appends exactly
/// those entries.
proof fn lemma_load_entry_lines(acc: Seq<EntryModel>, es: Seq<EntryModel>, c: int)
    requires
        valid_table(es),
        newline_free(es),
        forall|i: int, j: int|
            0 <= i < acc.len() && 0 <= j < es.len() ==> crate::ascii_fold(
                #[trigger] acc[i].left,
            ) != crate::ascii_fold(#[trigger] es[j].left),
    ensures
        load_lines(acc, es.map_values(|e: EntryModel| line_of(e)), c) == (LoadOutcome::Success {
            table: acc + es,
        }),
    decreases es.len(),
{
    let lines = es.map_values(|e: EntryModel| line_of(e));
    if es.len() == 0 {
        assert(lines.len() == 0);
        assert(acc + es =~= acc);
    } else {
        assert(first_fold_match_from(acc, es[0].left, 0) is None) by {
            match first_fold_match_from(acc, es[0].left, 0) {
                Some(m) => {
                    lemma_first_fold_match_some(acc, es[0].left, 0, m);
                },
                None => {},
            }
        }
        assert(valid_entry(es[0]));
        assert(!es[0].left.contains('\n'));
        lemma_line_round_trip(acc, es[0]);
        let acc2 = acc.push(es[0]);
        let rest = es.subrange(1, es.len() as int);
        assert(valid_table(rest)) by {
            assert(forall|i: int|
                0 <= i < rest.len() ==> rest[i] == es[i + 1] && valid_entry(#[trigger] rest[i]));
            assert forall|i: int, j: int| 0 <= i < j < rest.len() implies crate::ascii_fold(
                #[trigger] rest[i].left,
            ) != crate::ascii_fold(#[trigger] rest[j].left) by {
                assert(rest[i] == es[i + 1] && rest[j] == es[j + 1]);
            }
        }
        assert(newline_free(rest)) by {
            assert forall|i: int| 0 <= i < rest.len() implies {
                &&& !(#[trigger] rest[i]).left.contains('\n')
                &&& forall|j: int|
                    0 <= j < rest[i].right.len() ==> !(#[trigger] rest[i].right[j]).contains('\n')
            } by {
                assert(rest[i] == es[i + 1]);
            }
        }
        assert forall|i: int, j: int|
            0 <= i < acc2.len() && 0 <= j < rest.len() implies crate::ascii_fold(
            #[trigger] acc2[i].left,
        ) != crate::ascii_fold(#[trigger] rest[j].left) by {
            assert(rest[j] == es[j + 1]);
            if i < acc.len() {
                assert(acc2[i] == acc[i]);
            } else {
                assert(acc2[i] == es[0]);
            }
        }
        lemma_load_entry_lines(acc2, rest, c + 1);
        assert(lines[0] == line_of(es[0]));
        assert(lines.subrange(1, lines.len() as int) =~= rest.map_values(
            |e: EntryModel| line_of(e),
        ));
        assert(acc2 + rest =~= acc + es);
    }
}

/// LAW (round trip): saving a well-formed table and loading the text into
/// an empty dictionary yields exactly the saved entries — the same keys and
/// the same chains, in the saved order.  Combined with the contract of
/// `save_to_string` (whose result is `serialize_spec` of the table it
/// leaves behind, a sorted permutation of the entries), this says that save
/// followed by load reproduces the table up to case-insensitive key order.
///
/// The premise `newline_free` is needed: a newline inside a stored string
/// (which `add_edit` does not reject) would split its line in the file.
pub proof fn lemma_save_load_round_trip(es: Seq<EntryModel>)
    requires
        valid_table(es),
        newline_free(es),
    ensures
        load_lines(Seq::<EntryModel>::empty(), split_on(serialize_spec(es), seq!['\n']), 1)
            == (LoadOutcome::Success { table: es }),
{
    let empty = Seq::<EntryModel>::empty();
    if es.len() == 0 {
        assert(es.map_values(|e: EntryModel| line_of(e)).len() == 0);
        assert(serialize_spec(es) =~= Seq::<char>::empty());
        let lines = split_on(serialize_spec(es), seq!['\n']);
        assert(!sub_at(Seq::<char>::empty(), seq!['\n'], 0));
        assert(lines == seq![Seq::<char>::empty()]);
        assert(trim_spec(Seq::<char>::empty()).len() == 0);
        assert(parse_line(empty, lines[0]) == LineOutcome::Blank);
        assert(load_lines(empty, lines, 1) == load_lines(
            empty,
            lines.subrange(1, lines.len() as int),
            1,
        ));
        assert(lines.subrange(1, lines.len() as int) =~= Seq::<Seq<char>>::empty());
        assert(load_lines(empty, Seq::<Seq<char>>::empty(), 1) == (LoadOutcome::Success {
            table: empty,
        }));
        assert(empty =~= es);
    } else {
        lemma_serialize_lines(es);
        lemma_load_entry_lines(empty, es, 1);
        assert(empty + es =~= es);
    }
}

} // verus!
