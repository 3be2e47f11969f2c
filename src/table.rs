//! Comma-separated tables: rendering and reading back.
use vstd::prelude::*;
use crate::measurement::{rows_view, strs};
use crate::text::{chars_of, split_on, split_spec};

verus! {

/// `xs` joined with `sep` between neighbours.
pub open spec fn join_spec(xs: Seq<Seq<char>>, sep: char) -> Seq<char>
    decreases xs.len(),
{
    if xs.len() == 0 {
        Seq::empty()
    } else if xs.len() == 1 {
        xs[0]
    } else {
        join_spec(xs.drop_last(), sep).push(sep) + xs.last()
    }
}

/// One table line without its newline: the label, a comma, then the cells.
pub open spec fn row_line(label: Seq<char>, cells: Seq<Seq<char>>) -> Seq<char> {
    label.push(',') + join_spec(cells, ',')
}

/// Each line followed by a newline.
pub open spec fn lines_text(ls: Seq<Seq<char>>) -> Seq<char>
    decreases ls.len(),
{
    if ls.len() == 0 {
        Seq::empty()
    } else {
        lines_text(ls.drop_last()) + ls.last().push('\n')
    }
}

/// The lines of a table body: `labels[i]`, then the cells of `cells[i]`.
pub open spec fn body_lines(labels: Seq<Seq<char>>, cells: Seq<Seq<Seq<char>>>) -> Seq<Seq<char>> {
    Seq::new(labels.len(), |i: int| row_line(labels[i], cells[i]))
}

/// The fields of each newline-terminated line of `text`.
pub open spec fn parse_table_spec(text: Seq<char>) -> Seq<Seq<Seq<char>>> {
    split_spec(text, '\n').drop_last().map_values(|l: Seq<char>| split_spec(l, ','))
}

/// `c` does not occur in `s`.
pub open spec fn free_of(s: Seq<char>, c: char) -> bool {
    forall|k: int| 0 <= k < s.len() ==> s[k] != c
}

/// Text without a separator, appended to `s`, extends the last piece of `s`.
pub proof fn lemma_split_extend(s: Seq<char>, t: Seq<char>, sep: char)
    requires
        free_of(t, sep),
    ensures
        split_spec(s + t, sep) == split_spec(s, sep).update(
            split_spec(s, sep).len() - 1,
            split_spec(s, sep).last() + t,
        ),
    decreases t.len(),
{
    crate::text::lemma_split_nonempty(s, sep);
    if t.len() == 0 {
        assert(s + t =~= s);
        assert(split_spec(s, sep).last() + t =~= split_spec(s, sep).last());
        assert(split_spec(s, sep).update(split_spec(s, sep).len() - 1, split_spec(s, sep).last())
            =~= split_spec(s, sep));
    } else {
        let t0 = t.drop_last();
        lemma_split_extend(s, t0, sep);
        assert((s + t).drop_last() =~= s + t0);
        assert((s + t).last() == t.last());
        assert(t[t.len() - 1] != sep);
        let p = split_spec(s, sep);
        let prev = split_spec(s + t0, sep);
        assert(prev.len() == p.len());
        assert(prev.last() == p.last() + t0);
        assert((p.last() + t0).push(t.last()) =~= p.last() + t);
        assert(split_spec(s + t, sep) == prev.update(prev.len() - 1, prev.last().push(t.last())));
        assert(split_spec(s + t, sep) =~= split_spec(s, sep).update(
            split_spec(s, sep).len() - 1,
            split_spec(s, sep).last() + t,
        ));
    }
}

/// A separator ends the last piece and opens an empty one.
pub proof fn lemma_split_sep(s: Seq<char>, sep: char)
    ensures
        split_spec(s.push(sep), sep) == split_spec(s, sep).push(Seq::<char>::empty()),
{
    assert(s.push(sep).drop_last() =~= s);
}

/// Text without a separator is one piece.
pub proof fn lemma_split_single(t: Seq<char>, sep: char)
    requires
        free_of(t, sep),
    ensures
        split_spec(t, sep) == seq![t],
{
    lemma_split_extend(Seq::empty(), t, sep);
    assert(Seq::<char>::empty() + t =~= t);
    assert(split_spec(t, sep) =~= seq![t]);
}

/// Splitting undoes joining, for pieces free of the separator.
pub proof fn lemma_split_join(s: Seq<char>, xs: Seq<Seq<char>>, sep: char)
    requires
        xs.len() >= 1,
        forall|i: int| 0 <= i < xs.len() ==> free_of(#[trigger] xs[i], sep),
    ensures
        split_spec(s.push(sep) + join_spec(xs, sep), sep) == split_spec(s, sep) + xs,
    decreases xs.len(),
{
    lemma_split_sep(s, sep);
    if xs.len() == 1 {
        lemma_split_extend(s.push(sep), xs[0], sep);
        assert(split_spec(s.push(sep) + join_spec(xs, sep), sep) =~= split_spec(s, sep) + xs);
    } else {
        let xs0 = xs.drop_last();
        assert forall|i: int| 0 <= i < xs0.len() implies free_of(#[trigger] xs0[i], sep) by {
            assert(xs0[i] == xs[i]);
        }
        lemma_split_join(s, xs0, sep);
        let u = s.push(sep) + join_spec(xs0, sep);
        assert(s.push(sep) + join_spec(xs, sep) =~= u.push(sep) + xs.last());
        lemma_split_sep(u, sep);
        assert(free_of(xs[xs.len() - 1], sep));
        lemma_split_extend(u.push(sep), xs.last(), sep);
        assert(split_spec(s.push(sep) + join_spec(xs, sep), sep) =~= split_spec(s, sep) + xs);
    }
}

/// Splitting newline-terminated lines gives the lines and an empty last piece.
pub proof fn lemma_split_lines(ls: Seq<Seq<char>>)
    requires
        forall|i: int| 0 <= i < ls.len() ==> free_of(#[trigger] ls[i], '\n'),
    ensures
        split_spec(lines_text(ls), '\n') == ls.push(Seq::<char>::empty()),
    decreases ls.len(),
{
    if ls.len() == 0 {
        assert(split_spec(lines_text(ls), '\n') =~= ls.push(Seq::<char>::empty()));
    } else {
        let ls0 = ls.drop_last();
        assert forall|i: int| 0 <= i < ls0.len() implies free_of(#[trigger] ls0[i], '\n') by {
            assert(ls0[i] == ls[i]);
        }
        lemma_split_lines(ls0);
        let u = lines_text(ls0) + ls.last();
        assert(lines_text(ls) =~= u.push('\n'));
        lemma_split_sep(u, '\n');
        assert(free_of(ls[ls.len() - 1], '\n'));
        lemma_split_extend(lines_text(ls0), ls.last(), '\n');
        assert(Seq::<char>::empty() + ls.last() =~= ls.last());
        assert(split_spec(lines_text(ls), '\n') =~= ls.push(Seq::<char>::empty()));
    }
}

/// Reading back a table line gives its label and its cells.
pub proof fn lemma_read_row_line(label: Seq<char>, cells: Seq<Seq<char>>)
    requires
        cells.len() >= 1,
        free_of(label, ','),
        forall|i: int| 0 <= i < cells.len() ==> free_of(#[trigger] cells[i], ','),
    ensures
        split_spec(row_line(label, cells), ',') == seq![label] + cells,
{
    lemma_split_join(label, cells, ',');
    lemma_split_single(label, ',');
}

} // verus!

verus! {

/// Joining pieces free of `c` with a separator other than `c` gives text free of `c`.
pub proof fn lemma_join_free(xs: Seq<Seq<char>>, sep: char, c: char)
    requires
        sep != c,
        forall|i: int| 0 <= i < xs.len() ==> free_of(#[trigger] xs[i], c),
    ensures
        free_of(join_spec(xs, sep), c),
    decreases xs.len(),
{
    if xs.len() > 1 {
        let xs0 = xs.drop_last();
        assert forall|i: int| 0 <= i < xs0.len() implies free_of(#[trigger] xs0[i], c) by {
            assert(xs0[i] == xs[i]);
        }
        lemma_join_free(xs0, sep, c);
        assert(free_of(xs[xs.len() - 1], c));
        let j = join_spec(xs, sep);
        let j0 = join_spec(xs0, sep).push(sep);
        assert forall|k: int| 0 <= k < j.len() implies j[k] != c by {
            if k < j0.len() {
                assert(j[k] == j0[k]);
            } else {
                assert(j[k] == xs.last()[k - j0.len()]);
            }
        }
    } else if xs.len() == 1 {
        assert(free_of(xs[0], c));
    }
}

/// Reading back a table body gives each label followed by its cells.
pub proof fn lemma_read_table(labels: Seq<Seq<char>>, cells: Seq<Seq<Seq<char>>>)
    requires
        labels.len() == cells.len(),
        forall|i: int| 0 <= i < labels.len() ==> free_of(#[trigger] labels[i], ','),
        forall|i: int| 0 <= i < labels.len() ==> free_of(#[trigger] labels[i], '\n'),
        forall|i: int| 0 <= i < cells.len() ==> #[trigger] cells[i].len() >= 1,
        forall|i: int, j: int|
            0 <= i < cells.len() && 0 <= j < cells[i].len() ==> free_of(#[trigger] cells[i][j], ','),
        forall|i: int, j: int|
            0 <= i < cells.len() && 0 <= j < cells[i].len() ==> free_of(
                #[trigger] cells[i][j],
                '\n',
            ),
    ensures
        parse_table_spec(lines_text(body_lines(labels, cells))) == Seq::new(
            labels.len(),
            |i: int| seq![labels[i]] + cells[i],
        ),
{
    let ls = body_lines(labels, cells);
    assert forall|i: int| 0 <= i < ls.len() implies free_of(#[trigger] ls[i], '\n') by {
        let cs = cells[i];
        assert forall|j: int| 0 <= j < cs.len() implies free_of(#[trigger] cs[j], '\n') by {
            assert(free_of(cells[i][j], '\n'));
        }
        lemma_join_free(cs, ',', '\n');
        assert(free_of(labels[i], '\n'));
        let l = labels[i].push(',');
        assert forall|k: int| 0 <= k < ls[i].len() implies ls[i][k] != '\n' by {
            if k < l.len() {
                assert(ls[i][k] == l[k]);
            } else {
                assert(ls[i][k] == join_spec(cs, ',')[k - l.len()]);
            }
        }
    }
    lemma_split_lines(ls);
    assert(split_spec(lines_text(ls), '\n').drop_last() =~= ls);
    assert forall|i: int| 0 <= i < labels.len() implies split_spec(#[trigger] ls[i], ',') == seq![labels[i]] + cells[i] by {
        let cs = cells[i];
        assert forall|j: int| 0 <= j < cs.len() implies free_of(#[trigger] cs[j], ',') by {
            assert(free_of(cells[i][j], ','));
        }
        assert(free_of(labels[i], ','));
        lemma_read_row_line(labels[i], cs);
    }
    assert(parse_table_spec(lines_text(ls)) =~= Seq::new(
        labels.len(),
        |i: int| seq![labels[i]] + cells[i],
    ));
}

/// Appends `xs` joined with `sep` to `out`.
fn append_joined(out: &mut String, xs: &Vec<String>, sep: char)
    ensures
        final(out)@ == old(out)@ + join_spec(strs(xs@), sep),
{
    let ghost v = strs(xs@);
    let mut i: usize = 0;
    proof {
        assert(old(out)@ + join_spec(v.take(0), sep) =~= old(out)@);
    }
    while i < xs.len()
        invariant
            v == strs(xs@),
            i <= xs.len(),
            out@ == old(out)@ + join_spec(v.take(i as int), sep),
        decreases xs.len() - i,
    {
        let ghost before = out@;
        assert(v.take(i + 1).drop_last() =~= v.take(i as int));
        assert(v[i as int] == xs@[i as int]@);
        if i > 0 {
            out.push(sep);
        }
        out.append(xs[i].as_str());
        proof {
            if i == 0 {
                assert(out@ =~= old(out)@ + join_spec(v.take(i + 1), sep));
            } else {
                assert(out@ =~= old(out)@ + join_spec(v.take(i + 1), sep));
            }
        }
        i = i + 1;
    }
    proof {
        assert(v.take(xs.len() as int) =~= v);
    }
}

/// Appends a table line and its newline to `out`.
pub fn push_line(out: &mut String, label: &str, cells: &Vec<String>)
    ensures
        final(out)@ == old(out)@ + row_line(label@, strs(cells@)).push('\n'),
{
    out.append(label);
    out.push(',');
    append_joined(out, cells, ',');
    out.push('\n');
    proof {
        assert(final(out)@ =~= old(out)@ + row_line(label@, strs(cells@)).push('\n'));
    }
}

/// Appends `lines` joined with newlines, then a final newline, to `out`.
pub fn push_report(out: &mut String, lines: &Vec<String>)
    ensures
        final(out)@ == old(out)@ + join_spec(strs(lines@), '\n').push('\n'),
{
    append_joined(out, lines, '\n');
    out.push('\n');
    proof {
        assert(final(out)@ =~= old(out)@ + join_spec(strs(lines@), '\n').push('\n'));
    }
}

/// The fields of each newline-terminated line of `text`.
pub fn parse_table(text: &str) -> (r: Vec<Vec<String>>)
    ensures
        rows_view(r@) == parse_table_spec(text@),
{
    let cs = chars_of(text);
    let pieces = split_on(&cs, '\n');
    let ghost ps = split_spec(text@, '\n');
    let ghost target = parse_table_spec(text@);
    proof {
        crate::text::lemma_split_nonempty(text@, '\n');
    }
    let n = pieces.len() - 1;
    let mut r: Vec<Vec<String>> = Vec::new();
    let mut i: usize = 0;
    while i < n
        invariant
            strs(pieces@) == ps,
            ps == split_spec(text@, '\n'),
            target == parse_table_spec(text@),
            n + 1 == pieces.len(),
            i <= n,
            rows_view(r@) == target.take(i as int),
        decreases n - i,
    {
        let ghost old_r = r@;
        let line = chars_of(pieces[i].as_str());
        let fields = split_on(&line, ',');
        r.push(fields);
        proof {
            assert(ps[i as int] == pieces@[i as int]@);
            assert(rows_view(r@) =~= rows_view(old_r).push(strs(fields@)));
            assert(target.take(i + 1) =~= target.take(i as int).push(target[i as int]));
        }
        i = i + 1;
    }
    proof {
        assert(target.take(n as int) =~= target);
    }
    r
}

} // verus!
