//! One measurement file: a comma-separated data block, a blank line, then metadata lines.
use vstd::prelude::*;
use crate::text::{chars_of, lines_of, lines_spec, split_on, split_spec};

verus! {

/// The views of a sequence of strings.
pub open spec fn strs(v: Seq<String>) -> Seq<Seq<char>> {
    v.map_values(|x: String| x@)
}

/// The views of a sequence of rows of strings.
pub open spec fn rows_view(v: Seq<Vec<String>>) -> Seq<Seq<Seq<char>>> {
    v.map_values(|r: Vec<String>| strs(r@))
}

/// Index of the first empty line, or the number of lines when there is none.
pub open spec fn first_blank(ls: Seq<Seq<char>>) -> int
    decreases ls.len(),
{
    if ls.len() == 0 {
        0
    } else if ls[0].len() == 0 {
        0
    } else {
        1 + first_blank(ls.drop_first())
    }
}

/// The fields of each line before the first blank line.
pub open spec fn data_rows_spec(text: Seq<char>) -> Seq<Seq<Seq<char>>> {
    let ls = lines_spec(text);
    ls.take(first_blank(ls)).map_values(|l: Seq<char>| split_spec(l, ','))
}

/// The non-empty lines from the first blank line on.
pub open spec fn metadata_spec(text: Seq<char>) -> Seq<Seq<char>> {
    let ls = lines_spec(text);
    ls.skip(first_blank(ls)).filter(|l: Seq<char>| l.len() > 0)
}

proof fn lemma_first_blank(ls: Seq<Seq<char>>, i: int)
    requires
        0 <= i <= ls.len(),
        forall|j: int| 0 <= j < i ==> #[trigger] ls[j].len() > 0,
        i == ls.len() || ls[i].len() == 0,
    ensures
        first_blank(ls) == i,
    decreases i,
{
    if i > 0 {
        assert forall|j: int| 0 <= j < i - 1 implies #[trigger] ls.drop_first()[j].len() > 0 by {
            assert(ls.drop_first()[j] == ls[j + 1]);
        }
        lemma_first_blank(ls.drop_first(), i - 1);
    }
}

/// A measurement file split into its data rows and its metadata lines.
#[derive(Clone, Debug, PartialEq, Eq)]
pub struct MeasurementFile {
    pub data_rows: Vec<Vec<String>>,
    pub metadata_lines: Vec<String>,
}

/// Splits the text of a measurement file into data rows (fields split on commas)
/// and the metadata lines that follow the first blank line.
pub fn parse_measurement(text: &str) -> (r: MeasurementFile)
    ensures
        rows_view(r.data_rows@) == data_rows_spec(text@),
        strs(r.metadata_lines@) == metadata_spec(text@),
{
    let lines = lines_of(text);
    let ghost ls = lines_spec(text@);
    let n = lines.len();
    let mut k: usize = 0;
    while k < n && !lines[k].as_str().is_empty()
        invariant
            k <= n == lines.len(),
            strs(lines@) == ls,
            forall|j: int| 0 <= j < k ==> #[trigger] ls[j].len() > 0,
        decreases n - k,
    {
        assert(ls[k as int] == lines@[k as int]@);
        k = k + 1;
    }
    proof {
        if k < n {
            assert(ls[k as int] == lines@[k as int]@);
        }
        lemma_first_blank(ls, k as int);
    }
    let ghost data_target = ls.take(k as int).map_values(|l: Seq<char>| split_spec(l, ','));
    let mut rows: Vec<Vec<String>> = Vec::new();
    let mut i: usize = 0;
    while i < k
        invariant
            k <= n == lines.len(),
            strs(lines@) == ls,
            data_target == ls.take(k as int).map_values(|l: Seq<char>| split_spec(l, ',')),
            i <= k,
            rows_view(rows@) == data_target.take(i as int),
        decreases k - i,
    {
        let ghost old_rows = rows@;
        let cs = chars_of(lines[i].as_str());
        let fields = split_on(&cs, ',');
        rows.push(fields);
        proof {
            assert(ls[i as int] == lines@[i as int]@);
            assert(rows_view(rows@) =~= rows_view(old_rows).push(strs(fields@)));
            assert(data_target.take(i + 1) =~= data_target.take(i as int).push(data_target[i as int]));
        }
        i = i + 1;
    }
    proof {
        assert(data_target.take(k as int) =~= data_target);
    }
    let ghost rest = ls.skip(k as int);
    let ghost nonempty = |l: Seq<char>| l.len() > 0;
    let mut meta: Vec<String> = Vec::new();
    let mut j: usize = k;
    proof {
        reveal(Seq::filter);
        assert(rest.take(0) =~= Seq::<Seq<char>>::empty());
        assert(strs(meta@) =~= rest.take(0).filter(nonempty));
    }
    while j < n
        invariant
            k <= j <= n == lines.len(),
            strs(lines@) == ls,
            rest == ls.skip(k as int),
            nonempty == (|l: Seq<char>| l.len() > 0),
            strs(meta@) == rest.take(j - k).filter(nonempty),
        decreases n - j,
    {
        let ghost old_meta = meta@;
        proof {
            reveal(Seq::filter);
            assert(rest.take(j - k + 1).drop_last() =~= rest.take(j - k));
            assert(rest.take(j - k + 1).last() == lines@[j as int]@);
        }
        if !lines[j].as_str().is_empty() {
            meta.push(lines[j].clone());
            proof {
                assert(strs(meta@) =~= strs(old_meta).push(lines@[j as int]@));
            }
        }
        j = j + 1;
    }
    proof {
        assert(rest.take(n - k) =~= rest);
    }
    MeasurementFile { data_rows: rows, metadata_lines: meta }
}

} // verus!

verus! {

/// Every data row has at least one field.
pub proof fn lemma_data_rows_nonempty(text: Seq<char>)
    ensures
        forall|i: int|
            0 <= i < data_rows_spec(text).len() ==> #[trigger] data_rows_spec(text)[i].len() >= 1,
{
    let ls = lines_spec(text);
    let d = ls.take(first_blank(ls));
    assert forall|i: int| 0 <= i < data_rows_spec(text).len() implies #[trigger] data_rows_spec(
        text,
    )[i].len() >= 1 by {
        crate::text::lemma_split_nonempty(d[i], ',');
    }
}

} // verus!
