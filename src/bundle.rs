//! The merged table: one row per wavelength, one column per appended file.
use vstd::prelude::*;
use crate::decimal::{
    decimal_spec, format_quotient, lemma_decimal_spec_valid, parse_decimal, quotient_text, Decimal,
};
use crate::measurement::{data_rows_spec, metadata_spec, parse_measurement, rows_view, strs};
use crate::table::{
    body_lines, free_of, join_spec, lemma_read_table, lines_text, parse_table_spec, push_line,
    push_report,
};
use crate::text::{chars_of, index_of, lemma_index_of, string_of, trim_chars, trim_spec};

verus! {

/// Why an operation on a bundle failed.
#[derive(Clone, Copy, Debug, PartialEq, Eq, Structural)]
pub enum BundleError {
    /// A malformed file: no data rows, a data row without an intensity field,
    /// an exposure-time line without a colon, or a path without a file name.
    Format,
    /// The intensity column does not have one entry per wavelength, or the
    /// exposure times do not pair with the columns.
    Alignment,
    /// No metadata line mentions the exposure time.
    MetadataMissing,
    /// A cell or an exposure time is not a decimal number.
    NumericParse,
    /// An exposure time is zero.
    DivideByZero,
}

/// The label of the metadata line that holds the exposure time.
pub open spec fn exposure_label() -> Seq<char> {
    "Exposure Time"@
}

/// `needle` occurs in `s` at position `p`.
pub open spec fn occurs_at(s: Seq<char>, needle: Seq<char>, p: int) -> bool {
    0 <= p && p + needle.len() <= s.len() && s.subrange(p, p + needle.len()) == needle
}

pub open spec fn contains_spec(s: Seq<char>, needle: Seq<char>) -> bool {
    exists|p: int| occurs_at(s, needle, p)
}

/// Index of the first line that mentions the exposure time, or the number of lines.
pub open spec fn first_labelled(ls: Seq<Seq<char>>) -> int
    decreases ls.len(),
{
    if ls.len() == 0 {
        0
    } else if contains_spec(ls[0], exposure_label()) {
        0
    } else {
        1 + first_labelled(ls.drop_first())
    }
}

/// The exposure time that the metadata lines give: the trimmed text after the
/// first colon of the first line that mentions it.
pub open spec fn exposure_spec(meta: Seq<Seq<char>>) -> Result<Seq<char>, BundleError> {
    let i = first_labelled(meta);
    if i >= meta.len() {
        Err(BundleError::MetadataMissing)
    } else {
        let l = meta[i];
        let p = index_of(l, ':');
        if p >= l.len() {
            Err(BundleError::Format)
        } else {
            Ok(trim_spec(l.skip(p + 1)))
        }
    }
}

/// What a strict append takes from a file for a bundle of `n` wavelengths:
/// its intensity column and its exposure time, or the error it raises.
pub open spec fn column_spec(n: nat, text: Seq<char>) -> Result<
    (Seq<Seq<char>>, Seq<char>),
    BundleError,
> {
    let rows = data_rows_spec(text);
    if exists|i: int| 0 <= i < rows.len() && #[trigger] rows[i].len() < 2 {
        Err(BundleError::Format)
    } else if rows.len() != n {
        Err(BundleError::Alignment)
    } else {
        match exposure_spec(metadata_spec(text)) {
            Err(e) => Err(e),
            Ok(t) => Ok((rows.map_values(|r: Seq<Seq<char>>| r[1]), t)),
        }
    }
}

/// The intensity that a lenient append takes for row `i`: the second field,
/// or the empty string where the file has no such field.
pub open spec fn raw_cell(rows: Seq<Seq<Seq<char>>>, i: int) -> Seq<char> {
    if i < rows.len() && rows[i].len() >= 2 {
        rows[i][1]
    } else {
        Seq::empty()
    }
}

/// Each row of `rows` with the matching entry of `col` appended.
pub open spec fn push_column(rows: Seq<Seq<Seq<char>>>, col: Seq<Seq<char>>) -> Seq<
    Seq<Seq<char>>,
> {
    Seq::new(rows.len(), |i: int| rows[i].push(col[i]))
}

/// The base name of a path without its extension, as `Path::file_stem` gives it.
pub uninterp spec fn file_stem_of(path: Seq<char>) -> Option<Seq<char>>;

/// Relies on `std::path::Path::file_stem`: the last component of the path
/// without its extension, or none where the path has no file name.
#[verifier::external_body]
fn file_stem(path: &str) -> (r: Option<String>)
    ensures
        match r {
            Some(s) => file_stem_of(path@) == Some(s@),
            None => file_stem_of(path@) is None,
        },
{
    std::path::Path::new(path).file_stem().map(|s| s.to_string_lossy().into_owned())
}

} // verus!

verus! {

fn occurs_at_exec(s: &Vec<char>, needle: &Vec<char>, p: usize) -> (r: bool)
    requires
        p + needle.len() <= s.len(),
    ensures
        r == occurs_at(s@, needle@, p as int),
{
    let mut k: usize = 0;
    while k < needle.len()
        invariant
            p + needle.len() <= s.len(),
            k <= needle.len(),
            forall|q: int| 0 <= q < k ==> s@[p + q] == needle@[q],
        decreases needle.len() - k,
    {
        if s[p + k] != needle[k] {
            assert(s@.subrange(p as int, p + needle.len())[k as int] != needle@[k as int]);
            return false;
        }
        k = k + 1;
    }
    assert(s@.subrange(p as int, p + needle.len()) =~= needle@);
    true
}

fn contains_exec(s: &Vec<char>, needle: &Vec<char>) -> (r: bool)
    ensures
        r == contains_spec(s@, needle@),
{
    if needle.len() > s.len() {
        return false;
    }
    let last = s.len() - needle.len();
    let mut p: usize = 0;
    while p <= last
        invariant
            last + needle.len() == s.len(),
            p <= last + 1,
            forall|q: int| 0 <= q < p ==> !occurs_at(s@, needle@, q),
        decreases last + 1 - p,
    {
        if occurs_at_exec(s, needle, p) {
            return true;
        }
        if p == last {
            proof {
                assert forall|q: int| occurs_at(s@, needle@, q) implies false by {
                    assert(q <= last);
                }
            }
            return false;
        }
        p = p + 1;
    }
    false
}

proof fn lemma_first_labelled(ls: Seq<Seq<char>>, i: int)
    requires
        0 <= i <= ls.len(),
        forall|j: int| 0 <= j < i ==> !contains_spec(#[trigger] ls[j], exposure_label()),
        i == ls.len() || contains_spec(ls[i], exposure_label()),
    ensures
        first_labelled(ls) == i,
    decreases i,
{
    if i > 0 {
        assert forall|j: int| 0 <= j < i - 1 implies !contains_spec(
            #[trigger] ls.drop_first()[j],
            exposure_label(),
        ) by {
            assert(ls.drop_first()[j] == ls[j + 1]);
        }
        lemma_first_labelled(ls.drop_first(), i - 1);
    }
}

/// The exposure time given by a file's metadata lines.
pub fn exposure_time_of(meta: &Vec<String>) -> (r: Result<String, BundleError>)
    ensures
        match r {
            Ok(s) => exposure_spec(strs(meta@)) == Ok::<Seq<char>, BundleError>(s@),
            Err(e) => exposure_spec(strs(meta@)) == Err::<Seq<char>, BundleError>(e),
        },
{
    let ghost ls = strs(meta@);
    let label = chars_of("Exposure Time");
    let mut i: usize = 0;
    let mut found = false;
    let mut line: Vec<char> = Vec::new();
    while i < meta.len() && !found
        invariant
            i <= meta.len(),
            ls == strs(meta@),
            label@ == exposure_label(),
            found ==> i > 0 && line@ == ls[i - 1] && contains_spec(ls[i - 1], exposure_label()),
            forall|j: int| 0 <= j < (if found { i - 1 } else { i as int }) ==> !contains_spec(
                #[trigger] ls[j],
                exposure_label(),
            ),
        decreases meta.len() - i + (if found { 0int } else { 1int }),
    {
        let cs = chars_of(meta[i].as_str());
        assert(ls[i as int] == meta@[i as int]@);
        if contains_exec(&cs, &label) {
            found = true;
            line = cs;
        }
        i = i + 1;
    }
    if !found {
        proof {
            lemma_first_labelled(ls, i as int);
        }
        return Err(BundleError::MetadataMissing);
    }
    proof {
        lemma_first_labelled(ls, i - 1);
    }
    let mut p: usize = 0;
    while p < line.len() && line[p] != ':'
        invariant
            p <= line.len(),
            forall|j: int| 0 <= j < p ==> #[trigger] line@[j] != ':',
        decreases line.len() - p,
    {
        p = p + 1;
    }
    proof {
        lemma_index_of(line@, ':', p as int);
    }
    if p == line.len() {
        return Err(BundleError::Format);
    }
    let after = string_of(&line, p + 1, line.len());
    let after_chars = chars_of(after.as_str());
    let value = trim_chars(&after_chars);
    let r = string_of(&value, 0, value.len());
    proof {
        assert(after@ =~= line@.skip(p + 1));
        assert(r@ =~= value@);
    }
    Ok(r)
}

} // verus!

verus! {

/// One normalized cell: the intensity divided by the exposure time.
pub open spec fn cell_spec(cell: Seq<char>, time: Seq<char>) -> Result<Seq<char>, BundleError> {
    match (decimal_spec(cell), decimal_spec(time)) {
        (Some(a), Some(b)) => if b.mantissa == 0 {
            Err(BundleError::DivideByZero)
        } else {
            Ok(quotient_text(a, b))
        },
        _ => Err(BundleError::NumericParse),
    }
}

/// The merged state of one run.
#[derive(Clone, Debug, PartialEq, Eq)]
pub struct Bundle {
    /// One row per wavelength, one intensity per appended file.
    pub data: Vec<Vec<String>>,
    /// The metadata lines of the reference file.
    pub info: Vec<String>,
    /// The wavelength labels of the reference file: the alignment axis.
    pub wave_length: Vec<String>,
    /// One exposure time per file appended with its metadata.
    pub exposure_time: Vec<String>,
    /// One base name per file appended with its metadata.
    pub filename: Vec<String>,
}

impl Bundle {
    /// Every row has one cell per column, and file names pair with exposure times.
    pub open spec fn wf(&self) -> bool {
        &&& self.wave_length.len() >= 1
        &&& self.data.len() == self.wave_length.len()
        &&& forall|i: int| 0 <= i < self.data.len() ==> #[trigger] self.data@[i].len() == self.data@[0].len()
        &&& self.exposure_time.len() == self.filename.len()
    }

    /// The number of columns appended so far.
    pub open spec fn column_count(&self) -> nat {
        self.data@[0]@.len()
    }

    /// Starts a bundle from the text of the reference file: its wavelength axis
    /// and its metadata lines, with no column yet.
    pub fn init(reference: &str) -> (r: Result<Bundle, BundleError>)
        ensures
            match r {
                Ok(b) => {
                    &&& data_rows_spec(reference@).len() > 0
                    &&& b.wf()
                    &&& strs(b.wave_length@) == data_rows_spec(reference@).map_values(
                        |row: Seq<Seq<char>>| row[0],
                    )
                    &&& strs(b.info@) == metadata_spec(reference@)
                    &&& forall|i: int| 0 <= i < b.data.len() ==> #[trigger] b.data@[i].len() == 0
                    &&& b.exposure_time.len() == 0
                    &&& b.filename.len() == 0
                },
                Err(e) => e == BundleError::Format && data_rows_spec(reference@).len() == 0,
            },
    {
        let parsed = parse_measurement(reference);
        let ghost rows = data_rows_spec(reference@);
        let n = parsed.data_rows.len();
        if n == 0 {
            return Err(BundleError::Format);
        }
        let mut wave_length: Vec<String> = Vec::new();
        let mut data: Vec<Vec<String>> = Vec::new();
        let mut i: usize = 0;
        while i < n
            invariant
                n == parsed.data_rows.len(),
                rows_view(parsed.data_rows@) == rows,
                rows == data_rows_spec(reference@),
                i <= n,
                strs(wave_length@) == rows.take(i as int).map_values(|row: Seq<Seq<char>>| row[0]),
                data.len() == i,
                forall|j: int| 0 <= j < i ==> #[trigger] data@[j].len() == 0,
            decreases n - i,
        {
            proof {
                assert(rows[i as int] == strs(parsed.data_rows@[i as int]@));
                crate::measurement::lemma_data_rows_nonempty(reference@);
                assert(rows[i as int].len() >= 1);
                assert(strs(parsed.data_rows@[i as int]@)[0] == parsed.data_rows@[i as int]@[0]@);
            }
            let ghost old_wl = wave_length@;
            wave_length.push(parsed.data_rows[i][0].clone());
            data.push(Vec::new());
            proof {
                assert(strs(wave_length@) =~= strs(old_wl).push(rows[i as int][0]));
                assert(rows.take(i + 1) =~= rows.take(i as int).push(rows[i as int]));
            }
            i = i + 1;
        }
        proof {
            assert(rows.take(n as int) =~= rows);
        }
        Ok(Bundle {
            data,
            info: parsed.metadata_lines,
            wave_length,
            exposure_time: Vec::new(),
            filename: Vec::new(),
        })
    }
    /// Appends `col[i]` to row `i` of the table.
    fn push_cells(&mut self, col: Vec<String>)
        requires
            old(self).wf(),
            col.len() == old(self).data.len(),
        ensures
            final(self).wf(),
            rows_view(final(self).data@) == push_column(rows_view(old(self).data@), strs(col@)),
            final(self).column_count() == old(self).column_count() + 1,
            final(self).info == old(self).info,
            final(self).wave_length == old(self).wave_length,
            final(self).exposure_time == old(self).exposure_time,
            final(self).filename == old(self).filename,
    {
        let ghost old_view = rows_view(self.data@);
        let ghost width = self.data@[0].len();
        let mut rows: Vec<Vec<String>> = Vec::new();
        std::mem::swap(&mut self.data, &mut rows);
        let mut out: Vec<Vec<String>> = Vec::new();
        let n = rows.len();
        let mut i: usize = 0;
        for row in it: rows.into_iter()
            invariant
                n == col.len(),
                it.seq().len() == n,
                old_view == rows_view(it.seq()),
                forall|j: int| 0 <= j < n ==> #[trigger] it.seq()[j].len() == width,
                i == it.index(),
                out.len() == i,
                forall|j: int| 0 <= j < i ==> #[trigger] rows_view(out@)[j] == old_view[j].push(strs(col@)[j]),
                forall|j: int| 0 <= j < i ==> #[trigger] out@[j].len() == width + 1,
        {
            let mut row = row;
            let ghost old_out = out@;
            proof {
                assert(old_view[i as int] == strs(row@));
                assert(it.seq()[i as int].len() == width);
                assert(strs(it.seq()[i as int]@).len() == width);
                assert(row@.len() == width);
            }
            row.push(col[i].clone());
            out.push(row);
            proof {
                assert(rows_view(out@) =~= rows_view(old_out).push(strs(row@)));
                assert(strs(row@) =~= old_view[i as int].push(strs(col@)[i as int]));
                assert(out@[i as int].len() == width + 1);
            }
            i = i + 1;
        }
        self.data = out;
        proof {
            assert(rows_view(self.data@) =~= push_column(old_view, strs(col@)));
            assert(self.data@[0].len() == width + 1);
        }
    }
    /// Appends a file's intensity column, exposure time and base name, given the
    /// file's path and text. Every check comes before any change: on an error
    /// the bundle is left as it was.
    pub fn assign_to_column_from_csv(&mut self, path: &str, text: &str) -> (r: Result<
        (),
        BundleError,
    >)
        requires
            old(self).wf(),
        ensures
            final(self).wf(),
            match column_spec(old(self).wave_length@.len(), text@) {
                Err(e) => r == Err::<(), BundleError>(e) && *final(self) == *old(self),
                Ok((col, t)) => match file_stem_of(path@) {
                    None => r == Err::<(), BundleError>(BundleError::Format) && *final(self)
                        == *old(self),
                    Some(name) => {
                        &&& r is Ok
                        &&& rows_view(final(self).data@) == push_column(
                            rows_view(old(self).data@),
                            col,
                        )
                        &&& final(self).column_count() == old(self).column_count() + 1
                        &&& strs(final(self).exposure_time@) == strs(old(self).exposure_time@).push(t)
                        &&& strs(final(self).filename@) == strs(old(self).filename@).push(name)
                        &&& final(self).info == old(self).info
                        &&& final(self).wave_length == old(self).wave_length
                    },
                },
            },
    {
        let parsed = parse_measurement(text);
        let ghost rows = data_rows_spec(text@);
        let n = parsed.data_rows.len();
        let mut col: Vec<String> = Vec::new();
        let mut i: usize = 0;
        while i < n
            invariant
                n == parsed.data_rows.len(),
                rows_view(parsed.data_rows@) == rows,
                rows == data_rows_spec(text@),
                *self == *old(self),
                self.wf(),
                i <= n,
                forall|j: int| 0 <= j < i ==> #[trigger] rows[j].len() >= 2,
                strs(col@) == rows.take(i as int).map_values(|row: Seq<Seq<char>>| row[1]),
            decreases n - i,
        {
            assert(rows[i as int] == strs(parsed.data_rows@[i as int]@));
            if parsed.data_rows[i].len() < 2 {
                return Err(BundleError::Format);
            }
            let ghost old_col = col@;
            col.push(parsed.data_rows[i][1].clone());
            proof {
                assert(strs(col@) =~= strs(old_col).push(rows[i as int][1]));
                assert(rows.take(i + 1) =~= rows.take(i as int).push(rows[i as int]));
            }
            i = i + 1;
        }
        proof {
            assert(rows.take(n as int) =~= rows);
        }
        if n != self.wave_length.len() {
            return Err(BundleError::Alignment);
        }
        let t = match exposure_time_of(&parsed.metadata_lines) {
            Ok(t) => t,
            Err(e) => {
                return Err(e);
            },
        };
        let name = match file_stem(path) {
            Some(name) => name,
            None => {
                return Err(BundleError::Format);
            },
        };
        self.push_cells(col);
        self.exposure_time.push(t);
        self.filename.push(name);
        proof {
            assert(strs(self.exposure_time@) =~= strs(old(self).exposure_time@).push(t@));
            assert(strs(self.filename@) =~= strs(old(self).filename@).push(name@));
        }
        Ok(())
    }

    /// Appends the second field of each data row of a plain two-column text as a
    /// new column, with the empty string where a row or its field is missing.
    /// Exposure times and file names are left as they are.
    pub fn append_raw_column(&mut self, text: &str)
        requires
            old(self).wf(),
        ensures
            final(self).wf(),
            rows_view(final(self).data@) == push_column(
                rows_view(old(self).data@),
                Seq::new(old(self).data@.len(), |i: int| raw_cell(data_rows_spec(text@), i)),
            ),
            final(self).column_count() == old(self).column_count() + 1,
            final(self).info == old(self).info,
            final(self).wave_length == old(self).wave_length,
            final(self).exposure_time == old(self).exposure_time,
            final(self).filename == old(self).filename,
    {
        let parsed = parse_measurement(text);
        let ghost rows = data_rows_spec(text@);
        let ghost target = Seq::new(self.data@.len(), |i: int| raw_cell(rows, i));
        let n = self.data.len();
        let mut col: Vec<String> = Vec::new();
        let mut i: usize = 0;
        while i < n
            invariant
                n == old(self).data.len(),
                *self == *old(self),
                rows == data_rows_spec(text@),
                rows_view(parsed.data_rows@) == rows,
                target == Seq::new(n as nat, |i: int| raw_cell(rows, i)),
                i <= n,
                strs(col@) == target.take(i as int),
            decreases n - i,
        {
            let ghost old_col = col@;
            if i < parsed.data_rows.len() && parsed.data_rows[i].len() >= 2 {
                assert(rows[i as int] == strs(parsed.data_rows@[i as int]@));
                col.push(parsed.data_rows[i][1].clone());
            } else {
                proof {
                    if i < parsed.data_rows.len() {
                        assert(rows[i as int] == strs(parsed.data_rows@[i as int]@));
                    }
                }
                col.push(String::new());
            }
            proof {
                assert(strs(col@) =~= strs(old_col).push(target[i as int]));
                assert(target.take(i + 1) =~= target.take(i as int).push(target[i as int]));
            }
            i = i + 1;
        }
        proof {
            assert(target.take(n as int) =~= target);
        }
        self.push_cells(col);
    }
    /// The labels of the raw table's lines: two headers, then the wavelengths.
    pub open spec fn raw_labels(&self) -> Seq<Seq<char>> {
        seq!["Wave Length (nm)"@, "Exposure Time (sec)"@] + strs(self.wave_length@)
    }

    /// The cells of the raw table's lines: file names, exposure times, then the data rows.
    pub open spec fn raw_cells(&self) -> Seq<Seq<Seq<char>>> {
        seq![strs(self.filename@), strs(self.exposure_time@)] + rows_view(self.data@)
    }

    /// The raw table: a line of file names, a line of exposure times, then one
    /// line per wavelength with its intensities.
    pub open spec fn raw_table_spec(&self) -> Seq<char> {
        lines_text(body_lines(self.raw_labels(), self.raw_cells()))
    }

    /// The metadata report: the reference file's metadata lines, each ended by a newline.
    pub open spec fn report_spec(&self) -> Seq<char> {
        join_spec(strs(self.info@), '\n').push('\n')
    }

    /// Renders the raw table.
    pub fn raw_table_text(&self) -> (r: String)
        requires
            self.wf(),
        ensures
            r@ == self.raw_table_spec(),
    {
        let ghost ls = body_lines(self.raw_labels(), self.raw_cells());
        let mut out = String::new();
        push_line(&mut out, "Wave Length (nm)", &self.filename);
        push_line(&mut out, "Exposure Time (sec)", &self.exposure_time);
        proof {
            assert(ls.take(1).drop_last() =~= Seq::<Seq<char>>::empty());
            assert(ls.take(2).drop_last() =~= ls.take(1));
            assert(self.raw_labels()[0] == "Wave Length (nm)"@);
            assert(self.raw_labels()[1] == "Exposure Time (sec)"@);
            assert(self.raw_cells()[0] == strs(self.filename@));
            assert(self.raw_cells()[1] == strs(self.exposure_time@));
            assert(lines_text(Seq::<Seq<char>>::empty()) == Seq::<char>::empty());
            assert(ls.take(1).last() == ls[0]);
            assert(ls.take(2).last() == ls[1]);
            assert(lines_text(ls.take(1)) == lines_text(Seq::<Seq<char>>::empty()) + ls[0].push('\n'));
            assert(Seq::<char>::empty() + ls[0].push('\n') =~= ls[0].push('\n'));
            assert(lines_text(ls.take(1)) =~= ls[0].push('\n'));
            assert(lines_text(ls.take(2)) =~= ls[0].push('\n') + ls[1].push('\n'));
            assert(out@ =~= lines_text(ls.take(2)));
        }
        let n = self.wave_length.len();
        let mut i: usize = 0;
        while i < n
            invariant
                self.wf(),
                n == self.wave_length.len(),
                ls == body_lines(self.raw_labels(), self.raw_cells()),
                i <= n,
                out@ == lines_text(ls.take(i + 2)),
            decreases n - i,
        {
            push_line(&mut out, self.wave_length[i].as_str(), &self.data[i]);
            proof {
                assert(ls.take(i + 3).drop_last() =~= ls.take(i + 2));
                assert(self.raw_labels()[i + 2] == self.wave_length@[i as int]@);
                assert(self.raw_cells()[i + 2] == strs(self.data@[i as int]@));
            }
            i = i + 1;
        }
        proof {
            assert(ls.take(n + 2) =~= ls);
        }
        out
    }

    /// Renders the metadata report.
    pub fn metadata_report_text(&self) -> (r: String)
        ensures
            r@ == self.report_spec(),
    {
        let mut out = String::new();
        push_report(&mut out, &self.info);
        proof {
            assert(out@ =~= self.report_spec());
        }
        out
    }

    /// Reading back the raw table gives the file names, the exposure times, and
    /// each wavelength with its row of intensities, wherever no label or cell
    /// holds a comma or a newline and at least one file was appended.
    pub proof fn lemma_raw_table_round_trip(&self)
        requires
            self.wf(),
            self.column_count() >= 1,
            self.filename.len() >= 1,
            forall|i: int| 0 <= i < self.raw_labels().len() ==> free_of(#[trigger] self.raw_labels()[i], ','),
            forall|i: int| 0 <= i < self.raw_labels().len() ==> free_of(#[trigger] self.raw_labels()[i], '\n'),
            forall|i: int, j: int|
                0 <= i < self.raw_cells().len() && 0 <= j < self.raw_cells()[i].len() ==> free_of(
                    #[trigger] self.raw_cells()[i][j],
                    ',',
                ),
            forall|i: int, j: int|
                0 <= i < self.raw_cells().len() && 0 <= j < self.raw_cells()[i].len() ==> free_of(
                    #[trigger] self.raw_cells()[i][j],
                    '\n',
                ),
        ensures
            parse_table_spec(self.raw_table_spec()).len() == self.wave_length.len() + 2,
            parse_table_spec(self.raw_table_spec())[0] == seq!["Wave Length (nm)"@] + strs(
                self.filename@,
            ),
            parse_table_spec(self.raw_table_spec())[1] == seq!["Exposure Time (sec)"@] + strs(
                self.exposure_time@,
            ),
            forall|i: int|
                0 <= i < self.wave_length.len() ==> #[trigger] parse_table_spec(
                    self.raw_table_spec(),
                )[i + 2] == seq![self.wave_length@[i]@] + strs(self.data@[i]@),
    {
        let cells = self.raw_cells();
        assert forall|i: int| 0 <= i < cells.len() implies #[trigger] cells[i].len() >= 1 by {
            if i >= 2 {
                assert(cells[i] == strs(self.data@[i - 2]@));
                assert(self.data@[i - 2].len() == self.data@[0].len());
            }
        }
        lemma_read_table(self.raw_labels(), cells);
    }
    /// The normalized cell at row `i`, column `j`.
    pub open spec fn norm_cell(&self, i: int, j: int) -> Result<Seq<char>, BundleError> {
        cell_spec(self.data@[i]@[j]@, self.exposure_time@[j]@)
    }

    /// Every cell before (`i`, `j`), row by row, normalizes without error.
    pub open spec fn cells_ok_before(&self, i: int, j: int) -> bool {
        forall|i2: int, j2: int|
            0 <= i2 < self.data.len() && 0 <= j2 < self.column_count() && (i2 < i || (i2 == i
                && j2 < j)) ==> #[trigger] self.norm_cell(i2, j2) is Ok
    }

    /// The normalized table, where every cell normalizes.
    pub open spec fn normalized_spec(&self) -> Seq<Seq<Seq<char>>> {
        Seq::new(
            self.data.len() as nat,
            |i: int| Seq::new(self.column_count(), |j: int| self.norm_cell(i, j)->Ok_0),
        )
    }

    /// What normalizing reports: an alignment error where the exposure times do not
    /// pair with the columns, else the first cell's error row by row, else success.
    pub open spec fn normalize_error(&self, e: BundleError) -> bool {
        if self.exposure_time.len() != self.column_count() {
            e == BundleError::Alignment
        } else {
            exists|i: int, j: int|
                0 <= i < self.data.len() && 0 <= j < self.column_count() && self.cells_ok_before(
                    i,
                    j,
                ) && #[trigger] self.norm_cell(i, j) == Err::<Seq<char>, BundleError>(e)
        }
    }

    /// Divides every intensity by its file's exposure time.
    pub fn normalize(&self) -> (r: Result<Vec<Vec<String>>, BundleError>)
        requires
            self.wf(),
        ensures
            r is Ok <==> self.exposure_time.len() == self.column_count() && self.cells_ok_before(
                self.data.len() as int,
                0,
            ),
            match r {
                Ok(t) => rows_view(t@) == self.normalized_spec(),
                Err(e) => self.normalize_error(e),
            },
    {
        let m = self.data[0].len();
        if self.exposure_time.len() != m {
            return Err(BundleError::Alignment);
        }
        let mut times: Vec<Option<Decimal>> = Vec::new();
        let mut j: usize = 0;
        while j < m
            invariant
                m == self.exposure_time.len(),
                j <= m,
                times.len() == j,
                forall|q: int| 0 <= q < j ==> #[trigger] times@[q] == decimal_spec(self.exposure_time@[q]@),
            decreases m - j,
        {
            times.push(parse_decimal(self.exposure_time[j].as_str()));
            j = j + 1;
        }
        let n = self.data.len();
        let mut out: Vec<Vec<String>> = Vec::new();
        let mut i: usize = 0;
        while i < n
            invariant
                self.wf(),
                n == self.data.len(),
                m == self.exposure_time.len() == self.column_count(),
                times.len() == m,
                forall|q: int| 0 <= q < m ==> #[trigger] times@[q] == decimal_spec(self.exposure_time@[q]@),
                i <= n,
                self.cells_ok_before(i as int, 0),
                rows_view(out@) == self.normalized_spec().take(i as int),
            decreases n - i,
        {
            let row = &self.data[i];
            assert(row.len() == m);
            let mut cells: Vec<String> = Vec::new();
            let mut j: usize = 0;
            while j < m
                invariant
                    self.wf(),
                    n == self.data.len(),
                    m == self.exposure_time.len() == self.column_count(),
                    i < n,
                    *row == self.data@[i as int],
                    row.len() == m,
                    times.len() == m,
                    forall|q: int| 0 <= q < m ==> #[trigger] times@[q] == decimal_spec(self.exposure_time@[q]@),
                    j <= m,
                    self.cells_ok_before(i as int, j as int),
                    strs(cells@) == self.normalized_spec()[i as int].take(j as int),
                decreases m - j,
            {
                let a = parse_decimal(row[j].as_str());
                let ghost before = cells@;
                match (a, times[j]) {
                    (Some(a), Some(b)) => {
                        if b.mantissa == 0 {
                            return Err(BundleError::DivideByZero);
                        }
                        proof {
                            lemma_decimal_spec_valid(row@[j as int]@);
                            lemma_decimal_spec_valid(self.exposure_time@[j as int]@);
                        }
                        let c = format_quotient(a, b);
                        cells.push(c);
                        proof {
                            assert(self.norm_cell(i as int, j as int) is Ok);
                            assert(strs(cells@) =~= strs(before).push(c@));
                            assert(self.normalized_spec()[i as int].take(j + 1) =~= self.normalized_spec()[i as int].take(j as int).push(c@));
                        }
                    },
                    _ => {
                        return Err(BundleError::NumericParse);
                    },
                }
                j = j + 1;
            }
            let ghost old_out = out@;
            out.push(cells);
            proof {
                assert(self.normalized_spec()[i as int].take(m as int) =~= self.normalized_spec()[i as int]);
                assert(rows_view(out@) =~= rows_view(old_out).push(strs(cells@)));
                assert(self.normalized_spec().take(i + 1) =~= self.normalized_spec().take(i as int).push(self.normalized_spec()[i as int]));
            }
            i = i + 1;
        }
        proof {
            assert(self.normalized_spec().take(n as int) =~= self.normalized_spec());
        }
        Ok(out)
    }
    /// The normalized table: a line of file names, then one line per wavelength
    /// with its normalized intensities.
    pub open spec fn normalized_table_spec(&self) -> Seq<char> {
        lines_text(
            body_lines(
                seq!["Wave Length (nm)"@] + strs(self.wave_length@),
                seq![strs(self.filename@)] + self.normalized_spec(),
            ),
        )
    }

    /// Renders the normalized table, or reports the error that normalizing raises.
    pub fn normalized_table_text(&self) -> (r: Result<String, BundleError>)
        requires
            self.wf(),
        ensures
            r is Ok <==> self.exposure_time.len() == self.column_count() && self.cells_ok_before(
                self.data.len() as int,
                0,
            ),
            match r {
                Ok(t) => t@ == self.normalized_table_spec(),
                Err(e) => self.normalize_error(e),
            },
    {
        let rows = match self.normalize() {
            Ok(rows) => rows,
            Err(e) => {
                return Err(e);
            },
        };
        let ghost ls = body_lines(
            seq!["Wave Length (nm)"@] + strs(self.wave_length@),
            seq![strs(self.filename@)] + self.normalized_spec(),
        );
        let mut out = String::new();
        push_line(&mut out, "Wave Length (nm)", &self.filename);
        proof {
            assert(lines_text(Seq::<Seq<char>>::empty()) == Seq::<char>::empty());
            assert(ls.take(1).drop_last() =~= Seq::<Seq<char>>::empty());
            assert(ls.take(1).last() == ls[0]);
            assert(lines_text(ls.take(1)) == lines_text(Seq::<Seq<char>>::empty()) + ls[0].push('\n'));
            assert(out@ =~= lines_text(ls.take(1)));
        }
        let n = self.wave_length.len();
        let mut i: usize = 0;
        while i < n
            invariant
                self.wf(),
                n == self.wave_length.len(),
                rows_view(rows@) == self.normalized_spec(),
                ls == body_lines(
                    seq!["Wave Length (nm)"@] + strs(self.wave_length@),
                    seq![strs(self.filename@)] + self.normalized_spec(),
                ),
                i <= n,
                out@ == lines_text(ls.take(i + 1)),
            decreases n - i,
        {
            assert(rows_view(rows@)[i as int] == strs(rows@[i as int]@));
            push_line(&mut out, self.wave_length[i].as_str(), &rows[i]);
            proof {
                assert(ls.take(i + 2).drop_last() =~= ls.take(i + 1));
            }
            i = i + 1;
        }
        proof {
            assert(ls.take(n + 1) =~= ls);
        }
        Ok(out)
    }
    /// In a well-formed bundle every row holds exactly one cell per appended column.
    pub proof fn lemma_row_lengths(&self)
        requires
            self.wf(),
        ensures
            forall|i: int| 0 <= i < self.data.len() ==> #[trigger] self.data@[i].len() == self.column_count(),
    {
    }

    /// The metadata report is the reference file's metadata lines in their order,
    /// each ended by a newline, whatever was appended after the bundle was made.
    pub proof fn lemma_report_of_reference(&self, reference: Seq<char>)
        requires
            strs(self.info@) == metadata_spec(reference),
        ensures
            self.report_spec() == join_spec(metadata_spec(reference), '\n').push('\n'),
    {
    }
}

} // verus!
