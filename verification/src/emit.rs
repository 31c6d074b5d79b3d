//! CSV emission and the whole per-file conversion: decode raw bytes
//! lossily, parse the text into sections, and serialise each section as
//! one CSV document under a sanitised file name.

use vstd::prelude::*;

use crate::parser::parse_sections;
use crate::parser::sections_of;
use crate::parser::Section;
use crate::parser::SectionModel;
use crate::text::chars_of;
use crate::text::string_of;

verus! {

/// The bytes that one CSV record of the given fields serialises to.
pub uninterp spec fn csv_line(fields: Seq<Seq<char>>) -> Seq<u8>;

/// Relies on `csv::Writer` of the `csv` crate — `from_writer`,
/// `write_record` and `into_inner` — to encode one record: each field
/// quoted when it needs to be, fields joined by commas, a final `\n`
/// terminator.  The bytes depend on the fields alone.  The writer is
/// created over a fresh in-memory buffer and consumed at once, so
/// neither writing nor the final flush can fail.
#[verifier::external_body]
fn csv_record(fields: &Vec<String>) -> (r: Vec<u8>)
    ensures
        r@ == csv_line(fields.deep_view()),
{
    let mut w = csv::Writer::from_writer(std::vec::Vec::new());
    let _ = w.write_record(fields.iter());
    w.into_inner().unwrap_or(std::vec::Vec::new())
}

/// The concatenated records of a section's rows.
pub open spec fn rows_bytes(rows: Seq<Seq<Seq<char>>>) -> Seq<u8>
    decreases rows.len(),
{
    if rows.len() == 0 {
        Seq::empty()
    } else {
        rows_bytes(rows.drop_last()) + csv_line(rows.last())
    }
}

/// The serialised CSV document of a section: one record for the
/// headers, then one record per row, in order.
pub open spec fn csv_doc(s: SectionModel) -> Seq<u8> {
    csv_line(s.headers) + rows_bytes(s.rows)
}

/// A section with no rows is serialised as exactly its header record.
pub proof fn lemma_header_only_doc(s: SectionModel)
    requires
        s.rows.len() == 0,
    ensures
        csv_doc(s) == csv_line(s.headers),
{
    assert(csv_line(s.headers) + rows_bytes(s.rows) =~= csv_line(s.headers));
}

proof fn lemma_rows_bytes_next(rows: Seq<Seq<Seq<char>>>, i: int)
    requires
        0 <= i < rows.len(),
    ensures
        rows_bytes(rows.take(i + 1)) == rows_bytes(rows.take(i)) + csv_line(rows[i]),
{
    let r1 = rows.take(i + 1);
    assert(r1.drop_last() =~= rows.take(i));
    assert(r1.last() == rows[i]);
    assert(r1.len() == i + 1);
}

/// Serialise one section as a CSV document.
pub fn section_csv(sec: &Section) -> (r: Vec<u8>)
    ensures
        r@ == csv_doc(sec@),
{
    let mut out = csv_record(&sec.headers);
    proof {
        assert(csv_line(sec@.headers) + rows_bytes(sec@.rows.take(0)) =~= csv_line(sec@.headers));
    }
    let mut i: usize = 0;
    while i < sec.rows.len()
        invariant
            i <= sec.rows@.len(),
            out@ == csv_line(sec@.headers) + rows_bytes(sec@.rows.take(i as int)),
        decreases sec.rows@.len() - i,
    {
        let mut b = csv_record(&sec.rows[i]);
        proof {
            assert(sec.rows@[i as int].deep_view() == sec@.rows[i as int]);
            lemma_rows_bytes_next(sec@.rows, i as int);
            assert(out@ + b@ =~= csv_line(sec@.headers) + rows_bytes(sec@.rows.take(i + 1)));
        }
        out.append(&mut b);
        i += 1;
    }
    proof {
        assert(sec@.rows.take(sec.rows@.len() as int) =~= sec@.rows);
    }
    out
}

/// The section name with every space replaced by an underscore.
pub open spec fn underscored(s: Seq<char>) -> Seq<char> {
    s.map_values(
        |c: char|
            if c == ' ' {
                '_'
            } else {
                c
            },
    )
}

/// The file name a section is written under: its name with spaces
/// replaced by underscores, followed by `.csv`.  No other character is
/// sanitised.
pub open spec fn csv_name(s: Seq<char>) -> Seq<char> {
    underscored(s) + seq!['.', 'c', 's', 'v']
}

/// Build the output file name for a section name.
pub fn csv_file_name(name: &str) -> (r: String)
    ensures
        r@ == csv_name(name@),
{
    let cs = chars_of(name);
    let mut out: Vec<char> = Vec::new();
    let mut i: usize = 0;
    while i < cs.len()
        invariant
            i <= cs@.len(),
            out@.len() == i,
            forall|k: int|
                0 <= k < i ==> out@[k] == (if cs@[k] == ' ' {
                    '_'
                } else {
                    cs@[k]
                }),
        decreases cs@.len() - i,
    {
        let c = cs[i];
        if c == ' ' {
            out.push('_');
        } else {
            out.push(c);
        }
        i += 1;
    }
    proof {
        assert(out@ =~= underscored(cs@));
    }
    out.push('.');
    out.push('c');
    out.push('s');
    out.push('v');
    proof {
        assert(out@ =~= csv_name(cs@));
    }
    string_of(&out)
}

/// Does a file name end in the `.xer` suffix, with something before it?
/// This is exactly when `Path::extension` reports `xer`.
pub open spec fn ends_in_xer(name: Seq<char>) -> bool {
    &&& name.len() > 4
    &&& name[name.len() - 4] == '.'
    &&& name[name.len() - 3] == 'x'
    &&& name[name.len() - 2] == 'e'
    &&& name[name.len() - 1] == 'r'
}

/// The base name of an XER file name: what stands before its `.xer`
/// suffix, or nothing when the name has no such suffix.
pub open spec fn xer_stem_of(name: Seq<char>) -> Option<Seq<char>> {
    if ends_in_xer(name) {
        Some(name.take(name.len() - 4))
    } else {
        None
    }
}

/// Recognise an XER file name and return its base name.
pub fn xer_stem(file_name: &str) -> (r: Option<String>)
    ensures
        match r {
            Some(stem) => xer_stem_of(file_name@) == Some(stem@),
            None => xer_stem_of(file_name@) is None,
        },
{
    let cs = chars_of(file_name);
    let n = cs.len();
    if n > 4 && cs[n - 4] == '.' && cs[n - 3] == 'x' && cs[n - 2] == 'e' && cs[n - 1] == 'r' {
        let mut stem: Vec<char> = Vec::new();
        let mut i: usize = 0;
        while i < n - 4
            invariant
                n == cs@.len(),
                n > 4,
                i <= n - 4,
                stem@ == cs@.subrange(0, i as int),
            decreases n - 4 - i,
        {
            stem.push(cs[i]);
            assert(cs@.subrange(0, i + 1) =~= cs@.subrange(0, i as int).push(cs@[i as int]));
            i += 1;
        }
        assert(stem@ =~= cs@.take(cs@.len() - 4));
        Some(string_of(&stem))
    } else {
        None
    }
}

/// The decoded characters of raw file bytes, invalid sequences replaced.
pub uninterp spec fn lossy_utf8(bytes: Seq<u8>) -> Seq<char>;

/// Relies on `String::from_utf8_lossy`: decoding replaces each invalid
/// UTF-8 sequence with U+FFFD, never fails, and depends on the bytes
/// alone.
#[verifier::external_body]
fn decode_lossy(bytes: &Vec<u8>) -> (r: String)
    ensures
        r@ == lossy_utf8(bytes@),
{
    String::from_utf8_lossy(bytes).into_owned()
}

/// One CSV output of a conversion: the file name to write under the
/// input file's output directory, and the file's full contents.
pub struct CsvFile {
    pub file_name: String,
    pub bytes: Vec<u8>,
}

/// The mathematical content of a [`CsvFile`].
#[verifier::ext_equal]
pub struct CsvFileModel {
    pub file_name: Seq<char>,
    pub bytes: Seq<u8>,
}

impl View for CsvFile {
    type V = CsvFileModel;

    open spec fn view(&self) -> CsvFileModel {
        CsvFileModel { file_name: self.file_name@, bytes: self.bytes@ }
    }
}

impl DeepView for CsvFile {
    type V = CsvFileModel;

    open spec fn deep_view(&self) -> CsvFileModel {
        self@
    }
}

/// The CSV files that a sequence of sections yields, one per section.
pub open spec fn files_of_sections(ss: Seq<SectionModel>) -> Seq<CsvFileModel> {
    ss.map_values(
        |s: SectionModel| CsvFileModel { file_name: csv_name(s.name), bytes: csv_doc(s) },
    )
}

/// Everything the tool derives from one input file's raw bytes: the
/// bytes are decoded lossily, the text parsed into sections, and each
/// section serialised under its sanitised file name.  The result is a
/// function of the input bytes alone, so equal inputs convert to equal
/// outputs on every run.
pub open spec fn conversion_of(bytes: Seq<u8>) -> Seq<CsvFileModel> {
    files_of_sections(sections_of(lossy_utf8(bytes)))
}

/// A text without a single `%T` line yields no output file at all.
pub proof fn lemma_no_tags_no_output(text: Seq<char>)
    requires
        forall|j: int|
            0 <= j < crate::text::line_seqs(text).len() ==> !crate::parser::has_tag(
                crate::text::trimmed(#[trigger] crate::text::line_seqs(text)[j]),
                'T',
            ),
    ensures
        files_of_sections(sections_of(text)) == Seq::<CsvFileModel>::empty(),
{
    crate::parser::lemma_no_tags_no_sections(crate::text::line_seqs(text));
    assert(files_of_sections(sections_of(text)) =~= Seq::<CsvFileModel>::empty());
}

/// Convert one XER file's raw bytes into its CSV files, in the order
/// the sections appear.
pub fn convert_content(bytes: &Vec<u8>) -> (out: Vec<CsvFile>)
    ensures
        out.deep_view() == conversion_of(bytes@),
{
    let text = decode_lossy(bytes);
    let sections = parse_sections(text.as_str());
    let ghost smodel = sections.deep_view();
    let mut out: Vec<CsvFile> = Vec::new();
    let mut i: usize = 0;
    proof {
        assert(out.deep_view() =~= files_of_sections(smodel).take(0));
    }
    while i < sections.len()
        invariant
            i <= sections@.len(),
            smodel == sections.deep_view(),
            smodel == sections_of(lossy_utf8(bytes@)),
            out.deep_view() == files_of_sections(smodel).take(i as int),
        decreases sections@.len() - i,
    {
        let sec = &sections[i];
        let ghost old_out = out.deep_view();
        let file_name = csv_file_name(sec.name.as_str());
        let body = section_csv(sec);
        out.push(CsvFile { file_name, bytes: body });
        proof {
            assert(sections@[i as int]@ == smodel[i as int]);
            assert(out.deep_view() =~~= old_out.push(
                CsvFileModel {
                    file_name: csv_name(smodel[i as int].name),
                    bytes: csv_doc(smodel[i as int]),
                },
            ));
            assert(out.deep_view() =~= files_of_sections(smodel).take(i + 1));
        }
        i += 1;
    }
    proof {
        assert(files_of_sections(smodel).take(smodel.len() as int) =~= files_of_sections(smodel));
    }
    out
}

} // verus!
