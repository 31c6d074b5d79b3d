//! The section parser: a tag-driven machine over the lines of an XER
//! text.  A `%T` line opens a named section (finishing the previous one),
//! a `%F` line sets the open section's headers, a `%R` line appends a
//! data row padded to at least the current header count, and every other
//! line is ignored.  Data seen before the first `%T` accumulates in a
//! section with an empty name, which is never finished.

use vstd::prelude::*;

use crate::text::line_seqs;
use crate::text::split_at_seps;
use crate::text::split_char;
use crate::text::split_lines;
use crate::text::trim_chars;
use crate::text::trimmed;
use crate::text::chars_of;
use crate::text::string_of;

verus! {

/// One logical table of an XER file: its name, its column headers and
/// its data rows.
pub struct Section {
    pub name: String,
    pub headers: Vec<String>,
    pub rows: Vec<Vec<String>>,
}

/// The mathematical content of a [`Section`].
#[verifier::ext_equal]
pub struct SectionModel {
    pub name: Seq<char>,
    pub headers: Seq<Seq<char>>,
    pub rows: Seq<Seq<Seq<char>>>,
}

impl View for Section {
    type V = SectionModel;

    open spec fn view(&self) -> SectionModel {
        SectionModel {
            name: self.name@,
            headers: self.headers.deep_view(),
            rows: self.rows.deep_view(),
        }
    }
}

impl DeepView for Section {
    type V = SectionModel;

    open spec fn deep_view(&self) -> SectionModel {
        self@
    }
}

/// The parser's running state: the section being accumulated and the
/// sections already finished.
#[verifier::ext_equal]
pub struct ParseModel {
    pub cur: SectionModel,
    pub done: Seq<SectionModel>,
}

/// The section an unnamed parse starts with: no name, no headers, no rows.
pub open spec fn empty_section() -> SectionModel {
    SectionModel { name: Seq::empty(), headers: Seq::empty(), rows: Seq::empty() }
}

/// The state before any line has been read.
pub open spec fn initial_state() -> ParseModel {
    ParseModel { cur: empty_section(), done: Seq::empty() }
}

/// Right-pad a row with empty fields up to `h` entries; a row already
/// `h` long or longer is kept unchanged.
pub open spec fn pad_row(fields: Seq<Seq<char>>, h: nat) -> Seq<Seq<char>> {
    if fields.len() >= h {
        fields
    } else {
        fields + Seq::new((h - fields.len()) as nat, |k: int| Seq::<char>::empty())
    }
}

/// Does the trimmed line begin with the two-character tag `%` `tag`?
pub open spec fn has_tag(t: Seq<char>, tag: char) -> bool {
    t.len() >= 2 && t[0] == '%' && t[1] == tag
}

/// The remainder of a tag line after its two tag characters, trimmed.
pub open spec fn tag_rest(t: Seq<char>) -> Seq<char> {
    trimmed(t.skip(2))
}

/// One step of the tag-driven machine on one (untrimmed) input line.
pub open spec fn step_line(st: ParseModel, line: Seq<char>) -> ParseModel {
    let t = trimmed(line);
    if has_tag(t, 'T') {
        let done = if st.cur.name.len() > 0 {
            st.done.push(st.cur)
        } else {
            st.done
        };
        ParseModel {
            cur: SectionModel {
                name: tag_rest(t),
                headers: Seq::empty(),
                rows: Seq::empty(),
            },
            done,
        }
    } else if has_tag(t, 'F') {
        ParseModel {
            cur: SectionModel {
                name: st.cur.name,
                headers: split_at_seps(tag_rest(t), '\t'),
                rows: st.cur.rows,
            },
            done: st.done,
        }
    } else if has_tag(t, 'R') {
        let row = pad_row(split_at_seps(tag_rest(t), '\t'), st.cur.headers.len());
        ParseModel {
            cur: SectionModel {
                name: st.cur.name,
                headers: st.cur.headers,
                rows: st.cur.rows.push(row),
            },
            done: st.done,
        }
    } else {
        st
    }
}

/// The machine run over a sequence of lines from the initial state.
pub open spec fn run_lines(lines: Seq<Seq<char>>) -> ParseModel
    decreases lines.len(),
{
    if lines.len() == 0 {
        initial_state()
    } else {
        step_line(run_lines(lines.drop_last()), lines.last())
    }
}

/// All sections a sequence of lines yields: those finished at each later
/// `%T` tag, then the finally open section when its name is non-empty.
pub open spec fn sections_of_lines(lines: Seq<Seq<char>>) -> Seq<SectionModel> {
    let st = run_lines(lines);
    if st.cur.name.len() > 0 {
        st.done.push(st.cur)
    } else {
        st.done
    }
}

/// The sections of a whole decoded text.
pub open spec fn sections_of(text: Seq<char>) -> Seq<SectionModel> {
    sections_of_lines(line_seqs(text))
}

/// Copy the characters of `t` after its two tag characters and trim them.
fn tag_rest_chars(t: &Vec<char>) -> (r: Vec<char>)
    requires
        t@.len() >= 2,
    ensures
        r@ == tag_rest(t@),
{
    let mut tail: Vec<char> = Vec::new();
    let mut i: usize = 2;
    while i < t.len()
        invariant
            2 <= i <= t@.len(),
            tail@ == t@.subrange(2, i as int),
        decreases t@.len() - i,
    {
        tail.push(t[i]);
        assert(t@.subrange(2, i + 1) =~= t@.subrange(2, i as int).push(t@[i as int]));
        i += 1;
    }
    assert(tail@ =~= t@.skip(2));
    trim_chars(&tail)
}

/// Turn the pieces of a split line into owned strings.
fn strings_of(pieces: &Vec<Vec<char>>) -> (r: Vec<String>)
    ensures
        r.deep_view() == pieces.deep_view(),
{
    let mut r: Vec<String> = Vec::new();
    let mut i: usize = 0;
    while i < pieces.len()
        invariant
            i <= pieces@.len(),
            r.deep_view() =~= pieces.deep_view().take(i as int),
        decreases pieces@.len() - i,
    {
        let ghost old_r = r.deep_view();
        r.push(string_of(&pieces[i]));
        proof {
            assert(r.deep_view() =~~= old_r.push(pieces@[i as int]@));
            assert(old_r.push(pieces@[i as int]@) =~~= pieces.deep_view().take(i + 1));
        }
        i += 1;
    }
    assert(pieces.deep_view().take(pieces@.len() as int) =~= pieces.deep_view());
    r
}

/// Split the remainder of a `%F` or `%R` line at tabs, as owned strings.
fn split_fields(rest: &Vec<char>) -> (r: Vec<String>)
    ensures
        r.deep_view() == split_at_seps(rest@, '\t'),
{
    let pieces = split_char(rest, '\t');
    strings_of(&pieces)
}

/// Pad `row` with empty strings until it has at least `h` fields.
fn pad_fields(row: &mut Vec<String>, h: usize)
    ensures
        final(row).deep_view() == pad_row(old(row).deep_view(), h as nat),
{
    let ghost p = row.deep_view();
    if row.len() < h {
        let mut j = row.len();
        while j < h
            invariant
                p.len() <= j <= h,
                j == row@.len(),
                row.deep_view() =~= p + Seq::new((j - p.len()) as nat, |k: int| Seq::<char>::empty()),
            decreases h - j,
        {
            let ghost old_r = row.deep_view();
            row.push(String::new());
            proof {
                assert(row.deep_view() =~~= old_r.push(Seq::<char>::empty()));
                assert(old_r.push(Seq::<char>::empty()) =~= p + Seq::new(
                    (j + 1 - p.len()) as nat,
                    |k: int| Seq::<char>::empty(),
                ));
            }
            j += 1;
        }
    } else {
        assert(row.deep_view() =~= pad_row(p, h as nat));
    }
}

/// Parse a decoded XER text into its sections, in order of appearance.
pub fn parse_sections(content: &str) -> (sections: Vec<Section>)
    ensures
        sections.deep_view() == sections_of(content@),
{
    let cs = chars_of(content);
    let lines = split_lines(&cs);
    let ghost lmodel = lines.deep_view();
    let mut done: Vec<Section> = Vec::new();
    let mut name: String = String::new();
    let mut headers: Vec<String> = Vec::new();
    let mut rows: Vec<Vec<String>> = Vec::new();
    let mut i: usize = 0;
    proof {
        assert(lmodel.take(0) =~= Seq::<Seq<char>>::empty());
        assert(run_lines(lmodel.take(0)) =~~= ParseModel {
            cur: SectionModel {
                name: name@,
                headers: headers.deep_view(),
                rows: rows.deep_view(),
            },
            done: done.deep_view(),
        });
    }
    while i < lines.len()
        invariant
            i <= lines@.len(),
            lmodel == lines.deep_view(),
            lmodel == line_seqs(content@),
            run_lines(lmodel.take(i as int)) == (ParseModel {
                cur: SectionModel {
                    name: name@,
                    headers: headers.deep_view(),
                    rows: rows.deep_view(),
                },
                done: done.deep_view(),
            }),
        decreases lines@.len() - i,
    {
        let ghost prev = run_lines(lmodel.take(i as int));
        proof {
            lemma_run_take_next(lmodel, i as int);
        }
        let t = trim_chars(&lines[i]);
        proof {
            assert(lines@[i as int].deep_view() =~= lines@[i as int]@);
        }
        assert(t@ == trimmed(lmodel[i as int]));
        if t.len() >= 2 && t[0] == '%' && t[1] == 'T' {
            let rest = tag_rest_chars(&t);
            if !name.as_str().is_empty() {
                let ghost old_done = done.deep_view();
                let ghost cur = prev.cur;
                done.push(Section { name, headers, rows });
                assert(done.deep_view() =~~= old_done.push(cur));
            }
            name = string_of(&rest);
            headers = Vec::new();
            rows = Vec::new();
            proof {
                assert(headers.deep_view() =~= Seq::<Seq<char>>::empty());
                assert(rows.deep_view() =~= Seq::<Seq<Seq<char>>>::empty());
                assert(run_lines(lmodel.take(i + 1)) =~~= ParseModel {
                    cur: SectionModel {
                        name: name@,
                        headers: headers.deep_view(),
                        rows: rows.deep_view(),
                    },
                    done: done.deep_view(),
                });
            }
        } else if t.len() >= 2 && t[0] == '%' && t[1] == 'F' {
            let rest = tag_rest_chars(&t);
            headers = split_fields(&rest);
            proof {
                assert(run_lines(lmodel.take(i + 1)) =~~= ParseModel {
                    cur: SectionModel {
                        name: name@,
                        headers: headers.deep_view(),
                        rows: rows.deep_view(),
                    },
                    done: done.deep_view(),
                });
            }
        } else if t.len() >= 2 && t[0] == '%' && t[1] == 'R' {
            let rest = tag_rest_chars(&t);
            let mut row = split_fields(&rest);
            pad_fields(&mut row, headers.len());
            let ghost old_rows = rows.deep_view();
            let ghost rmodel = row.deep_view();
            rows.push(row);
            proof {
                assert(rows.deep_view() =~~= old_rows.push(rmodel));
                assert(run_lines(lmodel.take(i + 1)) =~~= ParseModel {
                    cur: SectionModel {
                        name: name@,
                        headers: headers.deep_view(),
                        rows: rows.deep_view(),
                    },
                    done: done.deep_view(),
                });
            }
        } else {
            proof {
                assert(run_lines(lmodel.take(i + 1)) =~~= prev);
            }
        }
        i += 1;
    }
    proof {
        assert(lmodel.take(lmodel.len() as int) =~= lmodel);
    }
    if !name.as_str().is_empty() {
        let ghost old_done = done.deep_view();
        let ghost cur = run_lines(lmodel).cur;
        done.push(Section { name, headers, rows });
        assert(done.deep_view() =~~= old_done.push(cur));
    }
    done
}

/// Running one more line steps the machine by that line.
proof fn lemma_run_take_next(lines: Seq<Seq<char>>, i: int)
    requires
        0 <= i < lines.len(),
    ensures
        run_lines(lines.take(i + 1)) == step_line(run_lines(lines.take(i)), lines[i]),
{
    let l1 = lines.take(i + 1);
    assert(l1.drop_last() =~= lines.take(i));
    assert(l1.last() == lines[i]);
    assert(l1.len() == i + 1);
}

/// Is the line, once trimmed, a `%T` tag whose section name is non-empty?
pub open spec fn is_named_tag_line(line: Seq<char>) -> bool {
    has_tag(trimmed(line), 'T') && tag_rest(trimmed(line)).len() > 0
}

/// How many lines open a section with a non-empty name.
pub open spec fn named_tag_count(lines: Seq<Seq<char>>) -> nat
    decreases lines.len(),
{
    if lines.len() == 0 {
        0
    } else {
        named_tag_count(lines.drop_last()) + if is_named_tag_line(lines.last()) {
            1nat
        } else {
            0nat
        }
    }
}

proof fn lemma_run_count(lines: Seq<Seq<char>>)
    ensures
        run_lines(lines).done.len() + (if run_lines(lines).cur.name.len() > 0 {
            1nat
        } else {
            0nat
        }) == named_tag_count(lines),
        forall|j: int|
            0 <= j < run_lines(lines).done.len() ==> (#[trigger] run_lines(
                lines,
            ).done[j]).name.len() > 0,
    decreases lines.len(),
{
    if lines.len() > 0 {
        lemma_run_count(lines.drop_last());
    }
}

/// The parser yields exactly one section per `%T` line whose name is
/// non-empty, and every section it yields bears a non-empty name; a
/// leading unnamed section is dropped.
pub proof fn lemma_section_count(lines: Seq<Seq<char>>)
    ensures
        sections_of_lines(lines).len() == named_tag_count(lines),
        forall|j: int|
            0 <= j < sections_of_lines(lines).len() ==> (#[trigger] sections_of_lines(
                lines,
            )[j]).name.len() > 0,
{
    lemma_run_count(lines);
}

/// Lines holding no `%T` tag at all yield no section.
pub proof fn lemma_no_tags_no_sections(lines: Seq<Seq<char>>)
    requires
        forall|j: int| 0 <= j < lines.len() ==> !has_tag(trimmed(#[trigger] lines[j]), 'T'),
    ensures
        sections_of_lines(lines) == Seq::<SectionModel>::empty(),
{
    lemma_count_zero(lines);
    lemma_section_count(lines);
    assert(sections_of_lines(lines) =~= Seq::<SectionModel>::empty());
}

proof fn lemma_count_zero(lines: Seq<Seq<char>>)
    requires
        forall|j: int| 0 <= j < lines.len() ==> !has_tag(trimmed(#[trigger] lines[j]), 'T'),
    ensures
        named_tag_count(lines) == 0,
    decreases lines.len(),
{
    if lines.len() > 0 {
        assert(forall|j: int|
            0 <= j < lines.drop_last().len() ==> #[trigger] lines.drop_last()[j] == lines[j]);
        lemma_count_zero(lines.drop_last());
        assert(!has_tag(trimmed(lines.last()), 'T'));
    }
}

/// What a `%R` line stores, in any state: the line's fields, padded with
/// empty fields up to the header count in effect at that moment.  A row
/// with fewer fields than headers is stored with exactly the header
/// count, its trailing fields empty; one with at least as many is stored
/// unchanged, keeping its larger field count.
pub proof fn lemma_stored_row(st: ParseModel, line: Seq<char>)
    requires
        has_tag(trimmed(line), 'R'),
    ensures
        ({
            let fields = split_at_seps(tag_rest(trimmed(line)), '\t');
            let h = st.cur.headers.len();
            let row = pad_row(fields, h);
            &&& step_line(st, line).cur.rows == st.cur.rows.push(row)
            &&& step_line(st, line).cur.headers == st.cur.headers
            &&& (fields.len() < h ==> row.len() == h && forall|k: int|
                fields.len() <= k < h ==> row[k].len() == 0)
            &&& (fields.len() < h ==> forall|k: int| 0 <= k < fields.len() ==> row[k] == fields[k])
            &&& (fields.len() >= h ==> row == fields)
        }),
{
    let fields = split_at_seps(tag_rest(trimmed(line)), '\t');
    let h = st.cur.headers.len();
    if fields.len() < h {
        lemma_pad_short(fields, h);
    } else {
        lemma_pad_long(fields, h);
    }
}

/// A row shorter than the headers is padded to exactly the header count:
/// its own fields are kept in place and every added field is empty.
pub proof fn lemma_pad_short(fields: Seq<Seq<char>>, h: nat)
    requires
        fields.len() < h,
    ensures
        pad_row(fields, h).len() == h,
        forall|k: int| 0 <= k < fields.len() ==> pad_row(fields, h)[k] == fields[k],
        forall|k: int| fields.len() <= k < h ==> pad_row(fields, h)[k].len() == 0,
{
}

/// A row with at least as many fields as there are headers is kept
/// unchanged, whatever its length.
pub proof fn lemma_pad_long(fields: Seq<Seq<char>>, h: nat)
    requires
        fields.len() >= h,
    ensures
        pad_row(fields, h) == fields,
{
}

} // verus!
