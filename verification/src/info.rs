//! The auxiliary information file: sections headed by bracketed lines,
//! each accumulating ordered `key=value1,value2,...` entries.

use vstd::prelude::*;

use crate::text::{
    find_char_clipped, lemma_find_char_unique, spec_split_char, spec_split_crlf, split_char,
    split_crlf, subvec, to_chars, chars_to_string,
};
use crate::ComtradeError;

verus! {

/// One `key=value1,value2,...` line, decoded.
#[derive(Debug, PartialEq, Eq)]
pub struct InfoEntry {
    /// The text left of the first `=`.
    pub key: String,
    /// The comma-separated pieces right of the first `=`, in file order.
    pub values: Vec<String>,
}

/// The mathematical content of an [`InfoEntry`].
pub struct InfoEntryView {
    pub key: Seq<char>,
    pub values: Seq<Seq<char>>,
}

impl View for InfoEntry {
    type V = InfoEntryView;

    open spec fn view(&self) -> InfoEntryView {
        InfoEntryView { key: self.key@, values: self.values.deep_view() }
    }
}

impl DeepView for InfoEntry {
    type V = InfoEntryView;

    open spec fn deep_view(&self) -> InfoEntryView {
        self.view()
    }
}

/// One section: its symbolic name and its entries in file order.
#[derive(Debug, PartialEq, Eq)]
pub struct InfoSection {
    /// The header text after the first space, brackets stripped and
    /// inner spaces replaced by underscores.
    pub name: String,
    /// The entry lines under this header, in file order.
    pub entries: Vec<InfoEntry>,
}

/// The mathematical content of an [`InfoSection`].
pub struct InfoSectionView {
    pub name: Seq<char>,
    pub entries: Seq<InfoEntryView>,
}

impl View for InfoSection {
    type V = InfoSectionView;

    open spec fn view(&self) -> InfoSectionView {
        InfoSectionView { name: self.name@, entries: self.entries.deep_view() }
    }
}

impl DeepView for InfoSection {
    type V = InfoSectionView;

    open spec fn deep_view(&self) -> InfoSectionView {
        self.view()
    }
}

// ---------------------------------------------------------------------
// The grammar, as spec functions
// ---------------------------------------------------------------------

/// The CRLF-delimited lines of `s` with blank lines discarded.
pub open spec fn nonempty_lines(s: Seq<char>) -> Seq<Seq<char>> {
    keep_nonempty(spec_split_crlf(s))
}

/// `lines` without its empty elements.
pub open spec fn keep_nonempty(lines: Seq<Seq<char>>) -> Seq<Seq<char>>
    decreases lines.len(),
{
    if lines.len() == 0 {
        Seq::empty()
    } else if lines.last().len() > 0 {
        keep_nonempty(lines.drop_last()).push(lines.last())
    } else {
        keep_nonempty(lines.drop_last())
    }
}

/// `s` with each space replaced by an underscore.
pub open spec fn underscored(s: Seq<char>) -> Seq<char> {
    s.map_values(|c: char| if c == ' ' { '_' } else { c })
}

/// What a section header line yields: the text after the first space of
/// the bracket-stripped header, spaces replaced by underscores. A line
/// that does not begin with `[` and end with `]`, and a header without
/// a space, are distinct errors.
pub open spec fn spec_parse_section_name(line: Seq<char>) -> Result<Seq<char>, ComtradeError> {
    if line.len() >= 2 && line[0] == '[' && line.last() == ']' {
        let body = line.subrange(1, line.len() - 1);
        let sp = find_char_clipped(body, ' ');
        if sp < body.len() {
            Ok(underscored(body.subrange(sp + 1, body.len() as int)))
        } else {
            Err(ComtradeError::InfoSectionMissingSpace)
        }
    } else {
        Err(ComtradeError::InfoSectionMissingBracket)
    }
}

/// What an entry line yields: the key left of the first `=` and the
/// comma-split values right of it.
pub open spec fn spec_parse_entry(line: Seq<char>) -> Result<InfoEntryView, ComtradeError> {
    let eq = find_char_clipped(line, '=');
    if eq < line.len() {
        Ok(
            InfoEntryView {
                key: line.subrange(0, eq),
                values: spec_split_char(line.subrange(eq + 1, line.len() as int), ','),
            },
        )
    } else {
        Err(ComtradeError::InfoEntryMissingEquals)
    }
}

/// A line that opens a new section.
pub open spec fn is_header_line(line: Seq<char>) -> bool {
    line.len() > 0 && line[0] == '['
}

/// Index of the first header line at or after `i`, or `lines.len()`.
pub open spec fn section_end(lines: Seq<Seq<char>>, i: int) -> int
    decreases lines.len() - i when 0 <= i <= lines.len()
{
    if i >= lines.len() {
        lines.len() as int
    } else if is_header_line(lines[i]) {
        i
    } else {
        section_end(lines, i + 1)
    }
}

/// `section_end`, clipped into `[i, lines.len()]`.
pub open spec fn section_end_clipped(lines: Seq<Seq<char>>, i: int) -> int {
    let e = section_end(lines, i);
    if i <= e <= lines.len() {
        e
    } else {
        lines.len() as int
    }
}

pub proof fn lemma_section_end(lines: Seq<Seq<char>>, i: int)
    requires
        0 <= i <= lines.len(),
    ensures
        i <= section_end(lines, i) <= lines.len(),
        section_end(lines, i) < lines.len() ==> is_header_line(lines[section_end(lines, i)]),
        forall|j: int| i <= j < section_end(lines, i) ==> !is_header_line(lines[j]),
    decreases lines.len() - i,
{
    if i < lines.len() && !is_header_line(lines[i]) {
        lemma_section_end(lines, i + 1);
    }
}

/// A non-header run ending at a header or at the end of input pins
/// `section_end` exactly.
pub proof fn lemma_section_end_unique(lines: Seq<Seq<char>>, i: int, k: int)
    requires
        0 <= i <= k <= lines.len(),
        forall|j: int| i <= j < k ==> !is_header_line(lines[j]),
        k < lines.len() ==> is_header_line(lines[k]),
    ensures
        section_end(lines, i) == k,
{
    lemma_section_end(lines, i);
    let f = section_end(lines, i);
    if f < k {
        assert(is_header_line(lines[f]));
        assert(!is_header_line(lines[f]));
    } else if k < f {
        assert(is_header_line(lines[k]));
        assert(!is_header_line(lines[k]));
    }
}

/// The entries of lines `start..end`, or the first error among them.
pub open spec fn spec_parse_entries(lines: Seq<Seq<char>>, start: int, end: int) -> Result<
    Seq<InfoEntryView>,
    ComtradeError,
>
    decreases end - start when 0 <= start <= end
{
    if start >= end {
        Ok(Seq::empty())
    } else {
        match spec_parse_entry(lines[start]) {
            Err(e) => Err(e),
            Ok(v) => match spec_parse_entries(lines, start + 1, end) {
                Err(e) => Err(e),
                Ok(rest) => Ok(seq![v] + rest),
            },
        }
    }
}

/// The sections of lines `cursor..`, or the first error among them.
pub open spec fn spec_parse_sections(lines: Seq<Seq<char>>, cursor: int) -> Result<
    Seq<InfoSectionView>,
    ComtradeError,
>
    decreases lines.len() - cursor when 0 <= cursor <= lines.len()
{
    if cursor >= lines.len() {
        Ok(Seq::empty())
    } else {
        match spec_parse_section_name(lines[cursor]) {
            Err(e) => Err(e),
            Ok(name) => {
                let end = section_end_clipped(lines, cursor + 1);
                match spec_parse_entries(lines, cursor + 1, end) {
                    Err(e) => Err(e),
                    Ok(entries) => match spec_parse_sections(lines, end) {
                        Err(e) => Err(e),
                        Ok(rest) => Ok(
                            seq![InfoSectionView { name, entries }] + rest,
                        ),
                    },
                }
            },
        }
    }
}

/// What decoding an information file yields.
pub open spec fn spec_parse_info(s: Seq<char>) -> Result<Seq<InfoSectionView>, ComtradeError> {
    spec_parse_sections(nonempty_lines(s), 0)
}

// ---------------------------------------------------------------------
// Lemmas threading the recursive grammar through iterative decoding
// ---------------------------------------------------------------------

/// Appending one good entry extends a good entry run.
proof fn lemma_entries_snoc(lines: Seq<Seq<char>>, start: int, cursor: int)
    requires
        0 <= start <= cursor < lines.len(),
        spec_parse_entries(lines, start, cursor) is Ok,
        spec_parse_entry(lines[cursor]) is Ok,
    ensures
        spec_parse_entries(lines, start, cursor + 1) == Ok::<_, ComtradeError>(
            spec_parse_entries(lines, start, cursor)->Ok_0.push(
                spec_parse_entry(lines[cursor])->Ok_0,
            ),
        ),
    decreases cursor - start,
{
    if start >= cursor {
        assert(spec_parse_entries(lines, start, cursor) == Ok::<_, ComtradeError>(
            Seq::<InfoEntryView>::empty(),
        ));
        assert(spec_parse_entries(lines, start + 1, cursor + 1) == Ok::<_, ComtradeError>(
            Seq::<InfoEntryView>::empty(),
        ));
        assert(seq![spec_parse_entry(lines[cursor])->Ok_0]
            + Seq::<InfoEntryView>::empty() =~= Seq::<InfoEntryView>::empty().push(
            spec_parse_entry(lines[cursor])->Ok_0,
        ));
    } else {
        lemma_entries_snoc(lines, start + 1, cursor);
        let v = spec_parse_entry(lines[start])->Ok_0;
        let rest = spec_parse_entries(lines, start + 1, cursor)->Ok_0;
        let w = spec_parse_entry(lines[cursor])->Ok_0;
        assert(seq![v] + rest.push(w) =~= (seq![v] + rest).push(w));
    }
}

/// One bad entry poisons every longer run that starts the same way.
proof fn lemma_entries_err(lines: Seq<Seq<char>>, start: int, cursor: int, end: int)
    requires
        0 <= start <= cursor < end <= lines.len(),
        spec_parse_entries(lines, start, cursor) is Ok,
        spec_parse_entry(lines[cursor]) is Err,
    ensures
        spec_parse_entries(lines, start, end) == Err::<Seq<InfoEntryView>, _>(
            spec_parse_entry(lines[cursor])->Err_0,
        ),
    decreases cursor - start,
{
    if start < cursor {
        lemma_entries_err(lines, start + 1, cursor, end);
    }
}

// ---------------------------------------------------------------------
// The decoder
// ---------------------------------------------------------------------

/// Splits `v` into CRLF lines and discards the blank ones.
fn split_nonempty_lines(v: &Vec<char>) -> (r: Vec<Vec<char>>)
    ensures
        r.deep_view() == nonempty_lines(v@),
{
    let lines = split_crlf(v);
    let mut r: Vec<Vec<char>> = Vec::new();
    let n = lines.len();
    let mut i: usize = 0;
    proof {
        assert(r.deep_view() =~= keep_nonempty(lines.deep_view().take(0)));
    }
    while i < n
        invariant
            i <= n,
            n == lines@.len(),
            lines.deep_view().len() == n,
            lines.deep_view() == spec_split_crlf(v@),
            r.deep_view() == keep_nonempty(lines.deep_view().take(i as int)),
        decreases n - i,
    {
        let ghost ld = lines.deep_view();
        proof {
            assert(ld.take(i + 1).drop_last() =~= ld.take(i as int));
            assert(ld.take(i + 1).last() == ld[i as int]);
            assert(ld[i as int] == lines@[i as int]@);
        }
        let line = &lines[i];
        if line.len() > 0 {
            let ghost prev = r.deep_view();
            let piece = subvec(line, 0, line.len());
            proof {
                assert(piece@ =~= lines@[i as int]@);
            }
            r.push(piece);
            proof {
                assert(piece.deep_view() =~= piece@);
                assert(r.deep_view() =~= prev.push(piece@));
            }
        }
        i = i + 1;
    }
    proof {
        assert(lines.deep_view().take(n as int) =~= lines.deep_view());
    }
    r
}

/// Decodes one section header line.
fn parse_section_name(line: &Vec<char>) -> (r: Result<Vec<char>, ComtradeError>)
    ensures
        match r {
            Ok(name) => spec_parse_section_name(line@) == Ok::<Seq<char>, ComtradeError>(name@),
            Err(e) => spec_parse_section_name(line@) == Err::<Seq<char>, ComtradeError>(e),
        },
{
    let n = line.len();
    if n < 2 || line[0] != '[' || line[n - 1] != ']' {
        return Err(ComtradeError::InfoSectionMissingBracket);
    }
    let ghost body = line@.subrange(1, n - 1);
    // find the first space of the bracket-stripped header
    let mut k: usize = 1;
    while k < n - 1 && line[k] != ' '
        invariant
            1 <= k <= n - 1,
            n == line@.len(),
            n >= 2,
            forall|j: int| 1 <= j < k ==> line@[j] != ' ',
        decreases n - k,
    {
        k = k + 1;
    }
    proof {
        assert forall|j: int| 0 <= j < k - 1 implies body[j] != ' ' by {
            assert(body[j] == line@[j + 1]);
        }
        if k < n - 1 {
            assert(body[k - 1] == line@[k as int]);
        }
        lemma_find_char_unique(body, ' ', k - 1);
    }
    if k == n - 1 {
        return Err(ComtradeError::InfoSectionMissingSpace);
    }
    // replace spaces with underscores in the part after the space
    let mut name: Vec<char> = Vec::new();
    let ghost tail = body.subrange(k as int, body.len() as int);
    proof {
        assert(tail =~= line@.subrange(k + 1, n - 1));
        assert(name@ =~= underscored(tail.take(0)));
    }
    let mut i: usize = k + 1;
    while i < n - 1
        invariant
            k + 1 <= i <= n - 1,
            n == line@.len(),
            n >= 2,
            tail == line@.subrange(k + 1, n - 1),
            name@ == underscored(tail.take(i - k - 1)),
        decreases n - i,
    {
        let c = line[i];
        proof {
            assert(tail.take(i - k) =~= tail.take(i - k - 1).push(line@[i as int]));
            assert(underscored(tail.take(i - k)) =~= underscored(tail.take(i - k - 1)).push(
                if line@[i as int] == ' ' {
                    '_'
                } else {
                    line@[i as int]
                },
            ));
        }
        if c == ' ' {
            name.push('_');
        } else {
            name.push(c);
        }
        i = i + 1;
    }
    proof {
        assert(tail.take(tail.len() as int) =~= tail);
        assert(tail =~= body.subrange(k - 1 + 1, body.len() as int));
    }
    Ok(name)
}

/// Decodes one `key=values` entry line.
fn parse_entry(line: &Vec<char>) -> (r: Result<InfoEntry, ComtradeError>)
    ensures
        match r {
            Ok(entry) => spec_parse_entry(line@) == Ok::<InfoEntryView, ComtradeError>(entry@),
            Err(e) => spec_parse_entry(line@) == Err::<InfoEntryView, ComtradeError>(e),
        },
{
    let n = line.len();
    let mut k: usize = 0;
    while k < n && line[k] != '='
        invariant
            k <= n,
            n == line@.len(),
            forall|j: int| 0 <= j < k ==> line@[j] != '=',
        decreases n - k,
    {
        k = k + 1;
    }
    proof {
        lemma_find_char_unique(line@, '=', k as int);
    }
    if k == n {
        return Err(ComtradeError::InfoEntryMissingEquals);
    }
    let key_chars = subvec(line, 0, k);
    let key = chars_to_string(&key_chars);
    let rhs = subvec(line, k + 1, n);
    let pieces = split_char(&rhs, ',');
    let mut values: Vec<String> = Vec::new();
    let m = pieces.len();
    let mut i: usize = 0;
    while i < m
        invariant
            i <= m,
            m == pieces@.len(),
            values.deep_view() == pieces.deep_view().take(i as int),
        decreases m - i,
    {
        let ghost prev = values.deep_view();
        let s = chars_to_string(&pieces[i]);
        values.push(s);
        proof {
            assert(values.deep_view() =~= prev.push(s@));
            assert(pieces.deep_view().take(i + 1) =~= pieces.deep_view().take(i as int).push(
                pieces.deep_view()[i as int],
            ));
            assert(pieces.deep_view()[i as int] == pieces@[i as int]@);
            assert(s@ =~= pieces@[i as int]@);
        }
        i = i + 1;
    }
    proof {
        assert(pieces.deep_view().take(m as int) =~= pieces.deep_view());
        assert(rhs@ =~= line@.subrange(k + 1, n as int));
    }
    Ok(InfoEntry { key, values })
}

/// Decodes the information file: sections in file order, each with its
/// entries in file order, or the single error that stopped the parse.
pub fn deserialize_comtrade_info(input: &str) -> (r: Result<Vec<InfoSection>, ComtradeError>)
    ensures
        match r {
            Ok(sections) => spec_parse_info(input@) == Ok::<_, ComtradeError>(
                sections.deep_view(),
            ),
            Err(e) => spec_parse_info(input@) == Err::<Seq<InfoSectionView>, _>(e),
        },
{
    let chars = to_chars(input);
    let lines = split_nonempty_lines(&chars);
    let ghost ld = lines.deep_view();
    let n = lines.len();
    let mut sections: Vec<InfoSection> = Vec::new();
    let mut cursor: usize = 0;
    proof {
        assert(ld.len() == n);
    }
    while cursor < n
        invariant
            cursor <= n,
            n == lines@.len(),
            ld == lines.deep_view(),
            ld == nonempty_lines(chars@),
            chars@ == input@,
            ld.len() == n,
            spec_parse_sections(ld, cursor as int) is Ok ==> spec_parse_sections(ld, 0)
                == Ok::<_, ComtradeError>(
                sections.deep_view() + spec_parse_sections(ld, cursor as int)->Ok_0,
            ),
            forall|e: ComtradeError|
                spec_parse_sections(ld, cursor as int) == Err::<Seq<InfoSectionView>, _>(e)
                    ==> spec_parse_sections(ld, 0) == Err::<Seq<InfoSectionView>, _>(e),
        decreases n - cursor,
    {
        let ghost cur0 = cursor as int;
        proof {
            assert(ld[cur0] == lines@[cur0]@);
        }
        let name_chars = match parse_section_name(&lines[cursor]) {
            Ok(nc) => nc,
            Err(e) => {
                proof {
                    assert(spec_parse_sections(ld, cur0) == Err::<Seq<InfoSectionView>, _>(e));
                }
                return Err(e);
            },
        };
        let name = chars_to_string(&name_chars);
        cursor = cursor + 1;
        let ghost start = cursor as int;
        let mut entries: Vec<InfoEntry> = Vec::new();
        proof {
            assert(entries.deep_view() =~= Seq::<InfoEntryView>::empty());
        }
        while cursor < n && !(lines[cursor].len() > 0 && lines[cursor][0] == '[')
            invariant
                1 <= start <= cursor as int <= n,
                n == lines@.len(),
                ld == lines.deep_view(),
                ld.len() == n,
                ld == nonempty_lines(chars@),
                chars@ == input@,
                spec_parse_section_name(ld[start - 1]) == Ok::<Seq<char>, ComtradeError>(
                    name_chars@,
                ),
                forall|j: int| start <= j < cursor as int ==> !is_header_line(ld[j]),
                spec_parse_entries(ld, start, cursor as int) == Ok::<_, ComtradeError>(
                    entries.deep_view(),
                ),
                forall|e: ComtradeError|
                    spec_parse_sections(ld, start - 1) == Err::<Seq<InfoSectionView>, _>(e)
                        ==> spec_parse_sections(ld, 0) == Err::<Seq<InfoSectionView>, _>(e),
            decreases n - cursor,
        {
            proof {
                assert(ld[cursor as int] == lines@[cursor as int]@);
            }
            let entry = match parse_entry(&lines[cursor]) {
                Ok(v) => v,
                Err(e) => {
                    proof {
                        lemma_section_end(ld, start);
                        lemma_section_end_unique_ge(ld, start, cursor as int);
                        let end = section_end_clipped(ld, start);
                        lemma_entries_err(ld, start, cursor as int, end);
                        assert(spec_parse_sections(ld, start - 1) == Err::<
                            Seq<InfoSectionView>,
                            _,
                        >(e));
                    }
                    return Err(e);
                },
            };
            let ghost prev = entries.deep_view();
            proof {
                lemma_entries_snoc(ld, start, cursor as int);
            }
            entries.push(entry);
            proof {
                assert(entries.deep_view() =~= prev.push(entry@));
            }
            cursor = cursor + 1;
        }
        proof {
            if cursor < n {
                assert(ld[cursor as int] == lines@[cursor as int]@);
                assert(is_header_line(ld[cursor as int]));
            }
            lemma_section_end_unique(ld, start, cursor as int);
        }
        let ghost prev_sections = sections.deep_view();
        let ghost entries_view = entries.deep_view();
        let section = InfoSection { name, entries };
        proof {
            assert(section@.name == name_chars@);
            assert(section@.entries == entries_view);
        }
        sections.push(section);
        proof {
            assert(sections.deep_view() =~= prev_sections.push(section@));
            assert(ld[cur0] == lines@[cur0]@);
            assert(start == cur0 + 1);
            assert(section_end_clipped(ld, cur0 + 1) == cursor as int);
            let after = spec_parse_sections(ld, cursor as int);
            match after {
                Ok(rest) => {
                    assert(spec_parse_sections(ld, cur0) == Ok::<_, ComtradeError>(
                        seq![section@] + rest,
                    ));
                    assert(prev_sections + (seq![section@] + rest) =~= prev_sections.push(
                        section@,
                    ) + rest);
                },
                Err(e) => {
                    assert(spec_parse_sections(ld, cur0) == Err::<Seq<InfoSectionView>, _>(e));
                },
            }
        }
    }
    proof {
        assert(spec_parse_sections(ld, n as int) == Ok::<_, ComtradeError>(
            Seq::<InfoSectionView>::empty(),
        ));
        assert(sections.deep_view() + Seq::<InfoSectionView>::empty() =~= sections.deep_view());
    }
    Ok(sections)
}

/// Positions before a scanned non-header run keep `section_end` at or
/// past the scan point.
proof fn lemma_section_end_unique_ge(lines: Seq<Seq<char>>, start: int, cursor: int)
    requires
        0 <= start <= cursor < lines.len(),
        forall|j: int| start <= j < cursor ==> !is_header_line(lines[j]),
        !is_header_line(lines[cursor]),
    ensures
        section_end_clipped(lines, start) > cursor,
    decreases lines.len() - start,
{
    lemma_section_end(lines, start);
    let f = section_end(lines, start);
    if f <= cursor {
        assert(f < lines.len());
        assert(is_header_line(lines[f]));
        if f < cursor {
            assert(!is_header_line(lines[f]));
        }
    }
}

} // verus!
