//! The header engine: rendering a license template into a per-file-type
//! comment block, matching a file's leading bytes against that block with
//! line-ending tolerance and shebang skipping, and computing the exact new
//! contents for adding the block to or removing it from a file.

use crate::bytes::{
    all_space, all_space_bytes, copy_bytes, dec_bytes, dec_spec, lemma_seqs_view_len,
    lemma_seqs_view_push, lemma_split_nonempty, push_all, push_range, replace_bytes, replace_spec,
    seqs_view, split_bytes, split_spec, trim_bytes, trim_end_bytes, trim_end_spec, trim_spec,
};
use crate::config::{table_get, table_map, entries_view, FileTypeConfig, FileTypeConfigV};
use vstd::prelude::*;

verus! {

/// The placeholder `%FILENAME%`, replaced by the target file's name.
pub open spec fn filename_placeholder() -> Seq<u8> {
    seq![37u8, 70u8, 73u8, 76u8, 69u8, 78u8, 65u8, 77u8, 69u8, 37u8]
}

/// The placeholder `%YEAR%`, replaced by the current year in decimal.
pub open spec fn year_placeholder() -> Seq<u8> {
    seq![37u8, 89u8, 69u8, 65u8, 82u8, 37u8]
}

fn filename_placeholder_bytes() -> (r: Vec<u8>)
    ensures
        r@ == filename_placeholder(),
{
    let mut r: Vec<u8> = Vec::new();
    r.push(37);
    r.push(70);
    r.push(73);
    r.push(76);
    r.push(69);
    r.push(78);
    r.push(65);
    r.push(77);
    r.push(69);
    r.push(37);
    proof {
        assert(r@ =~= filename_placeholder());
    }
    r
}

fn year_placeholder_bytes() -> (r: Vec<u8>)
    ensures
        r@ == year_placeholder(),
{
    let mut r: Vec<u8> = Vec::new();
    r.push(37);
    r.push(89);
    r.push(69);
    r.push(65);
    r.push(82);
    r.push(37);
    proof {
        assert(r@ =~= year_placeholder());
    }
    r
}

/// A template text with both placeholders substituted: every `%FILENAME%`
/// replaced by the file's name, then every `%YEAR%` by the year in decimal.
pub open spec fn formatted_spec(raw: Seq<u8>, file_name: Seq<u8>, year: nat) -> Seq<u8> {
    replace_spec(replace_spec(raw, filename_placeholder(), file_name), year_placeholder(), dec_spec(year))
}

/// Each line substituted independently, in order.
pub open spec fn formatted_lines_spec(lines: Seq<Seq<u8>>, file_name: Seq<u8>, year: nat) -> Seq<
    Seq<u8>,
> {
    Seq::new(lines.len(), |i: int| formatted_spec(lines[i], file_name, year))
}

/// One template line rendered under a rule: the per-line prefix is prepended
/// (for a blank line, the prefix-suffix pair stands alone) and trailing
/// whitespace is trimmed so pure markers never dangle.
pub open spec fn render_line_spec(line: Seq<u8>, cfg: FileTypeConfigV) -> Seq<u8> {
    if all_space(line) {
        trim_end_spec(cfg.before_line + cfg.after_line)
    } else {
        trim_end_spec(cfg.before_line + line)
    }
}

/// All rendered lines joined with single line feeds.
pub open spec fn joined_lines_spec(lines: Seq<Seq<u8>>, cfg: FileTypeConfigV) -> Seq<u8>
    decreases lines.len(),
{
    if lines.len() == 0 {
        Seq::empty()
    } else if lines.len() == 1 {
        render_line_spec(lines[0], cfg)
    } else {
        joined_lines_spec(lines.drop_last(), cfg) + seq![10u8] + render_line_spec(
            lines.last(),
            cfg,
        )
    }
}

/// The full header block: the optional block opener on its own line, the
/// joined rendered lines, and the optional block closer on its own line.
pub open spec fn header_text_spec(lines: Seq<Seq<u8>>, cfg: FileTypeConfigV) -> Seq<u8> {
    (if cfg.before_block.len() > 0 {
        cfg.before_block + seq![10u8]
    } else {
        Seq::<u8>::empty()
    }) + joined_lines_spec(lines, cfg) + (if cfg.after_block.len() > 0 {
        seq![10u8] + cfg.after_block
    } else {
        Seq::<u8>::empty()
    })
}

/// Could not read the license template file.
#[derive(Debug, PartialEq, Eq, Structural, Clone, Copy)]
pub enum ReadLicenseErr {
    FileReadErr,
}

/// The raw license template, read once per run and trimmed of surrounding
/// whitespace.
#[derive(Debug)]
pub struct License {
    pub raw_text: Vec<u8>,
}

impl View for License {
    type V = Seq<u8>;

    open spec fn view(&self) -> Seq<u8> {
        self.raw_text@
    }
}

impl License {
    /// A license whose template is `text` trimmed of leading and trailing
    /// ASCII whitespace, as the template file's content is on reading.
    pub fn new(text: &Vec<u8>) -> (r: Self)
        ensures
            r@ == trim_spec(text@),
    {
        License { raw_text: trim_bytes(text) }
    }

    /// Substitutes both placeholders in one template text.
    pub fn get_formatted(raw_text: &Vec<u8>, file_name: &Vec<u8>, year: u32) -> (r: Vec<u8>)
        ensures
            r@ == formatted_spec(raw_text@, file_name@, year as nat),
    {
        let fname_pat = filename_placeholder_bytes();
        let with_name = replace_bytes(raw_text, &fname_pat, file_name);
        let year_pat = year_placeholder_bytes();
        let year_dec = dec_bytes(year);
        replace_bytes(&with_name, &year_pat, &year_dec)
    }

    /// Substitutes both placeholders in every line.
    pub fn get_formatted_lines(lines: &Vec<Vec<u8>>, file_name: &Vec<u8>, year: u32) -> (r: Vec<
        Vec<u8>,
    >)
        ensures
            seqs_view(r@) == formatted_lines_spec(seqs_view(lines@), file_name@, year as nat),
    {
        broadcast use lemma_seqs_view_len, lemma_seqs_view_push;

        let mut r: Vec<Vec<u8>> = Vec::new();
        let mut i: usize = 0;
        while i < lines.len()
            invariant
                i <= lines.len(),
                seqs_view(r@) =~= formatted_lines_spec(seqs_view(lines@), file_name@, year as nat)
                    .take(i as int),
            decreases lines.len() - i,
        {
            r.push(License::get_formatted(&lines[i], file_name, year));
            proof {
                assert(formatted_lines_spec(seqs_view(lines@), file_name@, year as nat).take(i + 1)
                    =~= formatted_lines_spec(seqs_view(lines@), file_name@, year as nat).take(
                    i as int,
                ).push(formatted_spec(seqs_view(lines@)[i as int], file_name@, year as nat)));
                assert(seqs_view(lines@)[i as int] == lines@[i as int]@);
            }
            i = i + 1;
        }
        proof {
            assert(seqs_view(r@) =~= formatted_lines_spec(
                seqs_view(lines@),
                file_name@,
                year as nat,
            ));
        }
        r
    }

    /// The template's lines: the raw text split on line feeds.
    pub fn get_lines(&self) -> (r: Vec<Vec<u8>>)
        ensures
            seqs_view(r@) == split_spec(self@, 10),
    {
        split_bytes(&self.raw_text, 10)
    }

    /// Renders the formatted lines into the comment block that `cfg`
    /// prescribes.
    pub fn get_header_text(lines: &Vec<Vec<u8>>, cfg: &FileTypeConfig) -> (r: Vec<u8>)
        ensures
            r@ == header_text_spec(seqs_view(lines@), cfg@),
    {
        broadcast use lemma_seqs_view_len;

        let mut text: Vec<u8> = Vec::new();
        if cfg.before_block.len() > 0 {
            push_all(&mut text, &cfg.before_block);
            text.push(10);
        }
        let ghost pre = text@;
        proof {
            assert(pre == if cfg@.before_block.len() > 0 {
                cfg@.before_block + seq![10u8]
            } else {
                Seq::<u8>::empty()
            });
        }
        let mut k: usize = 0;
        while k < lines.len()
            invariant
                k <= lines.len(),
                pre == if cfg@.before_block.len() > 0 {
                    cfg@.before_block + seq![10u8]
                } else {
                    Seq::<u8>::empty()
                },
                text@ =~= pre + joined_lines_spec(seqs_view(lines@).take(k as int), cfg@),
            decreases lines.len() - k,
        {
            if k > 0 {
                text.push(10);
            }
            let line = &lines[k];
            let mut combined = copy_bytes(&cfg.before_line);
            if all_space_bytes(line) {
                push_all(&mut combined, &cfg.after_line);
            } else {
                push_all(&mut combined, line);
            }
            let rendered = trim_end_bytes(&combined);
            push_all(&mut text, &rendered);
            proof {
                let lv = seqs_view(lines@);
                assert(lv[k as int] == lines@[k as int]@);
                assert(rendered@ == render_line_spec(lv[k as int], cfg@));
                assert(lv.take(k + 1).drop_last() =~= lv.take(k as int));
                assert(lv.take(k + 1).last() == lv[k as int]);
                if k == 0 {
                    assert(joined_lines_spec(lv.take(1), cfg@) == render_line_spec(
                        lv[0],
                        cfg@,
                    ));
                    assert(text@ =~= pre + joined_lines_spec(lv.take(k + 1), cfg@));
                } else {
                    assert(joined_lines_spec(lv.take(k + 1), cfg@) == joined_lines_spec(
                        lv.take(k as int),
                        cfg@,
                    ) + seq![10u8] + render_line_spec(lv[k as int], cfg@));
                    assert(text@ =~= pre + joined_lines_spec(lv.take(k + 1), cfg@));
                }
            }
            k = k + 1;
        }
        proof {
            assert(seqs_view(lines@).take(seqs_view(lines@).len() as int) =~= seqs_view(lines@));
        }
        if cfg.after_block.len() > 0 {
            text.push(10);
            push_all(&mut text, &cfg.after_block);
        }
        proof {
            assert(text@ =~= header_text_spec(seqs_view(lines@), cfg@));
        }
        text
    }
}

/// The file begins with a shebang marker `#!`.
pub open spec fn starts_shebang(f: Seq<u8>) -> bool {
    f.len() >= 2 && f[0] == 35 && f[1] == 33
}

/// Position just past the first line feed at or after `j`, or the end of `f`
/// when no line feed follows.
pub open spec fn line_end(f: Seq<u8>, j: int) -> int
    decreases f.len() - j,
    when 0 <= j <= f.len()
{
    if j >= f.len() {
        j
    } else if f[j] == 10 {
        j + 1
    } else {
        line_end(f, j + 1)
    }
}

pub proof fn lemma_line_end_bounds(f: Seq<u8>, j: int)
    requires
        0 <= j <= f.len(),
    ensures
        j <= line_end(f, j) <= f.len(),
        forall|d: int| j <= d < line_end(f, j) - 1 ==> f[d] != 10,
        line_end(f, j) < f.len() ==> line_end(f, j) > j && f[line_end(f, j) - 1] == 10,
    decreases f.len() - j,
{
    if j < f.len() && f[j] != 10 {
        lemma_line_end_bounds(f, j + 1);
    }
}

/// Number of leading bytes the matcher skips: the whole first line when
/// shebang skipping applies and the file starts with `#!`, else none.
pub open spec fn shebang_len(f: Seq<u8>, skip: bool) -> int {
    if skip && starts_shebang(f) {
        line_end(f, 0)
    } else {
        0
    }
}

/// The two-cursor comparison of header bytes against file bytes.  Equal bytes
/// advance both cursors; where one side has a line feed and the other a
/// carriage return, the CRLF pair and the lone line feed are stepped over
/// together, so headers and files may disagree on line-ending style at every
/// line boundary.  Returns the file position just past the matched header, or
/// nothing on a mismatch or when the file runs out first.
pub open spec fn match_at(h: Seq<u8>, f: Seq<u8>, i: int, j: int) -> Option<int>
    decreases h.len() - i,
    when 0 <= i <= h.len() && 0 <= j
{
    if i >= h.len() {
        Some(j)
    } else if j >= f.len() {
        None
    } else if h[i] == f[j] {
        match_at(h, f, i + 1, j + 1)
    } else if h[i] == 10 && f[j] == 13 {
        if j + 1 < f.len() && f[j + 1] == 10 {
            match_at(h, f, i + 1, j + 2)
        } else {
            match_at(h, f, i + 1, j + 1)
        }
    } else if h[i] == 13 && f[j] == 10 {
        if i + 1 < h.len() && h[i + 1] == 10 {
            match_at(h, f, i + 2, j + 1)
        } else {
            match_at(h, f, i + 1, j + 1)
        }
    } else {
        None
    }
}

/// Position just past the run of line-terminator bytes starting at `j`.
pub open spec fn nl_run_end(f: Seq<u8>, j: int) -> int
    decreases f.len() - j,
    when 0 <= j <= f.len()
{
    if j < f.len() && (f[j] == 10 || f[j] == 13) {
        nl_run_end(f, j + 1)
    } else {
        j
    }
}

/// The matcher's overall verdict on a file: the byte range occupied by the
/// header — starting after a skipped shebang line and extending over the
/// trailing run of blank-line bytes — or nothing when the header is absent.
pub open spec fn match_spec(h: Seq<u8>, f: Seq<u8>, skip: bool) -> Option<(int, int)> {
    let hs = shebang_len(f, skip);
    match match_at(h, f, 0, hs) {
        Some(m) => Some((hs, nl_run_end(f, m))),
        None => None,
    }
}

/// Whether a file's leading bytes carry the header, and if so over which
/// byte range.
#[derive(Debug, PartialEq, Eq, Structural, Clone, Copy)]
pub enum MatchingHeaderResult {
    MatchingHeaderAt(usize, usize),
    NotMatching,
}

/// Decides whether `file` already carries `header` at its top, tolerating
/// CRLF-for-LF differences and an optional leading shebang line, and reports
/// the exact byte range a removal would delete.
pub fn file_has_matching_header(header: &Vec<u8>, file: &Vec<u8>, skip_shebang_line: bool) -> (r:
    MatchingHeaderResult)
    ensures
        match r {
            MatchingHeaderResult::MatchingHeaderAt(s, e) => {
                &&& match_spec(header@, file@, skip_shebang_line) == Some((s as int, e as int))
                &&& s <= e <= file@.len()
            },
            MatchingHeaderResult::NotMatching => match_spec(
                header@,
                file@,
                skip_shebang_line,
            ) is None,
        },
{
    let mut hs: usize = 0;
    if skip_shebang_line && file.len() >= 2 && file[0] == 35 && file[1] == 33 {
        while hs < file.len() && file[hs] != 10
            invariant
                hs <= file.len(),
                line_end(file@, 0) == line_end(file@, hs as int),
            decreases file.len() - hs,
        {
            hs = hs + 1;
        }
        if hs < file.len() {
            hs = hs + 1;
        }
        proof {
            assert(hs as int == shebang_len(file@, skip_shebang_line));
        }
    }
    let ghost hs0 = hs as int;
    proof {
        assert(hs0 == shebang_len(file@, skip_shebang_line));
    }
    let mut i: usize = 0;
    let mut j: usize = hs;
    while i < header.len()
        invariant
            i <= header.len(),
            hs <= j <= file.len(),
            hs as int == hs0,
            hs0 == shebang_len(file@, skip_shebang_line),
            match_at(header@, file@, 0, hs0) == match_at(header@, file@, i as int, j as int),
        decreases header.len() - i,
    {
        if j >= file.len() {
            return MatchingHeaderResult::NotMatching;
        }
        let hb = header[i];
        let fb = file[j];
        if hb == fb {
            i = i + 1;
            j = j + 1;
        } else if hb == 10 && fb == 13 {
            if j + 1 < file.len() && file[j + 1] == 10 {
                i = i + 1;
                j = j + 2;
            } else {
                i = i + 1;
                j = j + 1;
            }
        } else if hb == 13 && fb == 10 {
            if i + 1 < header.len() && header[i + 1] == 10 {
                i = i + 2;
                j = j + 1;
            } else {
                i = i + 1;
                j = j + 1;
            }
        } else {
            return MatchingHeaderResult::NotMatching;
        }
    }
    proof {
        assert(match_at(header@, file@, 0, hs0) == Some(j as int));
    }
    let mut e: usize = j;
    while e < file.len() && (file[e] == 10 || file[e] == 13)
        invariant
            hs <= j <= e <= file.len(),
            hs as int == hs0,
            hs0 == shebang_len(file@, skip_shebang_line),
            match_at(header@, file@, 0, hs0) == Some(j as int),
            nl_run_end(file@, j as int) == nl_run_end(file@, e as int),
        decreases file.len() - e,
    {
        e = e + 1;
    }
    proof {
        assert(nl_run_end(file@, j as int) == e as int);
    }
    MatchingHeaderResult::MatchingHeaderAt(hs, e)
}

/// The file content after inserting the header: the header plus a blank-line
/// separator goes at the very top, except that a detected shebang line stays
/// first and the header follows it — a shebang line without its own line feed
/// is given one so the header starts on a fresh line.
pub open spec fn added_content_spec(f: Seq<u8>, h: Seq<u8>, skip: bool) -> Seq<u8> {
    let ins = h + seq![10u8, 10u8];
    if skip && starts_shebang(f) {
        let k = line_end(f, 0);
        if k >= 1 && f[k - 1] == 10 {
            f.take(k) + ins + f.skip(k)
        } else {
            f.take(k) + seq![10u8] + ins + f.skip(k)
        }
    } else {
        ins + f
    }
}

/// The header was inserted, or the file already carried it.
#[derive(Debug, PartialEq, Eq, Structural, Clone, Copy)]
pub enum AddToFileResult {
    Added,
    NoChange,
}

/// The header was deleted, or the file never carried it.
#[derive(Debug, PartialEq, Eq, Structural, Clone, Copy)]
pub enum RemoveFromFileResult {
    Removed,
    NoChange,
}

/// Failure while adding a header: the file could not be read, or the rewritten
/// content could not be written back.
#[derive(Debug, PartialEq, Eq, Structural, Clone, Copy)]
pub enum AddToFileErr {
    ReadFileErr,
    WriteFileErr,
}

/// Failure while removing a header: the file could not be read, or the
/// rewritten content could not be written back.
#[derive(Debug, PartialEq, Eq, Structural, Clone, Copy)]
pub enum RemoveFromFileErr {
    ReadFileErr,
    WriteFileErr,
}

/// Outcome of `add_to_file` on given content: no change when the header
/// already matches, otherwise the content with the header inserted.
pub open spec fn add_spec(f: Seq<u8>, h: Seq<u8>, skip: bool) -> (AddToFileResult, Seq<u8>) {
    if match_spec(h, f, skip) is Some {
        (AddToFileResult::NoChange, f)
    } else {
        (AddToFileResult::Added, added_content_spec(f, h, skip))
    }
}

/// Outcome of `remove_from_file` on given content: no change when the header
/// is absent, otherwise the content with the matched byte range deleted.
pub open spec fn remove_spec(f: Seq<u8>, h: Seq<u8>, skip: bool) -> (RemoveFromFileResult, Seq<
    u8,
>) {
    match match_spec(h, f, skip) {
        Some((s, e)) => (RemoveFromFileResult::Removed, f.take(s) + f.skip(e)),
        None => (RemoveFromFileResult::NoChange, f),
    }
}

impl License {
    /// Whether the file content already carries the rendered header.
    pub fn check_file(
        file_text: &Vec<u8>,
        file_type_config: &FileTypeConfig,
        header_text: &Vec<u8>,
    ) -> (r: bool)
        ensures
            r == (match_spec(header_text@, file_text@, file_type_config@.skip_shebang_line)
                is Some),
    {
        let m = file_has_matching_header(header_text, file_text, file_type_config.skip_shebang_line);
        match m {
            MatchingHeaderResult::MatchingHeaderAt(_, _) => true,
            MatchingHeaderResult::NotMatching => false,
        }
    }

    /// The content the file should hold after an add: unchanged when the
    /// header already matches, else with the header inserted at the top,
    /// after a preserved shebang line where the rule skips one.
    pub fn add_to_file(
        file_text: &Vec<u8>,
        file_type_config: &FileTypeConfig,
        header_text: &Vec<u8>,
    ) -> (r: (AddToFileResult, Vec<u8>))
        ensures
            ({
                let sp = add_spec(
                    file_text@,
                    header_text@,
                    file_type_config@.skip_shebang_line,
                );
                r.0 == sp.0 && r.1@ == sp.1
            }),
    {
        let skip = file_type_config.skip_shebang_line;
        let m = file_has_matching_header(header_text, file_text, skip);
        if let MatchingHeaderResult::MatchingHeaderAt(_, _) = m {
            return (AddToFileResult::NoChange, copy_bytes(file_text));
        }
        let mut ins = copy_bytes(header_text);
        ins.push(10);
        ins.push(10);
        proof {
            assert(ins@ =~= header_text@ + seq![10u8, 10u8]);
        }
        if skip && file_text.len() >= 2 && file_text[0] == 35 && file_text[1] == 33 {
            let mut k: usize = 0;
            while k < file_text.len() && file_text[k] != 10
                invariant
                    k <= file_text.len(),
                    line_end(file_text@, 0) == line_end(file_text@, k as int),
                    forall|d: int| 0 <= d < k ==> file_text@[d] != 10,
                decreases file_text.len() - k,
            {
                k = k + 1;
            }
            let has_terminator = k < file_text.len();
            if has_terminator {
                k = k + 1;
            }
            proof {
                assert(k as int == line_end(file_text@, 0));
                assert(has_terminator ==> k >= 1 && file_text@[k - 1] == 10);
                assert(!has_terminator ==> k == file_text@.len());
            }
            let mut out: Vec<u8> = Vec::new();
            push_range(&mut out, file_text, 0, k);
            if !has_terminator {
                out.push(10);
                proof {
                    assert(out@ =~= file_text@.take(k as int) + seq![10u8]);
                }
            }
            push_all(&mut out, &ins);
            push_range(&mut out, file_text, k, file_text.len());
            proof {
                assert(file_text@.subrange(k as int, file_text@.len() as int) =~= file_text@.skip(
                    k as int,
                ));
                assert(file_text@.subrange(0, k as int) =~= file_text@.take(k as int));
                assert(out@ =~= added_content_spec(file_text@, header_text@, skip));
            }
            (AddToFileResult::Added, out)
        } else {
            let mut out = ins;
            push_all(&mut out, file_text);
            proof {
                assert(out@ =~= added_content_spec(file_text@, header_text@, skip));
            }
            (AddToFileResult::Added, out)
        }
    }

    /// The content the file should hold after a remove: unchanged when the
    /// header is absent, else with exactly the matched byte range deleted.
    pub fn remove_from_file(
        file_text: &Vec<u8>,
        file_type_config: &FileTypeConfig,
        header_text: &Vec<u8>,
    ) -> (r: (RemoveFromFileResult, Vec<u8>))
        ensures
            ({
                let sp = remove_spec(
                    file_text@,
                    header_text@,
                    file_type_config@.skip_shebang_line,
                );
                r.0 == sp.0 && r.1@ == sp.1
            }),
    {
        let skip = file_type_config.skip_shebang_line;
        let m = file_has_matching_header(header_text, file_text, skip);
        match m {
            MatchingHeaderResult::NotMatching => (
                RemoveFromFileResult::NoChange,
                copy_bytes(file_text),
            ),
            MatchingHeaderResult::MatchingHeaderAt(s, e) => {
                let mut out: Vec<u8> = Vec::new();
                push_range(&mut out, file_text, 0, s);
                push_range(&mut out, file_text, e, file_text.len());
                proof {
                    assert(out@ =~= file_text@.take(s as int) + file_text@.skip(e as int));
                }
                (RemoveFromFileResult::Removed, out)
            },
        }
    }
}

/// Everything the driver needs to process one discovered file: the formatted
/// template lines, the rendered header, and the rule that governs the file's
/// extension.
#[derive(Debug)]
pub struct FileData {
    pub formatted_license_lines: Vec<Vec<u8>>,
    pub header_text: Vec<u8>,
    pub file_type_config: FileTypeConfig,
}

/// The extension under which a file name is looked up: everything after the
/// last dot, or the whole name when it has no dot.
pub open spec fn ext_of(name: Seq<u8>) -> Seq<u8> {
    split_spec(name, 46).last()
}

/// The per-file decision of the synchronization driver: skipped when the
/// extension has no rule or its rule is disabled — a disabled rule means the
/// file is never rendered, matched or touched — otherwise the rendered header
/// and rule for the file.
pub fn plan_file(
    file_name: &Vec<u8>,
    license: &License,
    year: u32,
    filetype_map: &Vec<(Vec<u8>, FileTypeConfig)>,
) -> (r: Option<FileData>)
    ensures
        ({
            let tm = table_map(entries_view(filetype_map@));
            let ext = ext_of(file_name@);
            match r {
                None => !tm.contains_key(ext) || !tm[ext].enable,
                Some(d) => {
                    &&& tm.contains_key(ext)
                    &&& tm[ext].enable
                    &&& d.file_type_config@ == tm[ext]
                    &&& seqs_view(d.formatted_license_lines@) == formatted_lines_spec(
                        split_spec(license@, 10),
                        file_name@,
                        year as nat,
                    )
                    &&& d.header_text@ == header_text_spec(
                        formatted_lines_spec(split_spec(license@, 10), file_name@, year as nat),
                        tm[ext],
                    )
                },
            }
        }),
{
    broadcast use lemma_seqs_view_len;

    let pieces = split_bytes(file_name, 46);
    proof {
        lemma_split_nonempty(file_name@, 46);
    }
    let ext = &pieces[pieces.len() - 1];
    proof {
        assert(seqs_view(pieces@)[pieces@.len() - 1] == pieces@[pieces@.len() - 1]@);
        assert(ext@ == ext_of(file_name@));
    }
    let cfg = match table_get(filetype_map, ext) {
        Some(c) => c,
        None => {
            return None;
        },
    };
    if !cfg.enable {
        return None;
    }
    let raw_lines = license.get_lines();
    let formatted_license_lines = License::get_formatted_lines(&raw_lines, file_name, year);
    let header_text = License::get_header_text(&formatted_license_lines, cfg);
    Some(
        FileData {
            formatted_license_lines,
            header_text,
            file_type_config: cfg.clone(),
        },
    )
}

pub proof fn lemma_match_at_exact(h: Seq<u8>, f: Seq<u8>, i: int, j: int)
    requires
        0 <= i <= h.len(),
        0 <= j,
        j + (h.len() - i) <= f.len(),
        f.subrange(j, j + (h.len() - i)) == h.skip(i),
    ensures
        match_at(h, f, i, j) == Some(j + (h.len() - i)),
    decreases h.len() - i,
{
    if i < h.len() {
        let sub = f.subrange(j, j + (h.len() - i));
        assert(f[j] == sub[0]);
        assert(sub[0] == h.skip(i)[0]);
        assert(h.skip(i)[0] == h[i]);
        assert(f.subrange(j + 1, (j + 1) + (h.len() - (i + 1))) =~= h.skip(i + 1)) by {
            assert(f.subrange(j + 1, j + (h.len() - i)) =~= sub.skip(1));
            assert(sub.skip(1) =~= h.skip(i).skip(1));
            assert(h.skip(i).skip(1) =~= h.skip(i + 1));
        }
        lemma_match_at_exact(h, f, i + 1, j + 1);
    }
}

pub proof fn lemma_line_end_from(u: Seq<u8>, j: int, k: int)
    requires
        0 <= j < k <= u.len(),
        u[k - 1] == 10,
        forall|d: int| j <= d < k - 1 ==> u[d] != 10,
    ensures
        line_end(u, j) == k,
    decreases k - j,
{
    if j < k - 1 {
        lemma_line_end_from(u, j + 1, k);
    }
}

pub proof fn lemma_nl_run_two(u: Seq<u8>, m: int)
    requires
        0 <= m,
        m + 2 <= u.len(),
        u[m] == 10,
        u[m + 1] == 10,
        m + 2 < u.len() ==> u[m + 2] != 10 && u[m + 2] != 13,
    ensures
        nl_run_end(u, m) == m + 2,
{
    assert(nl_run_end(u, m) == nl_run_end(u, m + 1));
    assert(nl_run_end(u, m + 1) == nl_run_end(u, m + 2));
    assert(nl_run_end(u, m + 2) == m + 2);
}

/// After an add, the file carries the header: the matcher accepts the added
/// content, with the header range starting right after any preserved shebang
/// line.  (A header that itself begins with the shebang marker would be
/// skipped over by the matcher, so it is left out when shebang skipping is
/// on.)
pub proof fn lemma_added_content_matches(f: Seq<u8>, h: Seq<u8>, skip: bool)
    requires
        skip ==> !starts_shebang(h),
    ensures
        match_spec(h, added_content_spec(f, h, skip), skip) is Some,
{
    let ins = h + seq![10u8, 10u8];
    let c = added_content_spec(f, h, skip);
    if skip && starts_shebang(f) {
        let k = line_end(f, 0);
        lemma_line_end_bounds(f, 0);
        assert(line_end(f, 0) == line_end(f, 1));
        assert(line_end(f, 1) == line_end(f, 2));
        lemma_line_end_bounds(f, 2);
        assert(k >= 2);
        if k >= 1 && f[k - 1] == 10 {
            assert(c =~= f.take(k) + ins + f.skip(k));
            assert(starts_shebang(c));
            assert forall|d: int| 0 <= d < k - 1 implies c[d] != 10 by {
                assert(c[d] == f[d]);
            }
            assert(c[k - 1] == 10);
            lemma_line_end_from(c, 0, k);
            assert(shebang_len(c, skip) == k);
            assert(c.subrange(k, k + h.len()) =~= h.skip(0));
            lemma_match_at_exact(h, c, 0, k);
        } else {
            assert(k == f.len());
            assert(forall|d: int| 0 <= d < k - 1 ==> f[d] != 10);
            assert(f[k - 1] != 10);
            assert(c =~= f.take(k) + seq![10u8] + ins + f.skip(k));
            assert(starts_shebang(c));
            assert forall|d: int| 0 <= d < k implies c[d] != 10 by {
                assert(c[d] == f[d]);
            }
            assert(c[k] == 10);
            lemma_line_end_from(c, 0, k + 1);
            assert(shebang_len(c, skip) == k + 1);
            assert(c.subrange(k + 1, (k + 1) + h.len()) =~= h.skip(0));
            lemma_match_at_exact(h, c, 0, k + 1);
        }
    } else {
        assert(c =~= ins + f);
        assert(c.len() >= 2);
        if skip {
            if h.len() >= 2 {
                assert(c[0] == h[0] && c[1] == h[1]);
                assert(!starts_shebang(c));
            } else if h.len() == 1 {
                assert(c[1] == 10);
                assert(!starts_shebang(c));
            } else {
                assert(c[0] == 10);
                assert(!starts_shebang(c));
            }
        }
        assert(shebang_len(c, skip) == 0);
        assert(c.subrange(0, h.len() as int) =~= h.skip(0));
        lemma_match_at_exact(h, c, 0, 0);
    }
}

/// Idempotence: adding the header to content that an add just produced
/// changes nothing — the second add reports no change and leaves the content
/// exactly as it was.
pub proof fn lemma_add_idempotent(f: Seq<u8>, h: Seq<u8>, skip: bool)
    requires
        skip ==> !starts_shebang(h),
    ensures
        add_spec(add_spec(f, h, skip).1, h, skip) == (
            AddToFileResult::NoChange,
            add_spec(f, h, skip).1,
        ),
{
    if match_spec(h, f, skip) is Some {
    } else {
        lemma_added_content_matches(f, h, skip);
    }
}

/// Round trip: on a file without a pre-existing header — whose content after
/// the optional shebang line does not itself begin with a line terminator,
/// and whose shebang line, if one is skipped, ends in a line feed — an add
/// followed by a remove restores the original bytes exactly.
pub proof fn lemma_add_remove_round_trip(f: Seq<u8>, h: Seq<u8>, skip: bool)
    requires
        match_spec(h, f, skip) is None,
        skip ==> !starts_shebang(h),
        skip && starts_shebang(f) ==> line_end(f, 0) >= 1 && f[line_end(f, 0) - 1] == 10,
        shebang_len(f, skip) < f.len() ==> f[shebang_len(f, skip)] != 10 && f[shebang_len(
            f,
            skip,
        )] != 13,
    ensures
        remove_spec(add_spec(f, h, skip).1, h, skip) == (RemoveFromFileResult::Removed, f),
{
    let ins = h + seq![10u8, 10u8];
    let c = add_spec(f, h, skip).1;
    assert(c == added_content_spec(f, h, skip));
    if skip && starts_shebang(f) {
        let k = line_end(f, 0);
        lemma_line_end_bounds(f, 0);
        assert(line_end(f, 0) == line_end(f, 1));
        assert(line_end(f, 1) == line_end(f, 2));
        lemma_line_end_bounds(f, 2);
        assert(k >= 2);
        assert(c =~= f.take(k) + ins + f.skip(k));
        assert(starts_shebang(c));
        assert forall|d: int| 0 <= d < k - 1 implies c[d] != 10 by {
            assert(c[d] == f[d]);
        }
        assert(c[k - 1] == 10);
        lemma_line_end_from(c, 0, k);
        assert(shebang_len(c, skip) == k);
        assert(c.subrange(k, k + h.len()) =~= h.skip(0));
        lemma_match_at_exact(h, c, 0, k);
        let m = k + h.len();
        assert(c[m] == 10 && c[m + 1] == 10);
        assert(m + 2 < c.len() ==> c[m + 2] == f[k]);
        lemma_nl_run_two(c, m);
        assert(match_spec(h, c, skip) == Some((k, m + 2)));
        assert(c.take(k) =~= f.take(k));
        assert(c.skip(m + 2) =~= f.skip(k));
        assert(c.take(k) + c.skip(m + 2) =~= f);
    } else {
        assert(c =~= ins + f);
        if skip {
            assert(c.len() >= 2);
            if h.len() >= 2 {
                assert(c[0] == h[0] && c[1] == h[1]);
            } else if h.len() == 1 {
                assert(c[1] == 10);
            } else {
                assert(c[0] == 10);
            }
            assert(!starts_shebang(c));
        }
        assert(shebang_len(c, skip) == 0);
        assert(c.subrange(0, h.len() as int) =~= h.skip(0));
        lemma_match_at_exact(h, c, 0, 0);
        let m = h.len() as int;
        assert(c[m] == 10 && c[m + 1] == 10);
        assert(m + 2 < c.len() ==> c[m + 2] == f[0]);
        lemma_nl_run_two(c, m);
        assert(match_spec(h, c, skip) == Some((0int, m + 2)));
        assert(c.take(0) =~= Seq::<u8>::empty());
        assert(c.skip(m + 2) =~= f);
        assert(c.take(0) + c.skip(m + 2) =~= f);
    }
}

/// `h` with every line feed replaced by a carriage-return-line-feed pair.
pub open spec fn crlf_of(h: Seq<u8>) -> Seq<u8>
    decreases h.len(),
{
    if h.len() == 0 {
        Seq::empty()
    } else if h[0] == 10 {
        seq![13u8, 10u8] + crlf_of(h.skip(1))
    } else {
        seq![h[0]] + crlf_of(h.skip(1))
    }
}

pub proof fn lemma_match_at_crlf(h: Seq<u8>, f: Seq<u8>, i: int, j: int)
    requires
        0 <= i <= h.len(),
        0 <= j,
        forall|d: int| 0 <= d < h.len() ==> #[trigger] h[d] != 13,
        j + crlf_of(h.skip(i)).len() <= f.len(),
        f.subrange(j, j + crlf_of(h.skip(i)).len()) == crlf_of(h.skip(i)),
    ensures
        match_at(h, f, i, j) is Some,
    decreases h.len() - i,
{
    if i < h.len() {
        let hi = h.skip(i);
        let cf = crlf_of(hi);
        let sub = f.subrange(j, j + cf.len());
        assert(hi[0] == h[i]);
        assert(hi.skip(1) =~= h.skip(i + 1));
        let rest = crlf_of(h.skip(i + 1));
        if h[i] == 10 {
            assert(cf == seq![13u8, 10u8] + rest);
            assert(f[j] == sub[0] && sub[0] == cf[0]);
            assert(f[j + 1] == sub[1] && sub[1] == cf[1]);
            assert(f[j] == 13 && f[j + 1] == 10);
            assert(h[i] != f[j]);
            assert(f.subrange(j + 2, (j + 2) + rest.len()) =~= rest) by {
                assert(f.subrange(j + 2, j + cf.len()) =~= sub.skip(2));
                assert(sub.skip(2) =~= cf.skip(2));
                assert(cf.skip(2) =~= rest);
            }
            lemma_match_at_crlf(h, f, i + 1, j + 2);
            assert(match_at(h, f, i, j) == match_at(h, f, i + 1, j + 2));
        } else {
            assert(cf == seq![h[i]] + rest);
            assert(f[j] == sub[0] && sub[0] == cf[0]);
            assert(f[j] == h[i]);
            assert(f.subrange(j + 1, (j + 1) + rest.len()) =~= rest) by {
                assert(f.subrange(j + 1, j + cf.len()) =~= sub.skip(1));
                assert(sub.skip(1) =~= cf.skip(1));
                assert(cf.skip(1) =~= rest);
            }
            lemma_match_at_crlf(h, f, i + 1, j + 1);
            assert(match_at(h, f, i, j) == match_at(h, f, i + 1, j + 1));
        }
    }
}

/// Match tolerance: a file whose leading bytes differ from the header only by
/// using CRLF where the header has LF at every line boundary is still
/// reported as carrying the header.
pub proof fn lemma_match_tolerates_crlf(h: Seq<u8>, rest: Seq<u8>)
    requires
        forall|d: int| 0 <= d < h.len() ==> #[trigger] h[d] != 13,
    ensures
        match_spec(h, crlf_of(h) + rest, false) is Some,
{
    let f = crlf_of(h) + rest;
    assert(h.skip(0) =~= h);
    assert(crlf_of(h.skip(0)) == crlf_of(h));
    assert(f.subrange(0, crlf_of(h.skip(0)).len() as int) =~= crlf_of(h.skip(0)));
    lemma_match_at_crlf(h, f, 0, 0);
    assert(shebang_len(f, false) == 0);
}

/// Shebang preservation: adding a header under a rule that skips shebang
/// lines leaves the shebang line as the file's first bytes, places the header
/// with its blank-line separator directly after it, and keeps the remainder
/// of the file unchanged after the header.
pub proof fn lemma_add_preserves_shebang(f: Seq<u8>, h: Seq<u8>)
    requires
        starts_shebang(f),
        line_end(f, 0) >= 1 && f[line_end(f, 0) - 1] == 10,
    ensures
        ({
            let k = line_end(f, 0);
            let a = added_content_spec(f, h, true);
            &&& a.len() == f.len() + h.len() + 2
            &&& a.take(k) == f.take(k)
            &&& a.subrange(k, k + h.len() + 2) == h + seq![10u8, 10u8]
            &&& a.skip(k + h.len() + 2) == f.skip(k)
        }),
{
    let k = line_end(f, 0);
    let a = added_content_spec(f, h, true);
    lemma_line_end_bounds(f, 0);
    assert(a =~= f.take(k) + (h + seq![10u8, 10u8]) + f.skip(k));
    assert(a.take(k) =~= f.take(k));
    assert(a.subrange(k, k + h.len() + 2) =~= h + seq![10u8, 10u8]);
    assert(a.skip(k + h.len() + 2) =~= f.skip(k));
}

} // verus!
