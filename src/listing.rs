use vstd::prelude::*;

use crate::error::{Error, KindModel};
use crate::line::{
    classify, is_dot_ref, is_skipped_mode, lemma_entry_not_dot_ref, lemma_special_mode_skipped,
    parse_line, EntryModel, ParsedLine,
};
use crate::sort::{
    file_key, file_views, folder_key, lemma_sort_permutes, lemma_sort_sorted, sort_by_name,
    sort_files, sort_names, sorted_by_name, string_views,
};
use crate::text::{chars_of, string_of, tokens, trim, trim_range};

verus! {

/// Parsed output of `ls -lpa` command
pub struct LsOutput {
    /// Sorted list of files
    pub files: Vec<LsOutputFile>,
    /// Sorted list of folders
    pub folders: Vec<String>,
}

/// File
pub struct LsOutputFile {
    /// File name
    pub name: String,
    /// File size in bytes
    pub size_bytes: i64,
}

impl View for LsOutputFile {
    type V = (Seq<char>, i64);

    open spec fn view(&self) -> (Seq<char>, i64) {
        (self.name@, self.size_bytes)
    }
}

impl View for LsOutput {
    type V = ListingModel;

    open spec fn view(&self) -> ListingModel {
        ListingModel { files: file_views(self.files@), folders: string_views(self.folders@) }
    }
}

/// The mathematical value of a listing: files with their sizes, and folders.
pub struct ListingModel {
    pub files: Seq<(Seq<char>, i64)>,
    pub folders: Seq<Seq<char>>,
}

/// An error's kind and the line it was found in.
pub type Failure = (KindModel, Seq<char>);

/// The model of gathered files and folders.
pub open spec fn gathered(files: Seq<LsOutputFile>, folders: Seq<String>) -> ListingModel {
    ListingModel { files: file_views(files), folders: string_views(folders) }
}

/// `s` without one leading backslash-newline marker, if it has one.
pub open spec fn strip_marker(s: Seq<char>) -> Seq<char> {
    if s.len() >= 3 && s[0] == '\\' && s[1] == '\r' && s[2] == '\n' {
        s.skip(3)
    } else if s.len() >= 2 && s[0] == '\\' && s[1] == '\n' {
        s.skip(2)
    } else {
        s
    }
}

/// The pieces of `s` between line feeds. A carriage return before a line feed
/// stays in its piece, as white space that trimming removes.
pub open spec fn lines_of(s: Seq<char>) -> Seq<Seq<char>>
    decreases s.len(),
{
    if s.len() == 0 {
        seq![seq![]]
    } else {
        let init = lines_of(s.drop_last());
        if s.last() == '\n' {
            init.push(seq![])
        } else {
            init.drop_last().push(init.last().push(s.last()))
        }
    }
}

/// The entries gathered so far with that of one more line added, or that
/// line's error together with the line, trimmed.
pub open spec fn step(acc: ListingModel, line: Seq<char>) -> Result<ListingModel, Failure> {
    let l = trim(line);
    match classify(l) {
        Err(k) => Err((k, l)),
        Ok(None) => Ok(acc),
        Ok(Some(EntryModel::File(n, size))) => Ok(
            ListingModel { files: acc.files.push((n, size)), ..acc },
        ),
        Ok(Some(EntryModel::Folder(n))) => Ok(
            ListingModel { folders: acc.folders.push(n), ..acc },
        ),
    }
}

/// The entries of the lines, in order, or the first line's error.
pub open spec fn collect(lines: Seq<Seq<char>>) -> Result<ListingModel, Failure>
    decreases lines.len(),
{
    if lines.len() == 0 {
        Ok(ListingModel { files: seq![], folders: seq![] })
    } else {
        match collect(lines.drop_last()) {
            Err(e) => Err(e),
            Ok(acc) => step(acc, lines.last()),
        }
    }
}

/// What a listing text stands for: its files and its folders, each sorted by
/// name; or the error of its first malformed line, with that line trimmed.
pub open spec fn listing(s: Seq<char>) -> Result<ListingModel, Failure> {
    match collect(lines_of(strip_marker(s))) {
        Err(e) => Err(e),
        Ok(acc) => Ok(
            ListingModel {
                files: sort_by_name(acc.files, file_key()),
                folders: sort_by_name(acc.folders, folder_key()),
            },
        ),
    }
}

/// The mathematical value of a parse's outcome.
pub open spec fn outcome(r: Result<LsOutput, Error>) -> Result<ListingModel, Failure> {
    match r {
        Ok(o) => Ok(o@),
        Err(e) => Err(e@),
    }
}

proof fn lemma_lines_nonempty(s: Seq<char>)
    ensures
        lines_of(s).len() >= 1,
    decreases s.len(),
{
    if s.len() > 0 {
        lemma_lines_nonempty(s.drop_last());
    }
}

/// The lines that a prefix of `s` completes are the first lines of `s`.
proof fn lemma_lines_prefix(s: Seq<char>, k: int)
    requires
        0 <= k <= s.len(),
    ensures
        lines_of(s.take(k)).len() <= lines_of(s).len(),
        lines_of(s).take(lines_of(s.take(k)).len() - 1) == lines_of(s.take(k)).drop_last(),
    decreases s.len(),
{
    lemma_lines_nonempty(s.take(k));
    if k == s.len() {
        assert(s.take(k) =~= s);
        assert(lines_of(s).take(lines_of(s).len() - 1) =~= lines_of(s).drop_last());
    } else {
        let p = s.drop_last();
        lemma_lines_prefix(p, k);
        lemma_lines_nonempty(p);
        assert(p.take(k) =~= s.take(k));
        let m = lines_of(s.take(k)).len() - 1;
        assert(lines_of(s).take(m) =~= lines_of(p).take(m));
    }
}

/// An error in the first lines is the error of all of them.
proof fn lemma_collect_prefix(ls: Seq<Seq<char>>, m: int)
    requires
        0 <= m <= ls.len(),
        collect(ls.take(m)) is Err,
    ensures
        collect(ls) == collect(ls.take(m)),
    decreases ls.len(),
{
    if m == ls.len() {
        assert(ls.take(m) =~= ls);
    } else {
        assert(ls.drop_last().take(m) =~= ls.take(m));
        lemma_collect_prefix(ls.drop_last(), m);
    }
}

/// Classifies the line `x[lo..hi]` and adds its entry, if any.
fn visit(
    x: &Vec<char>,
    lo: usize,
    hi: usize,
    files: &mut Vec<LsOutputFile>,
    folders: &mut Vec<String>,
) -> (r: Result<(), Error>)
    requires
        lo <= hi <= x@.len(),
    ensures
        match r {
            Ok(()) => step(
                gathered(old(files)@, old(folders)@),
                x@.subrange(lo as int, hi as int),
            ) == Ok::<ListingModel, Failure>(gathered(final(files)@, final(folders)@)),
            Err(e) => step(
                gathered(old(files)@, old(folders)@),
                x@.subrange(lo as int, hi as int),
            ) == Err::<ListingModel, Failure>(e@),
        },
{
    let (a, b) = trim_range(x, lo, hi);
    let line = string_of(x, a, b);
    match parse_line(line.as_str()) {
        Err(kind) => Err(Error::new(kind, line)),
        Ok(None) => Ok(()),
        Ok(Some(ParsedLine::File(f))) => {
            let ghost before = files@;
            files.push(f);
            assert(file_views(files@) =~= file_views(before).push(f@));
            Ok(())
        },
        Ok(Some(ParsedLine::Folder(d))) => {
            let ghost before = folders@;
            folders.push(d);
            assert(string_views(folders@) =~= string_views(before).push(d@));
            Ok(())
        },
    }
}

impl LsOutput {
    /// Parses the text of a long directory listing.
    pub fn from_str(s: &str) -> (r: Result<LsOutput, Error>)
        ensures
            outcome(r) == listing(s@),
    {
        let x = chars_of(s);
        let n = x.len();
        let st: usize = if n >= 3 && x[0] == '\\' && x[1] == '\r' && x[2] == '\n' {
            3
        } else if n >= 2 && x[0] == '\\' && x[1] == '\n' {
            2
        } else {
            0
        };
        let ghost body = strip_marker(s@);
        assert(body =~= x@.subrange(st as int, n as int));
        let mut files: Vec<LsOutputFile> = Vec::new();
        let mut folders: Vec<String> = Vec::new();
        let ghost mut done: Seq<Seq<char>> = seq![];
        let mut start: usize = st;
        let mut j: usize = st;
        assert(x@.subrange(st as int, st as int) =~= seq![]);
        assert(file_views(files@) =~= seq![]);
        assert(string_views(folders@) =~= seq![]);
        while j < n
            invariant
                st <= start <= j <= n == x@.len(),
                body == x@.subrange(st as int, n as int),
                body == strip_marker(s@),
                lines_of(x@.subrange(st as int, j as int)) == done.push(
                    x@.subrange(start as int, j as int),
                ),
                collect(done) == Ok::<ListingModel, Failure>(gathered(files@, folders@)),
            decreases n - j,
        {
            assert(x@.subrange(st as int, j + 1).drop_last() =~= x@.subrange(st as int, j as int));
            assert(done.push(x@.subrange(start as int, j as int)).drop_last() =~= done);
            if x[j] == '\n' {
                let ghost cur = x@.subrange(start as int, j as int);
                let res = visit(&x, start, j, &mut files, &mut folders);
                if let Err(e) = res {
                    proof {
                        let k = j + 1 - st;
                        assert(body.take(k) =~= x@.subrange(st as int, j + 1));
                        lemma_lines_prefix(body, k);
                        let ls = lines_of(body);
                        assert(done.push(cur).push(seq![]).drop_last() =~= done.push(cur));
                        assert(done.push(cur).drop_last() =~= done);
                        assert(ls.take(done.len() as int + 1) =~= done.push(cur));
                        assert(collect(done.push(cur)) == step(collect(done)->Ok_0, cur));
                        lemma_collect_prefix(ls, done.len() as int + 1);
                    }
                    return Err(e);
                }
                proof {
                    assert(done.push(cur).drop_last() =~= done);
                    done = done.push(cur);
                }
                start = j + 1;
                assert(x@.subrange(start as int, j + 1) =~= seq![]);
            } else {
                assert(x@.subrange(start as int, j + 1) =~= x@.subrange(start as int, j as int).push(
                    x@[j as int],
                ));
            }
            j += 1;
        }
        let ghost last = x@.subrange(start as int, n as int);
        assert(done.push(last).drop_last() =~= done);
        assert(x@.subrange(st as int, n as int) =~= body);
        visit(&x, start, n, &mut files, &mut folders)?;
        sort_files(&mut files);
        sort_names(&mut folders);
        Ok(LsOutput { files, folders })
    }
}

impl std::str::FromStr for LsOutput {
    type Err = Error;

    fn from_str(s: &str) -> Result<LsOutput, Error> {
        LsOutput::from_str(s)
    }
}

/// No gathered file or folder is named `.` or `..`.
pub open spec fn no_dot_refs(m: ListingModel) -> bool {
    &&& forall|i: int| 0 <= i < m.files.len() ==> !is_dot_ref(#[trigger] m.files[i].0)
    &&& forall|i: int| 0 <= i < m.folders.len() ==> !is_dot_ref(#[trigger] m.folders[i])
}

proof fn lemma_collect_no_dot_refs(lines: Seq<Seq<char>>)
    ensures
        collect(lines) is Ok ==> no_dot_refs(collect(lines)->Ok_0),
    decreases lines.len(),
{
    if lines.len() > 0 {
        lemma_collect_no_dot_refs(lines.drop_last());
        lemma_entry_not_dot_ref(trim(lines.last()));
        if collect(lines) is Ok {
            let acc = collect(lines.drop_last())->Ok_0;
            let m = collect(lines)->Ok_0;
            assert forall|i: int| 0 <= i < m.files.len() implies !is_dot_ref(
                #[trigger] m.files[i].0,
            ) by {
                if i < acc.files.len() {
                    assert(m.files[i] == acc.files[i]);
                }
            }
            assert forall|i: int| 0 <= i < m.folders.len() implies !is_dot_ref(
                #[trigger] m.folders[i],
            ) by {
                if i < acc.folders.len() {
                    assert(m.folders[i] == acc.folders[i]);
                }
            }
        }
    }
}

/// A listing that parses has its files sorted by name and its folders sorted,
/// and neither holds `.` or `..`.
pub proof fn lemma_listing_sorted_without_dot_refs(s: Seq<char>)
    requires
        listing(s) is Ok,
    ensures
        sorted_by_name(listing(s)->Ok_0.files, file_key()),
        sorted_by_name(listing(s)->Ok_0.folders, folder_key()),
        no_dot_refs(listing(s)->Ok_0),
{
    broadcast use vstd::seq_lib::group_to_multiset_ensures;

    let acc = collect(lines_of(strip_marker(s)))->Ok_0;
    let m = listing(s)->Ok_0;
    lemma_sort_sorted(acc.files, file_key());
    lemma_sort_sorted(acc.folders, folder_key());
    lemma_collect_no_dot_refs(lines_of(strip_marker(s)));
    lemma_sort_permutes(acc.files, file_key());
    lemma_sort_permutes(acc.folders, folder_key());
    assert forall|i: int| 0 <= i < m.files.len() implies !is_dot_ref(#[trigger] m.files[i].0) by {
        assert(m.files.contains(m.files[i]));
        assert(acc.files.to_multiset().count(m.files[i]) > 0);
        let j = choose|j: int| 0 <= j < acc.files.len() && acc.files[j] == m.files[i];
        assert(!is_dot_ref(acc.files[j].0));
    }
    assert forall|i: int| 0 <= i < m.folders.len() implies !is_dot_ref(#[trigger] m.folders[i]) by {
        assert(m.folders.contains(m.folders[i]));
        assert(acc.folders.to_multiset().count(m.folders[i]) > 0);
        let j = choose|j: int| 0 <= j < acc.folders.len() && acc.folders[j] == m.folders[i];
        assert(!is_dot_ref(acc.folders[j]));
    }
}

/// A line whose first word is the mode of a symbolic link, a block device or a
/// character device adds nothing to the files or the folders.
pub proof fn lemma_special_mode_adds_nothing(acc: ListingModel, line: Seq<char>)
    requires
        tokens(trim(line)).len() > 0,
        is_skipped_mode(tokens(trim(line))[0]),
    ensures
        step(acc, line) == Ok::<ListingModel, Failure>(acc),
{
    lemma_special_mode_skipped(trim(line));
}

/// Parsing the same text twice gives the same outcome: the contract of
/// [`LsOutput::from_str`] leaves no freedom.
pub proof fn lemma_parse_deterministic(
    s: &str,
    r1: Result<LsOutput, Error>,
    r2: Result<LsOutput, Error>,
)
    requires
        outcome(r1) == listing(s@),
        outcome(r2) == listing(s@),
    ensures
        outcome(r1) == outcome(r2),
{
}

} // verus!
