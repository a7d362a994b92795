use vstd::prelude::*;

use crate::error::{ErrorKind, KindModel};
use crate::listing::LsOutputFile;
use crate::name::{decode_name, parse_name};
use crate::text::{
    chars_of, int_of, join_from, join_words, parse_i64, split_words, string_of, tokens,
};

verus! {

/// What one line of a listing stands for.
pub enum ParsedLine {
    File(LsOutputFile),
    Folder(String),
}

/// The mathematical value of a [`ParsedLine`].
pub enum EntryModel {
    File(Seq<char>, i64),
    Folder(Seq<char>),
}

impl View for ParsedLine {
    type V = EntryModel;

    open spec fn view(&self) -> EntryModel {
        match self {
            ParsedLine::File(f) => EntryModel::File(f.name@, f.size_bytes),
            ParsedLine::Folder(n) => EntryModel::Folder(n@),
        }
    }
}

/// Whether the line is a `total N` header.
pub open spec fn is_total_header(line: Seq<char>) -> bool {
    line.len() >= 6 && line.take(6) == seq!['t', 'o', 't', 'a', 'l', ' ']
}

/// A ten-character mode of a symbolic link, a block device or a character device.
pub open spec fn is_skipped_mode(mode: Seq<char>) -> bool {
    mode.len() == 10 && (mode[0] == 'l' || mode[0] == 'b' || mode[0] == 'c')
}

pub open spec fn ends_with_slash(s: Seq<char>) -> bool {
    s.len() > 0 && s.last() == '/'
}

/// `s` without its trailing slashes.
pub open spec fn strip_slashes(s: Seq<char>) -> Seq<char>
    decreases s.len(),
{
    if ends_with_slash(s) {
        strip_slashes(s.drop_last())
    } else {
        s
    }
}

/// The names of the current and the parent directory.
pub open spec fn is_dot_ref(name: Seq<char>) -> bool {
    name == "."@ || name == ".."@
}

/// What a trimmed line of a listing stands for: nothing, a file or a folder;
/// or why it cannot be read.
pub open spec fn classify(line: Seq<char>) -> Result<Option<EntryModel>, KindModel> {
    let t = tokens(line);
    if line.len() == 0 || is_total_header(line) {
        Ok(None)
    } else if t.len() < 1 {
        Err(KindModel::MissingFileMode)
    } else if is_skipped_mode(t[0]) {
        Ok(None)
    } else if t.len() < 2 {
        Err(KindModel::MissingLinkCount)
    } else if t.len() < 3 {
        Err(KindModel::MissingOwner)
    } else if t.len() < 4 {
        Err(KindModel::MissingGroup)
    } else if t.len() < 5 {
        Err(KindModel::MissingSize)
    } else if int_of(t[4]) is None {
        Err(KindModel::InvalidSize { token: t[4] })
    } else if t.len() < 6 {
        Err(KindModel::MissingMonth)
    } else if t.len() < 7 {
        Err(KindModel::MissingDay)
    } else if t.len() < 8 {
        Err(KindModel::MissingTimestamp)
    } else {
        let raw = join_words(t.skip(8));
        if raw.len() == 0 {
            Err(KindModel::MissingName)
        } else {
            match decode_name(strip_slashes(raw)) {
                Err(k) => Err(k),
                Ok(name) => if is_dot_ref(name) {
                    Ok(None)
                } else if ends_with_slash(raw) {
                    if name.len() == 0 {
                        Ok(None)
                    } else {
                        Ok(Some(EntryModel::Folder(name)))
                    }
                } else {
                    Ok(Some(EntryModel::File(name, int_of(t[4])->Some_0)))
                },
            }
        }
    }
}

/// The mathematical value of a line's outcome.
pub open spec fn line_result(r: Result<Option<ParsedLine>, ErrorKind>) -> Result<
    Option<EntryModel>,
    KindModel,
> {
    match r {
        Ok(Some(p)) => Ok(Some(p@)),
        Ok(None) => Ok(None),
        Err(k) => Err(k@),
    }
}

/// Classifies one trimmed line of a listing.
pub fn parse_line(line: &str) -> (r: Result<Option<ParsedLine>, ErrorKind>)
    ensures
        line_result(r) == classify(line@),
{
    let x = chars_of(line);
    if x.len() == 0 {
        return Ok(None);
    }
    if x.len() >= 6 && x[0] == 't' && x[1] == 'o' && x[2] == 't' && x[3] == 'a' && x[4] == 'l'
        && x[5] == ' ' {
        assert(x@.take(6) =~= seq!['t', 'o', 't', 'a', 'l', ' ']);
        return Ok(None);
    }
    assert(x@.len() >= 6 ==> x@.take(6)[0] == x@[0] && x@.take(6)[1] == x@[1] && x@.take(6)[2]
        == x@[2] && x@.take(6)[3] == x@[3] && x@.take(6)[4] == x@[4] && x@.take(6)[5] == x@[5]);
    let t = split_words(&x);
    let ghost tv = t@.map_values(|w: Vec<char>| w@);
    assert(tv.len() == t@.len());
    if t.len() < 1 {
        return Err(ErrorKind::MissingFileMode);
    }
    assert(tv[0] == t@[0]@);
    if t[0].len() == 10 {
        let c = t[0][0];
        if c == 'l' || c == 'b' || c == 'c' {
            return Ok(None);
        }
    }
    if t.len() < 2 {
        return Err(ErrorKind::MissingLinkCount);
    }
    if t.len() < 3 {
        return Err(ErrorKind::MissingOwner);
    }
    if t.len() < 4 {
        return Err(ErrorKind::MissingGroup);
    }
    if t.len() < 5 {
        return Err(ErrorKind::MissingSize);
    }
    assert(tv[4] == t@[4]@);
    assert(t@[4]@.subrange(0, t@[4]@.len() as int) =~= t@[4]@);
    let size = match parse_i64(&t[4]) {
        Some(v) => v,
        None => {
            return Err(ErrorKind::InvalidSize { token: string_of(&t[4], 0, t[4].len()) });
        },
    };
    if t.len() < 6 {
        return Err(ErrorKind::MissingMonth);
    }
    if t.len() < 7 {
        return Err(ErrorKind::MissingDay);
    }
    if t.len() < 8 {
        return Err(ErrorKind::MissingTimestamp);
    }
    let mut raw = join_from(&t, 8);
    if raw.len() == 0 {
        return Err(ErrorKind::MissingName);
    }
    let is_directory = raw[raw.len() - 1] == '/';
    let ghost full = raw@;
    while raw.len() > 0 && raw[raw.len() - 1] == '/'
        invariant
            strip_slashes(full) == strip_slashes(raw@),
        decreases raw@.len(),
    {
        raw.pop();
    }
    let stripped = string_of(&raw, 0, raw.len());
    assert(raw@.subrange(0, raw@.len() as int) =~= raw@);
    let name = parse_name(stripped.as_str())?;
    if name == ".".to_owned() || name == "..".to_owned() {
        return Ok(None);
    }
    if is_directory {
        if name.as_str().is_empty() {
            return Ok(None);
        }
        Ok(Some(ParsedLine::Folder(name)))
    } else {
        Ok(Some(ParsedLine::File(LsOutputFile { name, size_bytes: size })))
    }
}

/// A line never stands for a file or a folder named `.` or `..`.
pub proof fn lemma_entry_not_dot_ref(line: Seq<char>)
    ensures
        match classify(line) {
            Ok(Some(EntryModel::File(n, _))) => !is_dot_ref(n),
            Ok(Some(EntryModel::Folder(n))) => !is_dot_ref(n),
            _ => true,
        },
{
}

/// A line whose first word is the mode of a symbolic link, a block device or a
/// character device stands for nothing.
pub proof fn lemma_special_mode_skipped(line: Seq<char>)
    requires
        tokens(line).len() > 0,
        is_skipped_mode(tokens(line)[0]),
    ensures
        classify(line) == Ok::<Option<EntryModel>, KindModel>(None),
{
}

} // verus!
