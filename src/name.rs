use vstd::prelude::*;

use crate::error::{ErrorKind, KindModel};
use crate::text::{chars_of, push_char, string_of};

verus! {

/// The character that a backslash followed by `c` stands for.
pub open spec fn escaped_char(c: char) -> char {
    if c == 'n' {
        '\n'
    } else if c == 'r' {
        '\r'
    } else if c == 't' {
        '\t'
    } else {
        c
    }
}

/// `p` put in front of a decoded text, if there is one.
pub open spec fn prefixed(p: Seq<char>, o: Option<Seq<char>>) -> Option<Seq<char>> {
    match o {
        Some(r) => Some(p + r),
        None => None,
    }
}

/// The interior of a double-quoted name with its escapes resolved, or `None`
/// where a backslash ends it.
pub open spec fn unescape(s: Seq<char>) -> Option<Seq<char>>
    decreases s.len(),
{
    if s.len() == 0 {
        Some(seq![])
    } else if s[0] == '\\' {
        if s.len() == 1 {
            None
        } else {
            prefixed(seq![escaped_char(s[1])], unescape(s.skip(2)))
        }
    } else {
        prefixed(seq![s[0]], unescape(s.drop_first()))
    }
}

/// Whether `raw` has at least two characters and begins and ends with `q`.
pub open spec fn wrapped_in(raw: Seq<char>, q: char) -> bool {
    raw.len() >= 2 && raw[0] == q && raw.last() == q
}

/// `raw` without its first and last characters.
pub open spec fn interior(raw: Seq<char>) -> Seq<char> {
    raw.subrange(1, raw.len() - 1)
}

/// The logical name that a raw name token stands for.
pub open spec fn decode_name(raw: Seq<char>) -> Result<Seq<char>, KindModel> {
    if raw.len() == 0 {
        Err(KindModel::MissingName)
    } else if wrapped_in(raw, '"') {
        match unescape(interior(raw)) {
            None => Err(KindModel::InvalidEscapeSequence),
            Some(v) => if v.len() == 0 {
                Err(KindModel::EmptyQuotedName)
            } else {
                Ok(v)
            },
        }
    } else if wrapped_in(raw, '\'') {
        if interior(raw).len() == 0 {
            Err(KindModel::EmptyQuotedName)
        } else {
            Ok(interior(raw))
        }
    } else {
        Ok(raw)
    }
}

/// The mathematical value of a decoding result.
pub open spec fn text_result(r: Result<String, ErrorKind>) -> Result<Seq<char>, KindModel> {
    match r {
        Ok(s) => Ok(s@),
        Err(k) => Err(k@),
    }
}

/// Resolves the backslash escapes of the interior of a double-quoted name.
pub fn unescape_double_quoted(input: &str) -> (r: Result<String, ErrorKind>)
    ensures
        match r {
            Ok(v) => unescape(input@) == Some(v@),
            Err(k) => unescape(input@) is None && k@ == KindModel::InvalidEscapeSequence,
        },
{
    let x = chars_of(input);
    let mut out = String::new();
    let mut i: usize = 0;
    assert(x@.skip(0) =~= x@);
    while i < x.len()
        invariant
            i <= x@.len(),
            x@ == input@,
            unescape(input@) == prefixed(out@, unescape(x@.skip(i as int))),
        decreases x@.len() - i,
    {
        let ghost before = out@;
        let ch = x[i];
        if ch == '\\' {
            if i + 1 >= x.len() {
                return Err(ErrorKind::InvalidEscapeSequence);
            }
            let e = x[i + 1];
            let c = if e == 'n' {
                '\n'
            } else if e == 'r' {
                '\r'
            } else if e == 't' {
                '\t'
            } else {
                e
            };
            push_char(&mut out, c);
            assert(x@.skip(i as int).skip(2) =~= x@.skip(i + 2));
            proof {
                match unescape(x@.skip(i + 2)) {
                    Some(r) => assert(before.push(c) + r =~= before + (seq![c] + r)),
                    None => {},
                }
            }
            i += 2;
        } else {
            push_char(&mut out, ch);
            assert(x@.skip(i as int).drop_first() =~= x@.skip(i + 1));
            proof {
                match unescape(x@.skip(i + 1)) {
                    Some(r) => assert(before.push(ch) + r =~= before + (seq![ch] + r)),
                    None => {},
                }
            }
            i += 1;
        }
    }
    assert(out@ + seq![] =~= out@);
    Ok(out)
}

/// Resolves the quoting of a raw name token into its logical name.
pub fn parse_name(raw: &str) -> (r: Result<String, ErrorKind>)
    ensures
        text_result(r) == decode_name(raw@),
{
    let x = chars_of(raw);
    let n = x.len();
    if n == 0 {
        return Err(ErrorKind::MissingName);
    }
    if n >= 2 {
        if x[0] == '"' && x[n - 1] == '"' {
            let inner = string_of(&x, 1, n - 1);
            let value = unescape_double_quoted(inner.as_str())?;
            if value.as_str().is_empty() {
                return Err(ErrorKind::EmptyQuotedName);
            }
            return Ok(value);
        }
        if x[0] == '\'' && x[n - 1] == '\'' {
            let value = string_of(&x, 1, n - 1);
            if value.as_str().is_empty() {
                return Err(ErrorKind::EmptyQuotedName);
            }
            return Ok(value);
        }
    }
    Ok(raw.to_owned())
}

/// How a character is written inside double quotes: line feed, carriage
/// return, tab, backslash and double quote take a backslash escape.
pub open spec fn escape_char(c: char) -> Seq<char> {
    if c == '\n' {
        seq!['\\', 'n']
    } else if c == '\r' {
        seq!['\\', 'r']
    } else if c == '\t' {
        seq!['\\', 't']
    } else if c == '\\' || c == '"' {
        seq!['\\', c]
    } else {
        seq![c]
    }
}

/// `s` written for the inside of double quotes.
pub open spec fn escape(s: Seq<char>) -> Seq<char>
    decreases s.len(),
{
    if s.len() == 0 {
        seq![]
    } else {
        escape_char(s[0]) + escape(s.drop_first())
    }
}

/// Resolving the escapes undoes escaping.
pub proof fn lemma_unescape_escape(s: Seq<char>)
    ensures
        unescape(escape(s)) == Some(s),
    decreases s.len(),
{
    if s.len() > 0 {
        let rest = s.drop_first();
        lemma_unescape_escape(rest);
        let e = escape(s);
        let head = escape_char(s[0]);
        assert(e == head + escape(rest));
        if head.len() == 2 {
            assert(e.skip(2) =~= escape(rest));
        } else {
            assert(e.drop_first() =~= escape(rest));
        }
        assert(seq![s[0]] + rest =~= s);
    }
}

/// A name written between double quotes, with its special characters escaped,
/// decodes to exactly that name.
pub proof fn lemma_double_quoted_round_trip(name: Seq<char>)
    requires
        name.len() > 0,
    ensures
        decode_name(seq!['"'] + escape(name) + seq!['"']) == Ok::<Seq<char>, KindModel>(name),
{
    let raw = seq!['"'] + escape(name) + seq!['"'];
    assert(interior(raw) =~= escape(name));
    lemma_unescape_escape(name);
}

/// A name written between single quotes decodes verbatim, single quotes
/// inside it included.
pub proof fn lemma_single_quoted_verbatim(name: Seq<char>)
    requires
        name.len() > 0,
    ensures
        decode_name(seq!['\''] + name + seq!['\'']) == Ok::<Seq<char>, KindModel>(name),
{
    let raw = seq!['\''] + name + seq!['\''];
    assert(interior(raw) =~= name);
}

} // verus!
