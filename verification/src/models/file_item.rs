//! One line of a tree drawing, as data.

use crate::text::{
    all_in, any_in, contains_any, lemma_trimmed_len, to_chars, trimmed_end, trimmed_len, CharClass,
};
use vstd::prelude::*;
use vstd::string::StrSliceExecFns;

verus! {

/// The name without the directory marker: every `/` at its end is dropped.
pub open spec fn name_of(f: Seq<char>) -> Seq<char> {
    f.take(trimmed_len(f, CharClass::Exactly('/')) as int)
}

/// A name is empty when it is all whitespace, or when nothing is left of it
/// once the directory marker is dropped.
pub open spec fn empty_filename(f: Seq<char>) -> bool {
    all_in(f, CharClass::Whitespace) || name_of(f).len() == 0
}

/// A name is acceptable when it is not empty and holds none of the
/// forbidden characters.
pub open spec fn valid_filename(f: Seq<char>) -> bool {
    !empty_filename(f) && !any_in(f, CharClass::Forbidden)
}

/// A name stands for a directory when it has no dot, or ends in `/`.
pub open spec fn is_directory_name(f: Seq<char>) -> bool {
    !any_in(f, CharClass::Exactly('.')) || (f.len() > 0 && f.last() == '/')
}

/// Where the text behind the last dot of `f` starts (0 when `f` has no dot).
pub open spec fn after_last_dot(f: Seq<char>) -> nat {
    trimmed_len(f, CharClass::Except('.'))
}

/// The text behind the last dot of a file's name, unless it is empty.
pub open spec fn extension_of(f: Seq<char>) -> Option<Seq<char>> {
    if is_directory_name(f) || after_last_dot(f) == f.len() {
        None
    } else {
        Some(f.skip(after_last_dot(f) as int))
    }
}

/// The text before the last dot of a file's name; for a directory, its name.
pub open spec fn stem_of(f: Seq<char>) -> Seq<char> {
    if is_directory_name(f) {
        name_of(f)
    } else {
        f.take(after_last_dot(f) - 1)
    }
}

/// The text that `FileItemError::InvalidCharacters` carries: the forbidden
/// characters, listed.
pub open spec fn forbidden_listing() -> Seq<char> {
    "['<', '>', ':', '\"', '|', '?', '*']"@
}

/// Why a name was refused.
#[derive(Debug, Clone, PartialEq, Eq)]
pub enum FileItemError {
    /// The name is empty, all whitespace, or nothing but directory markers.
    EmptyFilename,
    /// The name holds a forbidden character; the payload lists them all.
    InvalidCharacters(String),
}

impl FileItemError {
    /// The error for a name with a forbidden character.
    pub fn invalid_characters() -> (e: FileItemError)
        ensures
            e matches FileItemError::InvalidCharacters(listing) && listing@ == forbidden_listing(),
    {
        FileItemError::InvalidCharacters("['<', '>', ':', '\"', '|', '?', '*']".to_owned())
    }
}

/// One entry of the drawing.
#[derive(Debug, Clone, PartialEq, Eq)]
pub struct FileItem {
    /// The label as written, a directory marker at its end included.
    pub filename: String,
    /// The nesting depth, 0 for the top.
    pub level: usize,
    /// The text behind `#` on the line; empty when there is none.
    pub comment: String,
    /// The line the entry was read from, counted from 1.
    pub line_number: usize,
}

/// What a `FileItem` is, as plain mathematical values.
pub struct FileItemView {
    pub filename: Seq<char>,
    pub level: nat,
    pub comment: Seq<char>,
    pub line_number: nat,
}

impl View for FileItem {
    type V = FileItemView;

    open spec fn view(&self) -> FileItemView {
        FileItemView {
            filename: self.filename@,
            level: self.level as nat,
            comment: self.comment@,
            line_number: self.line_number as nat,
        }
    }
}

impl FileItem {
    /// The invariant of an entry: its name passed validation.
    pub open spec fn wf(&self) -> bool {
        valid_filename(self.filename@)
    }

    /// Builds an entry, or says why the name is refused. A name that is all
    /// whitespace, or nothing but directory markers, is refused as empty;
    /// forbidden characters are looked for only in a name that is not
    /// empty.
    pub fn new(filename: String, level: usize, comment: String, line_number: usize) -> (r: Result<
        Self,
        FileItemError,
    >)
        ensures
            match r {
                Ok(item) => valid_filename(filename@) && item.wf() && item@ == (FileItemView {
                    filename: filename@,
                    level: level as nat,
                    comment: comment@,
                    line_number: line_number as nat,
                }),
                Err(FileItemError::EmptyFilename) => empty_filename(filename@),
                Err(FileItemError::InvalidCharacters(listing)) => !empty_filename(filename@)
                    && any_in(filename@, CharClass::Forbidden) && listing@ == forbidden_listing(),
            },
    {
        match Self::validate_filename(filename.as_str()) {
            Ok(()) => Ok(FileItem { filename, level, comment, line_number }),
            Err(e) => Err(e),
        }
    }

    /// Checks a name: empty names and names with a forbidden character are
    /// refused, every other name is accepted.
    pub fn validate_filename(filename: &str) -> (r: Result<(), FileItemError>)
        ensures
            match r {
                Ok(_) => valid_filename(filename@),
                Err(FileItemError::EmptyFilename) => empty_filename(filename@),
                Err(FileItemError::InvalidCharacters(listing)) => !empty_filename(filename@)
                    && any_in(filename@, CharClass::Forbidden) && listing@ == forbidden_listing(),
            },
    {
        let chars = to_chars(filename);
        let n: usize = chars.len();
        assert(chars@.subrange(0, n as int) =~= filename@);
        proof {
            lemma_trimmed_len(filename@, CharClass::Whitespace);
        }
        proof {
            lemma_trimmed_len(filename@, CharClass::Exactly('/'));
        }
        if trimmed_end(&chars, 0, n, CharClass::Whitespace) == 0 || trimmed_end(
            &chars,
            0,
            n,
            CharClass::Exactly('/'),
        ) == 0 {
            return Err(FileItemError::EmptyFilename);
        }
        if contains_any(&chars, 0, n, CharClass::Forbidden) {
            return Err(FileItemError::invalid_characters());
        }
        Ok(())
    }

    /// Whether the entry stands for a directory. Only the name decides.
    pub fn is_directory(&self) -> (b: bool)
        ensures
            b == is_directory_name(self.filename@),
    {
        let chars = to_chars(self.filename.as_str());
        let n: usize = chars.len();
        assert(chars@.subrange(0, n as int) =~= self.filename@);
        !contains_any(&chars, 0, n, CharClass::Exactly('.')) || (n > 0 && chars[n - 1] == '/')
    }

    /// The name without its directory marker.
    pub fn name(&self) -> (r: &str)
        ensures
            r@ == name_of(self.filename@),
    {
        let chars = to_chars(self.filename.as_str());
        let n: usize = chars.len();
        assert(chars@.subrange(0, n as int) =~= self.filename@);
        let end = trimmed_end(&chars, 0, n, CharClass::Exactly('/'));
        assert(self.filename@.subrange(0, end as int) =~= name_of(self.filename@));
        self.filename.as_str().substring_char(0, end)
    }

    /// The extension of a file: what follows the last dot of its name.
    /// `None` for a directory, and for a name that ends in a dot.
    pub fn extension(&self) -> (r: Option<&str>)
        ensures
            match r {
                Some(ext) => extension_of(self.filename@) == Some(ext@),
                None => extension_of(self.filename@) is None,
            },
    {
        if self.is_directory() {
            return None;
        }
        let chars = to_chars(self.filename.as_str());
        let n: usize = chars.len();
        assert(chars@.subrange(0, n as int) =~= self.filename@);
        let start = trimmed_end(&chars, 0, n, CharClass::Except('.'));
        if start == n {
            None
        } else {
            assert(self.filename@.subrange(start as int, n as int) =~= self.filename@.skip(
                start as int,
            ));
            Some(self.filename.as_str().substring_char(start, n))
        }
    }

    /// The name without its extension: for a file what stands before the
    /// last dot, for a directory the name without its marker.
    pub fn name_without_extension(&self) -> (r: &str)
        ensures
            r@ == stem_of(self.filename@),
    {
        if self.is_directory() {
            return self.name();
        }
        let chars = to_chars(self.filename.as_str());
        let n: usize = chars.len();
        assert(chars@.subrange(0, n as int) =~= self.filename@);
        let start = trimmed_end(&chars, 0, n, CharClass::Except('.'));
        proof {
            lemma_has_dot(self.filename@);
        }
        assert(self.filename@.subrange(0, start - 1) =~= self.filename@.take(start - 1));
        self.filename.as_str().substring_char(0, start - 1)
    }
}

/// A name with a dot has its last dot at `after_last_dot - 1`.
pub proof fn lemma_has_dot(f: Seq<char>)
    requires
        any_in(f, CharClass::Exactly('.')),
    ensures
        0 < after_last_dot(f) <= f.len(),
        f[after_last_dot(f) - 1] == '.',
        forall|i: int| after_last_dot(f) <= i < f.len() ==> f[i] != '.',
{
    lemma_trimmed_len(f, CharClass::Except('.'));
    let i = choose|i: int| 0 <= i < f.len() && CharClass::Exactly('.').has(#[trigger] f[i]);
    assert(!CharClass::Except('.').has(f[i]));
    assert forall|i: int| after_last_dot(f) <= i < f.len() implies f[i] != '.' by {
        assert(CharClass::Except('.').has(f[i]));
    }
}

/// The name of an accepted entry, without its directory marker, is not
/// empty and holds no forbidden character.
pub proof fn lemma_name_of_valid_filename(f: Seq<char>)
    requires
        valid_filename(f),
    ensures
        name_of(f).len() > 0,
        !any_in(name_of(f), CharClass::Forbidden),
{
    let name = name_of(f);
    lemma_trimmed_len(f, CharClass::Exactly('/'));
    if any_in(name, CharClass::Forbidden) {
        let i = choose|i: int| 0 <= i < name.len() && CharClass::Forbidden.has(#[trigger] name[i]);
        assert(name[i] == f[i]);
        assert(CharClass::Forbidden.has(f[i]));
    }
}

} // verus!
