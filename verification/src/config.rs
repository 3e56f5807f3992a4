//! Positions in configuration files and paths given in them.

use vstd::prelude::*;
use crate::text::{decimal, push_decimal, push_str};

verus! {

//------------ LineCol -------------------------------------------------------

/// A position in a file: the line and the column, both counted from zero.
#[derive(Clone, Copy, Debug, PartialEq, Eq, Structural)]
pub struct LineCol {
    pub line: usize,
    pub col: usize,
}

//------------ Marked --------------------------------------------------------

/// A value marked with its position in a configuration file.
#[derive(Clone, Debug)]
pub struct Marked<T> {
    /// The value.
    value: T,

    /// The byte index of the value in the file.
    index: usize,

    /// The path of the file, if known.
    source: Option<String>,

    /// The line and column of the value, if known.
    pos: Option<LineCol>,
}

/// The text of a mark: the file and the position, separated by colons,
/// where known.
pub open spec fn mark_text(source: Option<Seq<char>>, pos: Option<LineCol>) -> Seq<char> {
    match (source, pos) {
        (Some(source), Some(pos)) => source + ":"@ + decimal(pos.line as nat) + ":"@ + decimal(
            pos.col as nat,
        ),
        (Some(source), None) => source,
        (None, Some(pos)) => decimal(pos.line as nat) + ":"@ + decimal(pos.col as nat),
        (None, None) => Seq::empty(),
    }
}

impl<T> Marked<T> {
    /// The value.
    pub closed spec fn value_spec(&self) -> T {
        self.value
    }

    /// The byte index of the value.
    pub closed spec fn index_spec(&self) -> usize {
        self.index
    }

    /// The path of the file, if known.
    pub closed spec fn source_spec(&self) -> Option<Seq<char>> {
        match self.source {
            Some(source) => Some(source@),
            None => None,
        }
    }

    /// The line and column, if known.
    pub closed spec fn pos_spec(&self) -> Option<LineCol> {
        self.pos
    }

    /// Creates a marked value.
    pub fn new(value: T, index: usize, source: Option<String>, pos: Option<LineCol>) -> (res: Marked<T>)
        ensures
            res.value_spec() == value,
            res.index_spec() == index,
            res.source_spec() == (match source {
                Some(source) => Some(source@),
                None => None,
            }),
            res.pos_spec() == pos,
    {
        Marked { value, index, source, pos }
    }

    /// Returns a reference to the value.
    pub fn as_inner(&self) -> (res: &T)
        ensures
            *res == self.value_spec(),
    {
        &self.value
    }

    /// Converts the marked value into is unmarked value.
    pub fn into_inner(self) -> (res: T)
        ensures
            res == self.value_spec(),
    {
        self.value
    }

    /// Marks some other value with this value’s position.
    pub fn mark<U>(&self, value: U) -> (res: Marked<U>)
        ensures
            res.value_spec() == value,
            res.index_spec() == self.index_spec(),
            res.source_spec() == self.source_spec(),
            res.pos_spec() == self.pos_spec(),
    {
        let source = match &self.source {
            Some(source) => {
                let mut copy = String::new();
                push_str(&mut copy, source.as_str());
                proof {
                    assert(copy@ =~= source@);
                }
                Some(copy)
            },
            None => None,
        };
        Marked { value, index: self.index, source, pos: self.pos }
    }

    /// Sets the position of the value from the file it was read from.
    pub fn resolve_config(&mut self, config: &ConfigFile)
        requires
            config.starts() == line_starts(config.data()),
            config.data().len() < usize::MAX,
        ensures
            final(self).value_spec() == old(self).value_spec(),
            final(self).index_spec() == old(self).index_spec(),
            final(self).source_spec() == match config.path_spec() {
                Some(path) => Some(path@),
                None => None,
            },
            final(self).pos_spec() matches Some(pos) && config.is_pos_of(old(self).index_spec(), pos),
    {
        self.source = match config.path() {
            Some(path) => Some(path.clone()),
            None => None,
        };
        self.pos = Some(config.resolve_pos(self.index));
    }

    /// Formats the mark for displaying.
    pub fn format_mark(&self) -> (res: String)
        ensures
            res@ == mark_text(self.source_spec(), self.pos_spec()),
    {
        let mut res = String::new();
        match (&self.source, self.pos) {
            (Some(source), Some(pos)) => {
                push_str(&mut res, source.as_str());
                push_str(&mut res, ":");
                push_decimal(&mut res, pos.line as u128);
                push_str(&mut res, ":");
                push_decimal(&mut res, pos.col as u128);
            },
            (Some(source), None) => {
                push_str(&mut res, source.as_str());
            },
            (None, Some(pos)) => {
                push_decimal(&mut res, pos.line as u128);
                push_str(&mut res, ":");
                push_decimal(&mut res, pos.col as u128);
            },
            (None, None) => {},
        }
        proof {
            assert(res@ =~= mark_text(self.source_spec(), self.pos_spec()));
        }
        res
    }
}

//------------ ConfigFile ----------------------------------------------------

/// The indexes where the lines of a text start: zero, after each line
/// feed, and one past the end of the text.
pub open spec fn line_starts(bytes: Seq<u8>) -> Seq<usize>
    decreases bytes.len(),
{
    if bytes.len() == 0 {
        seq![0usize, 1usize]
    } else if bytes.last() == 10 {
        line_starts(bytes.drop_last()).drop_last().push(bytes.len() as usize).push(
            (bytes.len() + 1) as usize,
        )
    } else {
        line_starts(bytes.drop_last()).drop_last().push((bytes.len() + 1) as usize)
    }
}

/// The line starts are increasing, start at zero and end after the text.
pub proof fn lemma_line_starts(bytes: Seq<u8>)
    requires
        bytes.len() < usize::MAX,
    ensures
        line_starts(bytes).len() >= 2,
        line_starts(bytes)[0] == 0,
        line_starts(bytes).last() == bytes.len() + 1,
        forall|i: int, j: int|
            0 <= i < j < line_starts(bytes).len() ==> line_starts(bytes)[i] < line_starts(
                bytes,
            )[j],
    decreases bytes.len(),
{
    if bytes.len() > 0 {
        lemma_line_starts(bytes.drop_last());
    }
}

/// A configuration file.
#[derive(Clone, Debug)]
pub struct ConfigFile {
    /// The path of the file, if known.
    path: Option<String>,

    /// The data of this file.
    bytes: String,

    /// The start indexes of lines.
    ///
    /// The start index of the first line is in `line_starts[0]` and so on.
    line_starts: Vec<usize>,
}

impl ConfigFile {
    /// The content of the file is valid.
    pub closed spec fn wf(&self) -> bool {
        &&& self.bytes@.len() < usize::MAX
        &&& self.line_starts@ == line_starts(vstd::utf8::encode_utf8(self.bytes@))
        &&& vstd::utf8::encode_utf8(self.bytes@).len() < usize::MAX
    }

    /// The bytes of the file.
    pub closed spec fn data(&self) -> Seq<u8> {
        vstd::utf8::encode_utf8(self.bytes@)
    }

    /// The start indexes of the lines.
    pub closed spec fn starts(&self) -> Seq<usize> {
        self.line_starts@
    }

    /// Creates a file from its path and content.
    pub fn new(path: Option<String>, bytes: String) -> (res: ConfigFile)
        requires
            vstd::utf8::encode_utf8(bytes@).len() < usize::MAX,
        ensures
            res.data() == vstd::utf8::encode_utf8(bytes@),
            res.starts() == line_starts(res.data()),
    {
        let data = bytes.as_str().as_bytes();
        let mut starts: Vec<usize> = Vec::new();
        starts.push(0);
        starts.push(1);
        let mut i: usize = 0;
        proof {
            assert(data@.take(0) =~= Seq::<u8>::empty());
            assert(starts@ =~= line_starts(data@.take(0)));
        }
        while i < data.len()
            invariant
                i <= data@.len(),
                data@.len() < usize::MAX,
                starts@ == line_starts(data@.take(i as int)),
            decreases data@.len() - i,
        {
            proof {
                let t = data@.take(i + 1);
                assert(t.drop_last() =~= data@.take(i as int));
                lemma_line_starts(data@.take(i as int));
            }
            let last = starts.pop().unwrap();
            if data[i] == 10 {
                starts.push(i + 1);
            }
            starts.push(i + 2);
            i = i + 1;
            proof {
                assert(starts@ =~= line_starts(data@.take(i as int)));
            }
        }
        proof {
            assert(data@.take(data@.len() as int) =~= data@);
        }
        ConfigFile { path, bytes, line_starts: starts }
    }

    /// The path of the file, if known.
    pub closed spec fn path_spec(&self) -> Option<String> {
        self.path
    }

    /// Returns the path of the file, if known.
    pub fn path(&self) -> (res: Option<&String>)
        ensures
            res == match self.path_spec() {
                Some(path) => Some(&path),
                None => None::<&String>,
            },
    {
        match &self.path {
            Some(path) => Some(path),
            None => None,
        }
    }

    /// Returns the content of the file.
    pub fn bytes(&self) -> (res: &str)
        ensures
            vstd::utf8::encode_utf8(res@) == self.data(),
    {
        self.bytes.as_str()
    }

    /// Whether `lc` is the line and column of the byte index `pos`: the
    /// line is the last one that starts at or before the index.
    pub open spec fn is_pos_of(&self, pos: usize, lc: LineCol) -> bool {
        &&& 0 <= lc.line < self.starts().len()
        &&& self.starts()[lc.line as int] <= pos
        &&& lc.line + 1 < self.starts().len() ==> pos < self.starts()[lc.line + 1]
        &&& lc.col == pos - self.starts()[lc.line as int]
    }

    /// Returns the line and column of a byte index.
    ///
    /// The line is the last one that starts at or before the index.
    pub fn resolve_pos(&self, pos: usize) -> (res: LineCol)
        requires
            self.starts() == line_starts(self.data()),
            self.data().len() < usize::MAX,
        ensures
            self.is_pos_of(pos, res),
    {
        proof {
            lemma_line_starts(self.data());
        }
        let starts = &self.line_starts;
        let mut line: usize = 1;
        while line < starts.len() && starts[line] <= pos
            invariant
                1 <= line <= starts@.len(),
                starts@ == self.starts(),
                starts@.len() >= 2,
                starts@[0] == 0,
                forall|i: int, j: int| 0 <= i < j < starts@.len() ==> starts@[i] < starts@[j],
                starts@[line - 1] <= pos,
            decreases starts@.len() - line,
        {
            line = line + 1;
        }
        let line = line - 1;
        LineCol { line, col: pos - starts[line] }
    }
}

//------------ ConfigPath ----------------------------------------------------

/// A path that encountered in a config file.
///
/// Relative paths given in a config file are resolved relative to the
/// location of the config file.
#[derive(Clone, Debug)]
pub struct ConfigPath(String);

/// A path joined to a base path as on Unix: an absolute path replaces the
/// base, a relative one is added after a slash.
pub open spec fn joined(base: Seq<char>, path: Seq<char>) -> Seq<char> {
    if path.len() > 0 && path[0] == '/' {
        path
    } else if base.len() > 0 && base.last() != '/' {
        base + seq!['/'] + path
    } else {
        base + path
    }
}

/// Returns a path joined to a base path as on Unix.
pub fn join_path(base: &str, path: &str) -> (res: String)
    ensures
        res@ == joined(base@, path@),
{
    let mut res = String::new();
    let absolute = path.unicode_len() > 0 && path.get_char(0) == '/';
    if !absolute {
        push_str(&mut res, base);
        let n = base.unicode_len();
        if n > 0 && base.get_char(n - 1) != '/' {
            push_str(&mut res, "/");
            proof {
                reveal_strlit("/");
            }
        }
    }
    push_str(&mut res, path);
    proof {
        assert(res@ =~= joined(base@, path@));
    }
    res
}

impl ConfigPath {
    /// The path.
    pub closed spec fn spec_path(&self) -> Seq<char> {
        self.0@
    }

    /// Creates the path for a value in a config file whose directory is
    /// `base`, if known.
    pub fn from_config(base: Option<&str>, path: &str) -> (res: ConfigPath)
        ensures
            res.spec_path() == match base {
                Some(base) => joined(base@, path@),
                None => path@,
            },
    {
        match base {
            Some(base) => ConfigPath(join_path(base, path)),
            None => ConfigPath(String::from_str(path)),
        }
    }

    /// Returns the path.
    pub fn as_str(&self) -> (res: &str)
        ensures
            res@ == self.spec_path(),
    {
        self.0.as_str()
    }
}

} // verus!
