//! A value together with the place in a source file it was read from.

use vstd::prelude::*;
use crate::strings::{concat_str, copy_str, decimal, usize_to_string};

verus! {

/// A value together with the line, column and file it was read from.
#[derive(Clone, Debug, PartialEq, Eq)]
pub struct Pos<T> {
    pub inner: T,
    pub line: usize,
    pub column: usize,
    pub file_path: Option<String>,
}

impl<T> Pos<T> {
    pub fn new(line: usize, column: usize, file_path: Option<String>, inner: T) -> (r: Self)
        ensures
            r.line == line,
            r.column == column,
            r.file_path == file_path,
            r.inner == inner,
    {
        Pos { line, column, file_path, inner }
    }

    /// Records where the value was read: line, column and file.
    pub fn set_position(&mut self, position: (usize, usize, &str))
        ensures
            final(self).line == position.0,
            final(self).column == position.1,
            final(self).file_path matches Some(p) && p@ == position.2@,
            final(self).inner == old(self).inner,
    {
        self.line = position.0;
        self.column = position.1;
        self.file_path = Some(copy_str(position.2));
    }

    /// The trace for formats that record no position: `default` when no
    /// file is known, nothing otherwise.
    pub fn to_trace_err<'a>(&self, default: &'a str) -> (r: Option<&'a str>)
        ensures
            r == (if self.file_path is Some {
                None
            } else {
                Some(default)
            }),
    {
        if self.pos_trace_is_supported() {
            return None;
        }
        Some(default)
    }

    /// The position as `file line#column`, or `default` when no file is
    /// known.
    pub fn to_pos_trace_err(&self, default: String) -> (r: Option<String>)
        ensures
            self.file_path is None ==> r == Some(default),
            self.file_path matches Some(p) ==> r matches Some(s) && s@ == p@ + " "@ + decimal(
                self.line as nat,
            ) + "#"@ + decimal(self.column as nat),
    {
        match &self.file_path {
            None => Some(default),
            Some(p) => {
                let s = concat_str(p.as_str(), " ");
                let line = usize_to_string(self.line);
                let s = concat_str(s.as_str(), line.as_str());
                let s = concat_str(s.as_str(), "#");
                let column = usize_to_string(self.column);
                let s = concat_str(s.as_str(), column.as_str());
                Some(s)
            },
        }
    }

    /// Whether the position is known, which it is when the file is.
    pub fn pos_trace_is_supported(&self) -> (r: bool)
        ensures
            r == self.file_path is Some,
    {
        self.file_path.is_some()
    }

    /// Whether the position is unknown, which it is when the file is.
    pub fn pos_trace_is_unsupported(&self) -> (r: bool)
        ensures
            r == self.file_path is None,
    {
        self.file_path.is_none()
    }

    /// The value.
    pub fn inner(&self) -> (r: &T)
        ensures
            *r == self.inner,
    {
        &self.inner
    }
}

/// A configuration value that records where each of its fields was read.
pub trait PositionedConfig {
    /// Records that `field` was read at the given line, column and file.
    fn set_field_position(&mut self, field: &str, position: (usize, usize, &str));
}

} // verus!
