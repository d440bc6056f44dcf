//! The bytes of a file that has been mapped or read, and where they came from.
//!
//! Mapping and reading are the caller's: this is what either leaves behind, and
//! both give the same [`File::as_slice`].
use vstd::prelude::*;

verus! {

/// The bytes of a file and its path.
#[derive(Debug)]
pub struct File<'a> {
    bytes: &'a [u8],
    path: String,
}

impl<'a> File<'a> {
    /// The bytes.
    pub closed spec fn content(&self) -> Seq<u8> {
        self.bytes@
    }

    /// The path, as it stands in messages.
    pub closed spec fn source(&self) -> Seq<char> {
        self.path@
    }

    /// A mapped file. An empty file cannot be mapped.
    pub fn open(bytes: &'a [u8], path: &str) -> (r: Result<File<'a>, String>)
        ensures
            match r {
                Ok(f) => bytes@.len() > 0 && f.content() == bytes@ && f.source() == path@,
                Err(e) => bytes@.len() == 0 && e@ == path@ + ": file is empty"@,
            },
    {
        if bytes.len() == 0 {
            let mut e = path.to_owned();
            e.append(": file is empty");
            return Err(e);
        }
        Ok(File { bytes, path: path.to_owned() })
    }

    /// A file read into the heap, which may be empty.
    pub fn read(bytes: &'a [u8], path: &str) -> (r: File<'a>)
        ensures
            r.content() == bytes@,
            r.source() == path@,
    {
        File { bytes, path: path.to_owned() }
    }

    /// The whole file.
    pub fn as_slice(&self) -> (r: &'a [u8])
        ensures
            r@ == self.content(),
    {
        self.bytes
    }

    /// How many bytes the file has.
    pub fn len(&self) -> (r: usize)
        ensures
            r == self.content().len(),
    {
        self.bytes.len()
    }

    /// Has the file no bytes?
    pub fn is_empty(&self) -> (r: bool)
        ensures
            r == (self.content().len() == 0),
    {
        self.bytes.len() == 0
    }

    /// The path that the file was opened from.
    pub fn path(&self) -> (r: &str)
        ensures
            r@ == self.source(),
    {
        self.path.as_str()
    }
}

} // verus!
