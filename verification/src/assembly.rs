use crate::bytes::append_bytes;
use vstd::prelude::*;

verus! {

/// Mathematical model of a file being put together.
pub struct AssemblyView {
    pub count: nat,
    pub next: nat,
    pub content: Seq<u8>,
}

/// A file being put together from its verified pieces, in the order of
/// their indices.
#[derive(Debug)]
pub struct FileAssembly {
    count: usize,
    next: usize,
    content: Vec<u8>,
}

impl View for FileAssembly {
    type V = AssemblyView;

    closed spec fn view(&self) -> AssemblyView {
        AssemblyView { count: self.count as nat, next: self.next as nat, content: self.content@ }
    }
}

impl FileAssembly {
    /// An assembly of `count` pieces that holds none yet.
    pub fn new(count: usize) -> (assembly: FileAssembly)
        ensures
            assembly@ == (AssemblyView { count: count as nat, next: 0, content: Seq::empty() }),
    {
        FileAssembly { count, next: 0, content: Vec::new() }
    }

    /// The index of the piece to download next; `None` when all are there.
    pub fn next_piece(&self) -> (r: Option<usize>)
        ensures
            match r {
                Some(index) => index == self@.next && self@.next < self@.count,
                None => self@.next >= self@.count,
            },
    {
        if self.next < self.count {
            Some(self.next)
        } else {
            None
        }
    }

    /// Takes the piece with the index `next_piece` and puts it behind
    /// the pieces before it. A piece beyond the last is not taken.
    pub fn add_piece(&mut self, piece: &[u8]) -> (taken: bool)
        ensures
            taken == (old(self)@.next < old(self)@.count),
            taken ==> final(self)@ == (AssemblyView {
                count: old(self)@.count,
                next: old(self)@.next + 1,
                content: old(self)@.content + piece@,
            }),
            !taken ==> final(self)@ == old(self)@,
    {
        if self.next < self.count {
            append_bytes(&mut self.content, piece);
            self.next = self.next + 1;
            true
        } else {
            false
        }
    }

    /// The file, where every piece is there: there is no file made of
    /// some of its pieces.
    pub fn into_file(self) -> (r: Option<Vec<u8>>)
        ensures
            match r {
                Some(file) => self@.next == self@.count && file@ == self@.content,
                None => self@.next != self@.count,
            },
    {
        if self.next == self.count {
            Some(self.content)
        } else {
            None
        }
    }
}

} // verus!
