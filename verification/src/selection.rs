//! The selection: the indexed list of pathnames from the last query, which
//! open commands refer to by number.

use vstd::prelude::*;
use vstd::slice::slice_index_get;

verus! {

/// One selected entry: a pathname and its optional size.
#[derive(Debug, PartialEq)]
pub struct SelectionItem {
    /// The pathname, as bytes.
    pub path: Vec<u8>,
    /// File size, if the database stored one.
    pub size: Option<u64>,
}

/// The mathematical form of a selection.
pub open spec fn selection_view(s: Seq<SelectionItem>) -> Seq<(Seq<u8>, Option<u64>)> {
    s.map(|i: int, e: SelectionItem| (e.path@, e.size))
}

/// An indexed list of query results.
pub struct Selection {
    items: Vec<SelectionItem>,
}

impl Selection {
    /// The selected entries, in insertion order.
    pub closed spec fn view(&self) -> Seq<(Seq<u8>, Option<u64>)> {
        selection_view(self.items@)
    }

    /// An empty selection.
    pub fn new() -> (r: Selection)
        ensures
            r@ == Seq::<(Seq<u8>, Option<u64>)>::empty(),
    {
        let r = Selection { items: Vec::new() };
        proof {
            assert(r@ =~= Seq::<(Seq<u8>, Option<u64>)>::empty());
        }
        r
    }

    /// Append one entry, copying the pathname.
    pub fn insert(&mut self, path: &[u8], size: Option<u64>)
        ensures
            final(self)@ == old(self)@.push((path@, size)),
    {
        let mut buf: Vec<u8> = Vec::new();
        let n = path.len();
        let mut i: usize = 0;
        while i < n
            invariant
                i <= n == path@.len(),
                buf@ =~= path@.take(i as int),
            decreases n - i,
        {
            buf.push(path[i]);
            i = i + 1;
        }
        proof {
            assert(buf@ =~= path@);
        }
        self.items.push(SelectionItem { path: buf, size });
        proof {
            assert(self@ =~= old(self)@.push((path@, size)));
        }
    }

    /// Append one entry, taking the pathname over.
    pub fn insert_owned(&mut self, path: Vec<u8>, size: Option<u64>)
        ensures
            final(self)@ == old(self)@.push((path@, size)),
    {
        self.items.push(SelectionItem { path, size });
        proof {
            assert(self@ =~= old(self)@.push((path@, size)));
        }
    }

    /// Walk the selection from the front.
    pub fn iter<'a>(&'a self) -> (r: SelectionIter<'a>)
        ensures
            selection_view(r.items@) == self@,
            r.pos == 0,
    {
        SelectionIter { items: self.items.as_slice(), pos: 0 }
    }
}

/// A selection that records nothing.
pub struct NoSelection {}

impl NoSelection {
    /// A fresh, inert selection.
    pub fn new() -> NoSelection {
        NoSelection {  }
    }

    /// Discard one entry.
    pub fn insert(&mut self, _path: &[u8], _size: Option<u64>) {
    }

    /// Discard one owned entry.
    pub fn insert_owned(&mut self, _path: Vec<u8>, _size: Option<u64>) {
    }
}

/// A walk over a selection.
pub struct SelectionIter<'a> {
    /// The entries being walked.
    pub items: &'a [SelectionItem],
    /// The next entry to hand out.
    pub pos: usize,
}

impl<'a> SelectionIter<'a> {
    /// The next entry, or `None` past the end.
    pub fn next(&mut self) -> (r: Option<&'a SelectionItem>)
        ensures
            old(self).pos < old(self).items@.len() ==> (r matches Some(x) && *x == old(
                self,
            ).items@[old(self).pos as int] && final(self).pos == old(self).pos + 1),
            old(self).pos >= old(self).items@.len() ==> r is None && *final(self) == *old(self),
            final(self).items@ == old(self).items@,
    {
        if self.pos < self.items.len() {
            let r = slice_index_get(self.items, self.pos);
            self.pos = self.pos + 1;
            Some(r)
        } else {
            None
        }
    }
}

} // verus!
