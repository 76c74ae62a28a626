//! A paged list of directory entries with a cursor on the current page.

use vstd::prelude::*;

verus! {

#[derive(Debug, PartialEq, Eq)]
pub enum Entry {
    Directory(String),
    File(String),
}

/// The name an entry shows.
pub open spec fn name_of(e: Entry) -> String {
    match e {
        Entry::Directory(n) => n,
        Entry::File(n) => n,
    }
}

impl Entry {
    pub fn get_name(&self) -> (r: &String)
        ensures
            *r == name_of(*self),
    {
        match self {
            Entry::File(name) => name,
            Entry::Directory(name) => name,
        }
    }
}

/// Number of pages of `h` entries that `len` entries fill.
pub open spec fn pages_for(len: nat, h: nat) -> nat
    recommends
        h > 0,
{
    if len % h == 0 {
        len / h
    } else {
        len / h + 1
    }
}

proof fn lemma_page_start(len: nat, h: nat, p: nat)
    requires
        h > 0,
        p < pages_for(len, h),
    ensures
        p * h < len,
{
    assert(len == h * (len / h) + len % h) by (nonlinear_arith)
        requires
            h > 0,
    ;
    if p < len / h {
        assert(p * h < len) by (nonlinear_arith)
            requires
                p < len / h,
                h > 0,
                len == h * (len / h) + len % h,
                len % h >= 0,
        ;
    } else {
        assert(len % h != 0);
        assert(p == len / h);
        assert(p * h < len) by (nonlinear_arith)
            requires
                p == len / h,
                h > 0,
                len == h * (len / h) + len % h,
                len % h > 0,
        ;
    }
}

proof fn lemma_pages_positive(len: nat, h: nat)
    requires
        h > 0,
        len > 0,
    ensures
        pages_for(len, h) > 0,
{
    if len / h == 0 {
        assert(len % h == len) by (nonlinear_arith)
            requires
                h > 0,
                len / h == 0,
        ;
    }
}

/// The entries a list of references points to.
pub open spec fn derefs(s: Seq<&Entry>) -> Seq<Entry> {
    s.map_values(|e: &Entry| *e)
}

#[derive(Debug, PartialEq)]
pub struct FileList {
    pub entries: Vec<Entry>,
    pub cursor: usize,
    pub page_index: usize,
    pub height: usize,
}

impl FileList {
    /// The page is a real one, or the first; the cursor stays on the page.
    pub open spec fn wf(&self) -> bool {
        &&& self.height > 0
        &&& (self.page_index == 0 || self.page_index * self.height < self.entries.len())
        &&& (self.cursor == 0 || self.cursor < self.page().len())
    }

    /// The number of pages the entries fill.
    pub open spec fn page_count(&self) -> nat {
        pages_for(self.entries.len() as nat, self.height as nat)
    }

    /// The entries of the current page.
    pub open spec fn page(&self) -> Seq<Entry> {
        let start = self.page_index * self.height;
        let len = self.entries.len();
        if start >= len {
            Seq::empty()
        } else if start + self.height >= len {
            self.entries@.subrange(start as int, len as int)
        } else {
            self.entries@.subrange(start as int, start + self.height)
        }
    }

    proof fn lemma_page_len(&self)
        requires
            self.height > 0,
            self.page_index == 0 || self.page_index * self.height < self.entries.len(),
        ensures
            self.entries.len() > 0 ==> self.page().len() > 0,
            self.page().len() <= self.height,
    {
        assert(self.page_index == 0 ==> self.page_index * self.height == 0) by (nonlinear_arith);
    }

    /// Moves the cursor one up, from the top to the bottom of the page.
    pub fn move_cursor_up(&mut self)
        requires
            old(self).wf(),
        ensures
            final(self).wf(),
            final(self).entries == old(self).entries,
            final(self).page_index == old(self).page_index,
            final(self).height == old(self).height,
            final(self).cursor == if old(self).page().len() == 0 {
                old(self).cursor as int
            } else if old(self).cursor == 0 {
                old(self).page().len() - 1
            } else {
                old(self).cursor - 1
            },
    {
        let page_size = self.page_size();
        if page_size == 0 {
            return;
        }
        let new_cursor = if self.cursor == 0 {
            page_size - 1
        } else {
            self.cursor - 1
        };
        self.cursor = new_cursor;
    }

    /// Moves the cursor one down, from the bottom to the top of the page.
    pub fn move_cursor_down(&mut self)
        requires
            old(self).wf(),
        ensures
            final(self).wf(),
            final(self).entries == old(self).entries,
            final(self).page_index == old(self).page_index,
            final(self).height == old(self).height,
            final(self).cursor == if old(self).page().len() == 0 {
                old(self).cursor as int
            } else if old(self).cursor == old(self).page().len() - 1 {
                0
            } else {
                old(self).cursor + 1
            },
    {
        let page_size = self.page_size();
        if page_size == 0 {
            return;
        }
        let new_cursor = if self.cursor == page_size - 1 {
            0
        } else {
            self.cursor + 1
        };
        self.cursor = new_cursor;
    }

    fn page_size(&self) -> (r: usize)
        requires
            self.height > 0,
            self.page_index == 0 || self.page_index * self.height < self.entries.len(),
        ensures
            r == self.page().len(),
    {
        proof {
            self.lemma_page_len();
        }
        let len = self.entries.len();
        if self.page_index == 0 {
            if self.height >= len {
                len
            } else {
                self.height
            }
        } else {
            let start = self.page_index * self.height;
            if start >= len {
                0
            } else if len - start <= self.height {
                len - start
            } else {
                self.height
            }
        }
    }

    fn set_page(&mut self, new_page: usize)
        requires
            old(self).height > 0,
            new_page < old(self).page_count(),
        ensures
            final(self).wf(),
            final(self).entries == old(self).entries,
            final(self).height == old(self).height,
            final(self).page_index == new_page,
            final(self).cursor == if old(self).cursor < final(self).page().len() {
                old(self).cursor as int
            } else {
                final(self).page().len() - 1
            },
    {
        proof {
            lemma_page_start(self.entries.len() as nat, self.height as nat, new_page as nat);
        }
        self.page_index = new_page;
        let page_size = self.page_size();
        proof {
            self.lemma_page_len();
        }
        if self.cursor > page_size - 1 {
            self.cursor = page_size - 1;
        }
    }

    /// Goes to the next page, from the last to the first, keeping the cursor
    /// on the page.
    pub fn move_page_forward(&mut self)
        requires
            old(self).wf(),
        ensures
            final(self).wf(),
            final(self).entries == old(self).entries,
            final(self).height == old(self).height,
            old(self).page_count() == 0 ==> *final(self) == *old(self),
            old(self).page_count() > 0 ==> final(self).page_index == if old(self).page_index
                == old(self).page_count() - 1 {
                0
            } else {
                old(self).page_index + 1
            },
            old(self).page_count() > 0 ==> final(self).cursor == if old(self).cursor
                < final(self).page().len() {
                old(self).cursor as int
            } else {
                final(self).page().len() - 1
            },
    {
        let page_count = self.get_page_count();
        if page_count == 0 {
            return;
        }
        proof {
            if self.page_index > 0 {
                self.lemma_page_index_in_range();
            }
        }
        let new_page = if self.page_index == page_count - 1 {
            0
        } else {
            self.page_index + 1
        };
        self.set_page(new_page);
    }

    proof fn lemma_page_index_in_range(&self)
        requires
            self.height > 0,
            self.page_index * self.height < self.entries.len(),
        ensures
            self.page_index < self.page_count(),
    {
        let len = self.entries.len() as nat;
        let h = self.height as nat;
        let p = self.page_index as nat;
        assert(len == h * (len / h) + len % h) by (nonlinear_arith)
            requires
                h > 0,
        ;
        assert(p <= len / h) by (nonlinear_arith)
            requires
                p * h < len,
                h > 0,
                len == h * (len / h) + len % h,
                len % h < h,
        ;
        if p == len / h {
            assert(len % h != 0) by (nonlinear_arith)
                requires
                    p * h < len,
                    p == len / h,
                    len == h * (len / h) + len % h,
            ;
        }
    }

    /// Goes to the previous page, from the first to the last, keeping the
    /// cursor on the page.
    pub fn move_page_back(&mut self)
        requires
            old(self).wf(),
        ensures
            final(self).wf(),
            final(self).entries == old(self).entries,
            final(self).height == old(self).height,
            old(self).page_count() == 0 ==> *final(self) == *old(self),
            old(self).page_count() > 0 ==> final(self).page_index == if old(self).page_index
                == 0 {
                old(self).page_count() - 1
            } else {
                old(self).page_index - 1
            },
            old(self).page_count() > 0 ==> final(self).cursor == if old(self).cursor
                < final(self).page().len() {
                old(self).cursor as int
            } else {
                final(self).page().len() - 1
            },
    {
        let page_count = self.get_page_count();
        if page_count == 0 {
            return;
        }
        proof {
            if self.page_index > 0 {
                self.lemma_page_index_in_range();
            }
        }
        let new_page = if self.page_index == 0 {
            page_count - 1
        } else {
            self.page_index - 1
        };
        self.set_page(new_page);
    }

    /// The entries of the current page.
    pub fn get_page_entries(&self) -> (r: Vec<&Entry>)
        requires
            self.wf(),
        ensures
            derefs(r@) == self.page(),
    {
        let size = self.page_size();
        let start = if size == 0 {
            0
        } else {
            self.page_index * self.height
        };
        let mut r: Vec<&Entry> = Vec::new();
        let mut i: usize = 0;
        while i < size
            invariant
                self.wf(),
                size == self.page().len(),
                size > 0 ==> start == self.page_index * self.height,
                start + size <= self.entries.len(),
                i <= size,
                derefs(r@) == self.page().take(i as int),
            decreases size - i,
        {
            proof {
                self.lemma_page_len();
                assert(self.page()[i as int] == self.entries@[start + i]);
            }
            let ghost r0 = r@;
            r.push(&self.entries[start + i]);
            assert(derefs(r@) =~= derefs(r0).push(self.entries@[start + i]));
            i += 1;
            assert(derefs(r@) =~= self.page().take(i as int));
        }
        assert(self.page().take(size as int) =~= self.page());
        r
    }

    /// Starts over with pages of `height` entries.
    pub fn resize(&mut self, height: usize)
        requires
            height > 0,
        ensures
            final(self).wf(),
            final(self).entries == old(self).entries,
            final(self).cursor == 0,
            final(self).page_index == 0,
            final(self).height == height,
    {
        self.cursor = 0;
        self.page_index = 0;
        self.height = height;
    }

    /// The entry under the cursor, if any.
    pub fn get_selection(&self) -> (r: Option<&Entry>)
        requires
            self.wf(),
        ensures
            self.cursor < self.page().len() ==> r == Some(&self.page()[self.cursor as int]),
            self.cursor >= self.page().len() ==> r is None,
    {
        let size = self.page_size();
        if self.cursor < size {
            Some(&self.entries[self.page_index * self.height + self.cursor])
        } else {
            None
        }
    }

    /// Replaces the entries and goes back to the first page.
    pub fn set_entries(&mut self, new_entries: Vec<Entry>)
        requires
            old(self).height > 0,
        ensures
            final(self).wf(),
            final(self).entries == new_entries,
            final(self).cursor == 0,
            final(self).page_index == 0,
            final(self).height == old(self).height,
    {
        self.cursor = 0;
        self.page_index = 0;
        self.entries = new_entries;
    }

    /// The number of pages.
    pub fn get_page_count(&self) -> (r: usize)
        requires
            self.height > 0,
        ensures
            r == self.page_count(),
    {
        let len = self.entries.len();
        if len % self.height == 0 {
            len / self.height
        } else {
            proof {
                if self.height == 1 {
                    assert(len % 1 == 0);
                }
                assert(len / self.height <= len / 2) by (nonlinear_arith)
                    requires
                        self.height >= 2,
                ;
            }
            len / self.height + 1
        }
    }
}

} // verus!
