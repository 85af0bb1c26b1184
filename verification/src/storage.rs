//! Fixed-size page storage over an in-memory file image.
//!
//! The store models the database file as a sequence of 4096-byte pages.
//! Reads past the end of the image yield zero-filled pages, and writes past
//! the end extend the image with zero-filled pages first, which matches the
//! sparse-file semantics of seeking beyond the end of a file before writing.

use vstd::prelude::*;

verus! {

/// Size in bytes of one page, the unit of storage I/O.
pub const PAGE_SIZE: usize = 4096;

/// A page full of zero bytes, as a sequence.
pub open spec fn zero_page() -> Seq<u8> {
    Seq::new(PAGE_SIZE as nat, |i: int| 0u8)
}

/// The content of page `page_id` in the image `pages`: the stored bytes if
/// the page exists, and a zero-filled page otherwise.
pub open spec fn page_at(pages: Seq<Seq<u8>>, page_id: u64) -> Seq<u8> {
    if page_id < pages.len() {
        pages[page_id as int]
    } else {
        zero_page()
    }
}

/// Every page of the image holds exactly `PAGE_SIZE` bytes.
pub open spec fn image_wf(pages: Seq<Seq<u8>>) -> bool {
    forall|i: int| 0 <= i < pages.len() ==> (#[trigger] pages[i]).len() == PAGE_SIZE
}

/// The image after one page write: in place if the page exists, else the
/// image grows with zero-filled pages up to the target.
pub open spec fn store_write(pages: Seq<Seq<u8>>, id: u64, data: Seq<u8>) -> Seq<Seq<u8>> {
    if id < pages.len() {
        pages.update(id as int, data)
    } else {
        pages + Seq::new((id - pages.len()) as nat, |i: int| zero_page()) + seq![data]
    }
}

/// A fixed 4096-byte block identified by a page id.
pub struct Page {
    pub id: u64,
    pub data: Vec<u8>,
}

impl Page {
    pub open spec fn wf(&self) -> bool {
        self.data@.len() == PAGE_SIZE
    }

    /// A fresh zero-filled page with the given id.
    pub fn new(id: u64) -> (r: Page)
        ensures
            r.id == id,
            r.data@ == zero_page(),
            r.wf(),
    {
        let mut data: Vec<u8> = Vec::new();
        while data.len() < PAGE_SIZE
            invariant
                data@.len() <= PAGE_SIZE,
                forall|i: int| 0 <= i < data@.len() ==> data@[i] == 0u8,
            decreases PAGE_SIZE - data@.len(),
        {
            data.push(0u8);
        }
        proof {
            assert(data@ =~= zero_page());
        }
        Page { id, data }
    }
}

/// In-memory image of the database file, as whole pages.
pub struct StorageEngine {
    pages: Vec<Vec<u8>>,
}

impl View for StorageEngine {
    type V = Seq<Seq<u8>>;

    closed spec fn view(&self) -> Seq<Seq<u8>> {
        Seq::new(self.pages@.len(), |i: int| self.pages@[i]@)
    }
}

impl StorageEngine {
    pub open spec fn wf(&self) -> bool {
        image_wf(self@)
    }

    /// An empty image: the file has length zero.
    pub fn new() -> (r: StorageEngine)
        ensures
            r@.len() == 0,
            r.wf(),
    {
        StorageEngine { pages: Vec::new() }
    }

    /// Number of pages the image currently holds.
    pub fn page_count(&self) -> (r: u64)
        ensures
            r == self@.len(),
    {
        self.pages.len() as u64
    }

    /// Reads one page; a page beyond the end of the image is zero-filled.
    pub fn read_page(&self, page_id: u64) -> (r: Page)
        requires
            self.wf(),
        ensures
            r.id == page_id,
            r.data@ == page_at(self@, page_id),
            r.wf(),
    {
        if page_id < self.pages.len() as u64 {
            let data = self.pages[page_id as usize].clone();
            proof {
                assert(data@ == self@[page_id as int]);
            }
            Page { id: page_id, data }
        } else {
            Page::new(page_id)
        }
    }

    /// Writes one page, extending the image with zero-filled pages if the
    /// target lies beyond the current end.
    pub fn write_page(&mut self, page: &Page)
        requires
            old(self).wf(),
            page.wf(),
        ensures
            final(self).wf(),
            final(self)@.len() == if page.id < old(self)@.len() {
                old(self)@.len() as int
            } else {
                page.id + 1
            },
            final(self)@ == store_write(old(self)@, page.id, page.data@),
    {
        let ghost old_pages = self@;
        while (self.pages.len() as u64) < page.id
            invariant
                image_wf(self@),
                old_pages.len() <= self@.len() <= page.id || (old_pages.len() > page.id
                    && self@ == old_pages),
                self@.len() > old_pages.len() ==> self@ == old_pages + Seq::new(
                    (self@.len() - old_pages.len()) as nat,
                    |i: int| zero_page(),
                ),
                self@.len() == old_pages.len() ==> self@ == old_pages,
            decreases
                    if page.id >= self@.len() {
                        page.id - self@.len()
                    } else {
                        0int
                    },
        {
            let ghost prev = self@;
            let z = Page::new(0);
            self.pages.push(z.data);
            proof {
                assert(self@.len() == prev.len() + 1);
                assert(forall|i: int| 0 <= i < prev.len() ==> self@[i] == prev[i]);
                assert(self@[prev.len() as int] == zero_page());
                assert(self@ =~= prev + seq![zero_page()]);
                assert(self@ =~= old_pages + Seq::new(
                    (self@.len() - old_pages.len()) as nat,
                    |i: int| zero_page(),
                ));
            }
        }
        if (self.pages.len() as u64) == page.id {
            self.pages.push(page.data.clone());
            proof {
                if page.id < old_pages.len() {
                    assert(false);
                } else {
                    assert(self@ =~~= old_pages + Seq::new(
                        (page.id - old_pages.len()) as nat,
                        |i: int| zero_page(),
                    ) + seq![page.data@]);
                }
            }
        } else {
            self.pages.set(page.id as usize, page.data.clone());
            proof {
                assert(self@ =~~= old_pages.update(page.id as int, page.data@));
            }
        }
    }

    /// An image built from raw file bytes: whole pages, the last padded
    /// with zeros.
    pub fn from_bytes(bytes: &Vec<u8>) -> (r: StorageEngine)
        requires
            bytes@.len() + PAGE_SIZE <= usize::MAX,
        ensures
            r.wf(),
            r@.len() * PAGE_SIZE >= bytes@.len(),
            bytes@.len() > 0 ==> (r@.len() - 1) * PAGE_SIZE < bytes@.len(),
            bytes@.len() == 0 ==> r@.len() == 0,
            r@.flatten() == bytes@ + Seq::new((r@.len() * PAGE_SIZE - bytes@.len()) as nat,
                |i: int| 0u8),
    {
        let mut pages: Vec<Vec<u8>> = Vec::new();
        let mut pos: usize = 0;
        let blen = bytes.len();
        proof {
            assert(Seq::<Seq<u8>>::empty().flatten() =~= Seq::<u8>::empty());
            assert(Seq::new(pages@.len(), |i: int| pages@[i]@).flatten() =~= Seq::<u8>::empty());
        }
        while pos < blen
            invariant
                blen == bytes@.len(),
                blen + PAGE_SIZE <= usize::MAX,
                pos <= blen + PAGE_SIZE,
                pos == pages@.len() * PAGE_SIZE,
                pos == 0 || pos - PAGE_SIZE < blen,
                forall|i: int| 0 <= i < pages@.len() ==> (#[trigger] pages@[i])@.len()
                    == PAGE_SIZE,
                Seq::new(pages@.len(), |i: int| pages@[i]@).flatten() == bytes@.take(
                    if pos <= blen {
                        pos as int
                    } else {
                        blen as int
                    },
                ) + Seq::new(
                    (if pos <= blen {
                        0int
                    } else {
                        pos - blen
                    }) as nat,
                    |i: int| 0u8,
                ),
            decreases
                    if pos >= blen {
                        0int
                    } else {
                        blen - pos
                    },
        {
            let ghost old_pages = Seq::new(pages@.len(), |i: int| pages@[i]@);
            let mut page: Vec<u8> = Vec::new();
            let mut j: usize = 0;
            while j < PAGE_SIZE
                invariant
                    j <= PAGE_SIZE,
                    blen == bytes@.len(),
                    blen + PAGE_SIZE <= usize::MAX,
                    pos + j <= blen + PAGE_SIZE,
                    page@.len() == j,
                    page@ == if pos + j <= blen {
                        bytes@.subrange(pos as int, pos + j as int)
                    } else if pos <= blen {
                        bytes@.subrange(pos as int, blen as int) + Seq::new(
                            (pos + j - blen) as nat,
                            |i: int| 0u8,
                        )
                    } else {
                        Seq::new(j as nat, |i: int| 0u8)
                    },
                    pos < blen,
                decreases PAGE_SIZE - j,
            {
                if pos + j < blen {
                    page.push(bytes[pos + j]);
                } else {
                    page.push(0u8);
                }
                proof {
                    if pos + j + 1 <= blen {
                        assert(page@ =~= bytes@.subrange(pos as int, pos + j + 1 as int));
                    } else {
                        assert(page@ =~= bytes@.subrange(pos as int, blen as int) + Seq::new(
                            (pos + j + 1 - blen) as nat,
                            |i: int| 0u8,
                        ));
                    }
                }
                j += 1;
            }
            let ghost pv = page@;
            pages.push(page);
            proof {
                let cur = Seq::new(pages@.len(), |i: int| pages@[i]@);
                assert(cur =~= old_pages.push(pv));
                old_pages.lemma_flatten_push(pv);
                if pos + PAGE_SIZE <= blen {
                    assert(cur.flatten() =~= bytes@.take(pos + PAGE_SIZE as int));
                } else {
                    assert(cur.flatten() =~= bytes@.take(blen as int) + Seq::new(
                        (pos + PAGE_SIZE - blen) as nat,
                        |i: int| 0u8,
                    ));
                    assert(bytes@.take(blen as int) =~= bytes@);
                }
            }
            pos += PAGE_SIZE;
        }
        let r = StorageEngine { pages };
        proof {
            assert(r@ == Seq::new(r.pages@.len(), |i: int| r.pages@[i]@));
            if blen == 0 {
                assert(r@.len() == 0);
                assert(r@.flatten() =~= bytes@ + Seq::new(0nat, |i: int| 0u8));
            } else {
                assert(bytes@.take(blen as int) =~= bytes@);
                assert(r@.flatten() =~= bytes@ + Seq::new(
                    (r@.len() * PAGE_SIZE - bytes@.len()) as nat,
                    |i: int| 0u8,
                ));
            }
        }
        r
    }

    /// The raw bytes of the whole image, page after page.
    pub fn to_bytes(&self) -> (r: Vec<u8>)
        requires
            self.wf(),
        ensures
            r@ == self@.flatten(),
    {
        let mut out: Vec<u8> = Vec::new();
        let mut i: usize = 0;
        proof {
            assert(self@.take(0) =~= Seq::<Seq<u8>>::empty());
            assert(Seq::<Seq<u8>>::empty().flatten() =~= Seq::<u8>::empty());
        }
        while i < self.pages.len()
            invariant
                i <= self.pages@.len(),
                self@ == Seq::new(self.pages@.len(), |k: int| self.pages@[k]@),
                self@.len() == self.pages@.len(),
                out@ == self@.take(i as int).flatten(),
            decreases self.pages@.len() - i,
        {
            let page = &self.pages[i];
            let mut j: usize = 0;
            let ghost pre = out@;
            while j < page.len()
                invariant
                    j <= page@.len(),
                    out@ == pre + page@.take(j as int),
                decreases page@.len() - j,
            {
                out.push(page[j]);
                proof {
                    assert(out@ =~= pre + page@.take(j + 1 as int));
                }
                j += 1;
            }
            proof {
                assert(page@.take(page@.len() as int) =~= page@);
                self@.take(i as int).lemma_flatten_push(page@);
                assert(self@.take(i + 1 as int) =~= self@.take(i as int).push(self@[i as int]));
                assert(self@[i as int] == page@);
                assert(out@ =~= self@.take(i + 1 as int).flatten());
            }
            i += 1;
        }
        proof {
            assert(self@.take(i as int) =~= self@);
        }
        out
    }

    /// Appends a fresh zero-filled page at the end of the image and returns it.
    pub fn allocate_page(&mut self) -> (r: Page)
        requires
            old(self).wf(),
        ensures
            final(self).wf(),
            r.id == old(self)@.len(),
            r.data@ == zero_page(),
            r.wf(),
            final(self)@ == old(self)@ + seq![zero_page()],
            final(self)@ == store_write(old(self)@, r.id, zero_page()),
    {
        let id = self.pages.len() as u64;
        let page = Page::new(id);
        self.write_page(&page);
        page
    }
}

} // verus!
