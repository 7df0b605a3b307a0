//! The page cache between the table and its database file.
//!
//! The pager keeps the pages of the database file that were read when it was
//! opened, and a cache of the pages in use; reading and writing the file itself
//! is left to the caller, which hands the file's pages in and writes out what
//! `flush` names.
use vstd::prelude::*;
use crate::data::table::{PAGE_SIZE, TABLE_MAX_PAGES};
use crate::errors::PagerError;

verus! {

broadcast use vstd::array::group_array_axioms;

pub struct Pager {
    /// Length in bytes of the database file when it was opened.
    pub file_length: u64,
    /// Number of whole pages in the database file when it was opened.
    pub num_pages: usize,
    /// The page cache: `Some` for a page in use.
    pub pages: Vec<Option<[u8; PAGE_SIZE]>>,
    /// The first pages of the database file (at most `TABLE_MAX_PAGES`), as
    /// they were when it was opened.
    pub file_pages: Vec<[u8; PAGE_SIZE]>,
}

/// The pager as plain values: each page by its bytes.
#[verifier::ext_equal]
pub struct PagerView {
    pub file_length: u64,
    pub num_pages: usize,
    pub pages: Seq<Option<Seq<u8>>>,
    pub file_pages: Seq<Seq<u8>>,
}

pub open spec fn page_views(pages: Seq<Option<[u8; PAGE_SIZE]>>) -> Seq<Option<Seq<u8>>> {
    pages.map_values(
        |o: Option<[u8; PAGE_SIZE]>|
            match o {
                Some(a) => Some(a@),
                None => None,
            },
    )
}

/// A page of zero bytes.
pub open spec fn zero_page() -> Seq<u8> {
    Seq::new(PAGE_SIZE as nat, |i: int| 0u8)
}

/// `pages` cut or extended with empty slots to `len` slots (`Vec::resize`).
pub open spec fn resized(pages: Seq<Option<Seq<u8>>>, len: nat) -> Seq<Option<Seq<u8>>> {
    if len <= pages.len() {
        pages.take(len as int)
    } else {
        pages + Seq::new((len - pages.len()) as nat, |i: int| None::<Seq<u8>>)
    }
}

pub open spec fn min(a: int, b: int) -> int {
    if a <= b {
        a
    } else {
        b
    }
}

pub open spec fn max(a: int, b: int) -> int {
    if a >= b {
        a
    } else {
        b
    }
}

impl View for Pager {
    type V = PagerView;

    open spec fn view(&self) -> PagerView {
        PagerView {
            file_length: self.file_length,
            num_pages: self.num_pages,
            pages: page_views(self.pages@),
            file_pages: self.file_pages@.map_values(|a: [u8; PAGE_SIZE]| a@),
        }
    }
}

impl PagerView {
    /// The pager describes a database file of whole pages.
    pub open spec fn wf(self) -> bool {
        &&& self.file_length % (PAGE_SIZE as u64) == 0
        &&& self.num_pages == self.file_length / (PAGE_SIZE as u64)
        &&& self.file_pages.len() == min(self.num_pages as int, TABLE_MAX_PAGES as int)
        &&& forall|i: int| 0 <= i < self.file_pages.len() ==> (#[trigger] self.file_pages[i]).len() == PAGE_SIZE
        &&& forall|i: int| 0 <= i < self.pages.len() && (#[trigger] self.pages[i]) is Some ==> self.pages[i]->0.len() == PAGE_SIZE
    }

    /// Asking for page `n` does not fail on a missing cache slot.
    pub open spec fn can_get(self, n: int) -> bool {
        n >= TABLE_MAX_PAGES || n >= self.num_pages || n < self.pages.len()
    }

    /// The bytes page `n` gets when it is first used: the file's page when the
    /// file holds it, else zeros.
    pub open spec fn fresh_page(self, n: int) -> Seq<u8> {
        if n < self.num_pages {
            self.file_pages[n]
        } else {
            zero_page()
        }
    }

    /// The cache slots after asking for page `n` (`n < TABLE_MAX_PAGES`): when
    /// `n` is at or past the file's page count the cache is resized to `n + 1`
    /// slots (which may drop slots), and an empty slot `n` is filled with the
    /// page's first bytes.
    pub open spec fn after_get(self, n: int) -> PagerView {
        let r = if n >= self.num_pages {
            resized(self.pages, (n + 1) as nat)
        } else {
            self.pages
        };
        let p = if r[n] is None {
            r.update(n, Some(self.fresh_page(n)))
        } else {
            r
        };
        PagerView { pages: p, ..self }
    }

    /// The cache slots after allocating page `n`: resized as for `after_get`,
    /// then slot `n` holds a zeroed page.
    pub open spec fn after_allocate(self, n: int) -> PagerView {
        let r = if n >= self.num_pages {
            resized(self.pages, (n + 1) as nat)
        } else {
            self.pages
        };
        PagerView { pages: r.update(n, Some(zero_page())), ..self }
    }

    /// The bytes of cached page `n`.
    pub open spec fn page(self, n: int) -> Seq<u8> {
        self.pages[n]->0
    }

    /// `self` with cached page `n` replaced by `bytes`.
    pub open spec fn with_page(self, n: int, bytes: Seq<u8>) -> PagerView {
        PagerView { pages: self.pages.update(n, Some(bytes)), ..self }
    }
}

pub proof fn lemma_after_get(v: PagerView, n: int)
    requires
        v.wf(),
        0 <= n < TABLE_MAX_PAGES,
        v.can_get(n),
    ensures
        v.after_get(n).wf(),
        n < v.after_get(n).pages.len(),
        v.after_get(n).pages[n] is Some,
        v.after_get(n).page(n).len() == PAGE_SIZE,
        v.after_get(n).after_get(n) == v.after_get(n),
        v.after_get(n).can_get(n),
{
    let a = v.after_get(n);
    assert forall|i: int| 0 <= i < a.pages.len() && (#[trigger] a.pages[i]) is Some implies a.pages[i]->0.len() == PAGE_SIZE by {
        if i != n {
            if n >= v.num_pages && n + 1 > v.pages.len() && i >= v.pages.len() {
            } else {
                assert(a.pages[i] == v.pages[i]);
            }
        }
    }
    if n >= v.num_pages {
        assert(resized(a.pages, (n + 1) as nat) =~= a.pages);
    }
}

/// A page written through the borrow `get_page` hands out reads back: asking
/// for the page again gives the written bytes and leaves the pager as it is.
pub proof fn lemma_page_write_read_back(v: PagerView, n: int, bytes: Seq<u8>)
    requires
        v.wf(),
        0 <= n < TABLE_MAX_PAGES,
        v.can_get(n),
        bytes.len() == PAGE_SIZE,
    ensures
        ({
            let w = v.after_get(n).with_page(n, bytes);
            &&& w.wf()
            &&& w.can_get(n)
            &&& w.after_get(n) == w
            &&& w.after_get(n).page(n) == bytes
        }),
{
    lemma_after_get(v, n);
    let s1 = v.after_get(n);
    let w = s1.with_page(n, bytes);
    assert forall|i: int| 0 <= i < w.pages.len() && (#[trigger] w.pages[i]) is Some implies w.pages[i]->0.len()
        == PAGE_SIZE by {
        if i != n {
            assert(w.pages[i] == s1.pages[i]);
        }
    }
    if n >= w.num_pages {
        assert(resized(w.pages, (n + 1) as nat) =~= w.pages);
    }
    assert(w.after_get(n) =~= w);
}

/// A pager opened on a database file reads the file's first page back as its
/// page 0.
pub proof fn lemma_reopen_reads_first_page(file_length: u64, file_pages: Seq<Seq<u8>>)
    requires
        file_length <= usize::MAX,
        file_length % (PAGE_SIZE as u64) == 0,
        file_length > 0,
        file_pages.len() == min((file_length / (PAGE_SIZE as u64)) as int, TABLE_MAX_PAGES as int),
        forall|i: int| 0 <= i < file_pages.len() ==> (#[trigger] file_pages[i]).len() == PAGE_SIZE,
    ensures
        ({
            let v = PagerView {
                file_length,
                num_pages: (file_length / (PAGE_SIZE as u64)) as usize,
                pages: seq![None],
                file_pages,
            };
            &&& v.wf()
            &&& v.can_get(0)
            &&& v.after_get(0).page(0) == file_pages[0]
        }),
{
    let len = file_length as int;
    assert(len / 4096 >= 1) by (nonlinear_arith)
        requires
            len > 0,
            len % 4096 == 0,
    ;
}

impl Pager {
    /// Opens a pager on a database file of `file_length` bytes whose first
    /// pages (at most `TABLE_MAX_PAGES` of them) are `file_pages`. A file that
    /// is not made of whole pages is refused as corrupt.
    pub fn new(file_length: u64, file_pages: Vec<[u8; PAGE_SIZE]>) -> (r: Result<Self, PagerError>)
        requires
            file_length <= usize::MAX,
            file_length % (PAGE_SIZE as u64) == 0 ==> file_pages@.len() == min(
                (file_length / (PAGE_SIZE as u64)) as int,
                TABLE_MAX_PAGES as int,
            ),
        ensures
            file_length % (PAGE_SIZE as u64) != 0 ==> (r matches Err(PagerError::InitError { cause })
                && cause@ == "DB file corrupt. Invalid db file."@),
            file_length % (PAGE_SIZE as u64) == 0 ==> (r matches Ok(p) && p@ == (PagerView {
                file_length,
                num_pages: (file_length / (PAGE_SIZE as u64)) as usize,
                pages: seq![None],
                file_pages: file_pages@.map_values(|a: [u8; PAGE_SIZE]| a@),
            }) && p@.wf()),
    {
        let num_pages = (file_length as usize) / PAGE_SIZE;
        if file_length % (PAGE_SIZE as u64) != 0 {
            return Err(PagerError::InitError { cause: "DB file corrupt. Invalid db file.".to_owned() });
        }
        let mut pages: Vec<Option<[u8; PAGE_SIZE]>> = Vec::new();
        pages.push(None);
        let p = Self { file_length, num_pages, pages, file_pages };
        assert(p@.pages =~= seq![None]);
        Ok(p)
    }

    /// Whether asking for page `page_num` can go ahead (see
    /// `PagerView::can_get`).
    pub fn page_available(&self, page_num: usize) -> (b: bool)
        ensures
            b == self@.can_get(page_num as int),
    {
        page_num >= TABLE_MAX_PAGES || page_num >= self.num_pages || page_num < self.pages.len()
    }

    /// A copy of the pager.
    pub fn copy(&self) -> (p: Self)
        ensures
            p@ == self@,
    {
        let mut pages: Vec<Option<[u8; PAGE_SIZE]>> = Vec::new();
        let mut i: usize = 0;
        while i < self.pages.len()
            invariant
                i <= self.pages@.len(),
                pages@ == self.pages@.take(i as int),
            decreases self.pages@.len() - i,
        {
            pages.push(self.pages[i]);
            i = i + 1;
            assert(pages@ =~= self.pages@.take(i as int));
        }
        let mut file_pages: Vec<[u8; PAGE_SIZE]> = Vec::new();
        let mut k: usize = 0;
        while k < self.file_pages.len()
            invariant
                k <= self.file_pages@.len(),
                file_pages@ == self.file_pages@.take(k as int),
            decreases self.file_pages@.len() - k,
        {
            file_pages.push(self.file_pages[k]);
            k = k + 1;
            assert(file_pages@ =~= self.file_pages@.take(k as int));
        }
        assert(pages@ =~= self.pages@);
        assert(file_pages@ =~= self.file_pages@);
        Self { file_length: self.file_length, num_pages: self.num_pages, pages, file_pages }
    }

    /// Resizes the cache to `len` slots, as `Vec::resize` with `None`.
    fn resize_pages(&mut self, len: usize)
        ensures
            final(self)@ == (PagerView { pages: resized(old(self)@.pages, len as nat), ..old(self)@ }),
    {
        let ghost old_pages = self@.pages;
        if len <= self.pages.len() {
            self.pages.truncate(len);
            assert(self@.pages =~= resized(old_pages, len as nat));
        } else {
            while self.pages.len() < len
                invariant
                    old_pages.len() <= self.pages@.len() <= len,
                    self.file_length == old(self).file_length,
                    self.num_pages == old(self).num_pages,
                    self.file_pages@ == old(self).file_pages@,
                    old_pages == page_views(old(self).pages@),
                    page_views(self.pages@) =~= old_pages + Seq::new(
                        (self.pages@.len() - old_pages.len()) as nat,
                        |i: int| None::<Seq<u8>>,
                    ),
                decreases len - self.pages@.len(),
            {
                let ghost before = self.pages@;
                self.pages.push(None);
                assert(page_views(self.pages@) =~= page_views(before).push(None));
            }
            assert(self@.pages =~= resized(old_pages, len as nat));
        }
    }

    /// The cached page `page_num`, loading it first when it is not cached.
    /// Page numbers from `TABLE_MAX_PAGES` on are refused. When the number is
    /// at or past the file's page count, the cache is first resized to
    /// `page_num + 1` slots (which drops the slots past it). A page that is not
    /// cached yet is loaded from the file when the file holds it, else zeroed.
    pub fn get_page(&mut self, page_num: usize) -> (r: Result<&mut [u8; PAGE_SIZE], PagerError>)
        requires
            old(self)@.wf(),
            old(self)@.can_get(page_num as int),
        ensures
            page_num >= TABLE_MAX_PAGES ==> r == Err::<&mut [u8; PAGE_SIZE], PagerError>(
                PagerError::OutBoundSeek { page: page_num, max_allowed_pages: TABLE_MAX_PAGES },
            ) && final(self)@ == old(self)@,
            page_num < TABLE_MAX_PAGES ==> (r matches Ok(p) && p@ == old(self)@.after_get(
                page_num as int,
            ).page(page_num as int) && final(self)@ == old(self)@.after_get(page_num as int).with_page(
                page_num as int,
                final(p)@,
            )),
    {
        if page_num >= TABLE_MAX_PAGES {
            return Err(
                PagerError::OutBoundSeek { page: page_num, max_allowed_pages: TABLE_MAX_PAGES },
            );
        }
        proof {
            lemma_after_get(self@, page_num as int);
        }
        let ghost v0 = self@;
        if page_num >= self.num_pages {
            self.resize_pages(page_num + 1);
        }
        if self.pages[page_num].is_none() {
            let mut number_of_pages = self.file_length / (PAGE_SIZE as u64);
            if (self.file_length % (PAGE_SIZE as u64)) > 0 {
                number_of_pages = number_of_pages + 1;
            }
            if (page_num as u64) < number_of_pages {
                let page = self.file_pages[page_num];
                self.pages.set(page_num, Some(page));
            } else {
                self.pages.set(page_num, Some([0u8; PAGE_SIZE]));
                assert([0u8; PAGE_SIZE]@ =~= zero_page());
            }
        }
        assert(self@ =~= v0.after_get(page_num as int));
        match self.pages[page_num].as_mut() {
            Some(page) => Ok(page),
            None => {
                assert(false);
                Err(PagerError::PageNotFound { page_seeked: page_num })
            },
        }
    }

    /// Puts a zeroed page in slot `page_num`, resizing the cache to
    /// `page_num + 1` slots first when the number is at or past the file's page
    /// count.
    pub fn allocate_page(&mut self, page_num: usize)
        requires
            old(self)@.wf(),
            page_num < usize::MAX,
            page_num >= old(self)@.num_pages || page_num < old(self)@.pages.len(),
        ensures
            final(self)@ == old(self)@.after_allocate(page_num as int),
            final(self)@.wf(),
    {
        let ghost v0 = self@;
        if page_num >= self.num_pages {
            self.resize_pages(page_num + 1);
        }
        assert(self.pages@.len() == self@.pages.len());
        self.pages.set(page_num, Some([0u8; PAGE_SIZE]));
        assert([0u8; PAGE_SIZE]@ =~= zero_page());
        assert(self@ =~= v0.after_allocate(page_num as int));
        proof {
            let a = v0.after_allocate(page_num as int);
            assert forall|i: int| 0 <= i < a.pages.len() && (#[trigger] a.pages[i]) is Some implies a.pages[i]->0.len() == PAGE_SIZE by {
                if i != page_num {
                    if page_num >= v0.num_pages && page_num + 1 > v0.pages.len() && i >= v0.pages.len() {
                    } else {
                        assert(a.pages[i] == v0.pages[i]);
                    }
                }
            }
        }
    }

    /// Byte offset of page `page_num` in the database file.
    fn get_offset(&self, page_num: usize) -> (offset: u64)
        requires
            page_num * PAGE_SIZE <= u64::MAX,
        ensures
            offset == page_num * PAGE_SIZE,
    {
        (page_num as u64) * (PAGE_SIZE as u64)
    }

    /// What flushing page `page_num` writes to the database file: the page's
    /// byte offset and its cached bytes. A page that is not cached cannot be
    /// flushed.
    pub fn flush(&self, page_num: usize) -> (r: Result<(u64, &[u8; PAGE_SIZE]), PagerError>)
        requires
            page_num * PAGE_SIZE <= u64::MAX,
        ensures
            (page_num < self@.pages.len() && self@.pages[page_num as int] is Some) ==> (r matches Ok(
                w,
            ) && w.0 == page_num * PAGE_SIZE && w.1@ == self@.page(page_num as int)),
            !(page_num < self@.pages.len() && self@.pages[page_num as int] is Some) ==> r == Err::<
                (u64, &[u8; PAGE_SIZE]),
                PagerError,
            >(PagerError::FlushError { page_num }),
    {
        let offset = self.get_offset(page_num);
        if page_num < self.pages.len() {
            match &self.pages[page_num] {
                Some(page) => {
                    return Ok((offset, page));
                },
                None => {},
            }
        }
        Err(PagerError::FlushError { page_num })
    }

    /// The numbers of the cached pages, in increasing order: the pages that
    /// are written back to the database file when the table is closed.
    pub fn cached_pages(&self) -> (v: Vec<usize>)
        ensures
            forall|k: int|
                0 <= k < v@.len() ==> v@[k] < self@.pages.len() && self@.pages[v@[k] as int] is Some,
            forall|k: int, l: int| 0 <= k < l < v@.len() ==> v@[k] < v@[l],
            forall|i: int|
                0 <= i < self@.pages.len() && self@.pages[i] is Some ==> v@.contains(i as usize),
    {
        let mut v: Vec<usize> = Vec::new();
        let mut i: usize = 0;
        while i < self.pages.len()
            invariant
                i <= self.pages@.len(),
                self@.pages.len() == self.pages@.len(),
                forall|k: int|
                    0 <= k < v@.len() ==> v@[k] < i && self@.pages[v@[k] as int] is Some,
                forall|k: int, l: int| 0 <= k < l < v@.len() ==> v@[k] < v@[l],
                forall|j: int| 0 <= j < i && self@.pages[j] is Some ==> v@.contains(j as usize),
            decreases self.pages@.len() - i,
        {
            if self.pages[i].is_some() {
                let ghost before = v@;
                v.push(i);
                assert forall|j: int| 0 <= j < i && self@.pages[j] is Some implies v@.contains(
                    j as usize,
                ) by {
                    let k = choose|k: int| 0 <= k < before.len() && before[k] == j as usize;
                    assert(v@[k] == j as usize);
                }
                assert(v@[v@.len() - 1] == i);
            }
            i = i + 1;
        }
        v
    }

    /// Two distinct cached pages at once, loaded first as `get_page` does (the
    /// first, then the second).
    pub fn get_two_pages(&mut self, first: usize, second: usize) -> (r: Result<
        (&mut [u8; PAGE_SIZE], &mut [u8; PAGE_SIZE]),
        PagerError,
    >)
        requires
            old(self)@.wf(),
            first != second,
            first < TABLE_MAX_PAGES,
            second < TABLE_MAX_PAGES,
            old(self)@.can_get(first as int),
            old(self)@.after_get(first as int).can_get(second as int),
            first < old(self)@.after_get(first as int).after_get(second as int).pages.len(),
        ensures
            ({
                let after = old(self)@.after_get(first as int).after_get(second as int);
                &&& after.pages[first as int] is Some
                &&& r matches Ok(pair)
                &&& pair.0@ == after.page(first as int)
                &&& pair.1@ == after.page(second as int)
                &&& final(self)@ == after.with_page(first as int, final(pair.0)@).with_page(
                    second as int,
                    final(pair.1)@,
                )
            }),
    {
        proof {
            lemma_after_get(self@, first as int);
            lemma_after_get(self@.after_get(first as int), second as int);
        }
        let ghost v1 = self@.after_get(first as int);
        let _ = self.get_page(first);
        assert(self@ =~= v1);
        let _ = self.get_page(second);
        let ghost v2 = self@;
        assert(v2 =~= v1.after_get(second as int));
        assert(v2.pages[first as int] is Some) by {
            if second >= v1.num_pages {
            }
        }
        let slots = self.pages.as_mut_slice();
        if first < second {
            let (low, high) = slots.split_at_mut(second);
            let (_, from_first) = low.split_at_mut(first);
            let a = from_first.first_mut().unwrap().as_mut().unwrap();
            let b = high.first_mut().unwrap().as_mut().unwrap();
            Ok((a, b))
        } else {
            let (low, high) = slots.split_at_mut(first);
            let (_, from_second) = low.split_at_mut(second);
            let b = from_second.first_mut().unwrap().as_mut().unwrap();
            let a = high.first_mut().unwrap().as_mut().unwrap();
            Ok((a, b))
        }
    }
}

} // verus!
