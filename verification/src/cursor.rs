//! The record cursor: a scan of a table's occupied pages, record by record.

use crate::record::{
    slot, slot_fits, slot_range, spec_finish_read, spec_lookup, FieldType, Manager, Record, Schema,
};
use crate::storage::{
    page_start, spec_page_offset, Page, PageRead, ReadOutcome, StorageError, PAGE_SIZE,
};
use vstd::prelude::*;

verus! {

/// What one step of a cursor gives.
#[derive(Clone, Copy, Debug, PartialEq, Eq)]
pub enum Step<'a> {
    /// The next record.
    Record(Record<'a>),
    /// The cursor needs its next page: read it and hand it to `supply`.
    Read(PageRead),
    /// The scan is over.
    End,
    /// The scan failed, and is over.
    Failed(StorageError),
}

/// What one step of a cursor gives, as the contracts see it.
pub enum StepView {
    Record(Seq<u8>),
    Read(PageRead),
    End,
    Failed(StorageError),
}

impl<'a> View for Step<'a> {
    type V = StepView;

    open spec fn view(&self) -> StepView {
        match *self {
            Step::Record(record) => StepView::Record(record.spec_bytes()),
            Step::Read(request) => StepView::Read(request),
            Step::End => StepView::End,
            Step::Failed(error) => StepView::Failed(error),
        }
    }
}

/// A cursor as the contracts see it.
pub struct CursorView {
    /// The id of the table that is scanned.
    pub file: u64,
    /// The table's record of occupied pages.
    pub occupied: Seq<usize>,
    /// The length of a record.
    pub record_len: nat,
    /// The page that the cursor is on, if it has asked for one.
    pub page: Option<usize>,
    /// The bytes of the page that was last handed to the cursor.
    pub bytes: Seq<u8>,
    /// The number of records that the page holds.
    pub size: usize,
    /// The number of records of the page that the cursor has given.
    pub index: usize,
    /// Whether the cursor has asked for its page and not been handed it.
    pub awaiting: bool,
    /// Whether the scan is over.
    pub ended: bool,
}

impl CursorView {
    /// The cursor before its first step.
    pub open spec fn fresh(file: u64, occupied: Seq<usize>, record_len: nat) -> CursorView {
        CursorView {
            file,
            occupied,
            record_len,
            page: None,
            bytes: Seq::new(PAGE_SIZE as nat, |i: int| 0u8),
            size: 0,
            index: 0,
            awaiting: false,
            ended: false,
        }
    }

    /// What holds of every cursor: its page is an occupied one whose size
    /// it has, it has given no more records than the page holds, and it
    /// waits only for a page that it has given nothing of.
    pub open spec fn wf(&self) -> bool {
        &&& self.bytes.len() == PAGE_SIZE
        &&& self.occupied.len() <= usize::MAX
        &&& self.index <= self.size
        &&& match self.page {
            Some(page) => page < self.occupied.len() && spec_page_offset(page) is Some && (
            !self.ended ==> self.size == self.occupied[page as int]),
            None => self.size == 0 && !self.awaiting,
        }
        &&& self.awaiting ==> !self.ended && self.index == 0
    }

    /// The page that follows the cursor's own.
    pub open spec fn next_page(&self) -> int {
        match self.page {
            Some(page) => page + 1,
            None => 0,
        }
    }

    /// The request that reads the cursor's page.
    pub open spec fn request(&self) -> PageRead {
        PageRead { file: self.file, offset: spec_page_offset(self.page.unwrap()).unwrap() }
    }

    /// One step of the cursor: the cursor after it, and what the step gives.
    ///
    /// A cursor that has ended stays as it is and gives `End`. One that
    /// waits for its page asks for it again. Within a page the step gives
    /// the next slot, or fails with `InvariantViolation` where the slot
    /// reaches past the end of the page. At the end of a page the cursor
    /// moves to the next page: it asks for it where it is occupied, and
    /// ends where it is not.
    pub open spec fn next(&self) -> (CursorView, StepView) {
        if self.ended {
            (*self, StepView::End)
        } else if self.awaiting {
            (*self, StepView::Read(self.request()))
        } else if self.index < self.size {
            if slot_fits(self.record_len, self.index as int) {
                (
                    CursorView { index: (self.index + 1) as usize, ..*self },
                    StepView::Record(slot(self.bytes, self.record_len, self.index as int)),
                )
            } else {
                (
                    CursorView { ended: true, ..*self },
                    StepView::Failed(StorageError::InvariantViolation),
                )
            }
        } else {
            match spec_lookup(self.file, self.occupied, self.next_page() as usize) {
                Ok(Some(load)) => (
                    CursorView {
                        page: Some(self.next_page() as usize),
                        size: load.size,
                        index: 0,
                        awaiting: true,
                        ..*self
                    },
                    StepView::Read(load.request),
                ),
                Ok(None) => (CursorView { ended: true, ..*self }, StepView::End),
                Err(error) => (CursorView { ended: true, ..*self }, StepView::Failed(error)),
            }
        }
    }

    /// Handing the cursor what the read of its page came to: the cursor
    /// after it, and whether the scan goes on.
    ///
    /// A cursor that waits for no page stays as it is and reports an
    /// `InvariantViolation`. A whole page becomes the cursor's page. A
    /// short or failed read ends the scan.
    pub open spec fn supply(&self, outcome: ReadOutcome) -> (CursorView, Result<(), StorageError>) {
        if !self.awaiting {
            (*self, Err(StorageError::InvariantViolation))
        } else {
            match outcome {
                ReadOutcome::Filled(page) => (
                    CursorView { bytes: page@, awaiting: false, ..*self },
                    Ok(()),
                ),
                _ => (
                    CursorView { awaiting: false, ended: true, ..*self },
                    spec_finish_read(outcome),
                ),
            }
        }
    }
}

/// A forward-only scan of the records of a table's occupied pages, page by
/// page from page 0, slot by slot within a page. The cursor reads no file:
/// a step that needs a page asks for it, and `supply` takes what the read
/// came to.
#[derive(Debug)]
pub struct Cursor<'a> {
    schema: Schema,
    manager: &'a Manager,
    cur_page: Option<usize>,
    cur_buf: Page,
    cur_size: usize,
    cur_idx: usize,
    pending: Option<PageRead>,
    ended: bool,
}

impl<'a> View for Cursor<'a> {
    type V = CursorView;

    closed spec fn view(&self) -> CursorView {
        CursorView {
            file: self.manager.spec_file(),
            occupied: self.manager@,
            record_len: self.schema.spec_len(),
            page: self.cur_page,
            bytes: self.cur_buf@,
            size: self.cur_size,
            index: self.cur_idx,
            awaiting: self.pending is Some,
            ended: self.ended,
        }
    }
}

impl<'a> Cursor<'a> {
    /// What holds of every cursor.
    pub closed spec fn wf(&self) -> bool {
        &&& self@.wf()
        &&& self.pending matches Some(request) ==> request == self@.request()
    }

    /// What holds of every cursor holds of a cursor's view.
    pub proof fn lemma_wf_view(&self)
        requires
            self.wf(),
        ensures
            self@.wf(),
    {
    }

    /// A cursor over the records of the pages that `manager` has as
    /// occupied, laid out by `schema`.
    pub fn new(manager: &'a Manager, schema: Schema) -> (cursor: Cursor<'a>)
        ensures
            cursor.wf(),
            cursor@ == CursorView::fresh(manager.spec_file(), manager@, schema.spec_len()),
            cursor.spec_schema() == schema@,
    {
        let cursor = Cursor {
            schema,
            manager,
            cur_page: None,
            cur_buf: [0u8;PAGE_SIZE],
            cur_size: 0,
            cur_idx: 0,
            pending: None,
            ended: false,
        };
        proof {
            manager.lemma_pages_counted();
            assert(cursor.cur_buf@ =~= Seq::new(PAGE_SIZE as nat, |i: int| 0u8));
        }
        cursor
    }

    /// The fields of the cursor's schema.
    pub closed spec fn spec_schema(&self) -> Seq<FieldType> {
        self.schema@
    }

    /// Whether the scan is over.
    pub fn ended(&self) -> (ended: bool)
        ensures
            ended == self@.ended,
    {
        self.ended
    }

    /// One step of the scan: the next record, a request for the page that
    /// the cursor needs, the end of the scan, or its failure.
    pub fn next<'b>(&'b mut self) -> (step: Step<'b>)
        requires
            old(self).wf(),
        ensures
            final(self).wf(),
            final(self).spec_schema() == old(self).spec_schema(),
            final(self)@ == old(self)@.next().0,
            step@ == old(self)@.next().1,
            step matches Step::Record(record) ==> record.spec_schema() == old(self).spec_schema(),
    {
        if self.ended {
            return Step::End;
        }
        if let Some(request) = self.pending {
            return Step::Read(request);
        }
        if self.cur_idx < self.cur_size {
            let len: usize = self.schema.len();
            match slot_range(len, self.cur_idx) {
                Some((start, end)) => {
                    self.cur_idx = self.cur_idx + 1;
                    let page: &'b [u8] = self.cur_buf.as_slice();
                    let buf = vstd::slice::slice_subrange(page, start, end);
                    Step::Record(Record::new(buf, &self.schema))
                },
                None => {
                    self.ended = true;
                    Step::Failed(StorageError::InvariantViolation)
                },
            }
        } else {
            proof {
                self.manager.lemma_pages_counted();
            }
            let next: usize = match self.cur_page {
                Some(page) => page + 1,
                None => 0,
            };
            match self.manager.read_page(next) {
                Ok(Some(load)) => {
                    self.cur_page = Some(next);
                    self.cur_size = load.size;
                    self.cur_idx = 0;
                    self.pending = Some(load.request);
                    Step::Read(load.request)
                },
                Ok(None) => {
                    self.ended = true;
                    Step::End
                },
                Err(error) => {
                    self.ended = true;
                    Step::Failed(error)
                },
            }
        }
    }

    /// Hands the cursor what the read of its page came to. A whole page
    /// becomes the cursor's page, and the scan goes on. A file that ends
    /// before the page does ends the scan with an `InvariantViolation`,
    /// any other failure with `Io`. A cursor that waits for no page stays
    /// as it is and reports an `InvariantViolation`.
    pub fn supply(&mut self, outcome: ReadOutcome) -> (done: Result<(), StorageError>)
        requires
            old(self).wf(),
        ensures
            final(self).wf(),
            final(self).spec_schema() == old(self).spec_schema(),
            final(self)@ == old(self)@.supply(outcome).0,
            done == old(self)@.supply(outcome).1,
    {
        if self.pending.is_none() {
            return Err(StorageError::InvariantViolation);
        }
        self.pending = None;
        let done = Manager::finish_read(outcome, &mut self.cur_buf);
        if done.is_err() {
            self.ended = true;
        }
        done
    }
}

/// What a whole scan gives: the records in the order in which they came,
/// the reads that were asked for in the order in which they were asked,
/// and the failure that ended the scan, if one did.
pub struct Scan {
    pub records: Seq<Seq<u8>>,
    pub reads: Seq<PageRead>,
    pub error: Option<StorageError>,
}

impl Scan {
    /// The scan that gives nothing.
    pub open spec fn over(error: Option<StorageError>) -> Scan {
        Scan { records: Seq::empty(), reads: Seq::empty(), error }
    }
}

/// What reading page `page` comes to on a file that holds `pages`: the page
/// where the file holds it, a short read where the file ends before it.
pub open spec fn read_of(pages: Seq<Page>, page: usize) -> ReadOutcome {
    if page < pages.len() {
        ReadOutcome::Filled(pages[page as int])
    } else {
        ReadOutcome::Short
    }
}

/// The scan from the cursor `v` on to its end, over a file that holds
/// `pages`: each step is taken in turn, and each read that a step asks for
/// is answered from `pages`.
pub open spec fn scan(v: CursorView, pages: Seq<Page>) -> Scan
    decreases
        v.occupied.len() - v.next_page(),
        (if v.awaiting { 1int } else { 0int }),
        v.size - v.index,
{
    if !v.wf() || v.ended {
        Scan::over(None)
    } else if v.awaiting {
        let (w, done) = v.supply(read_of(pages, v.page.unwrap()));
        match done {
            Ok(_) => scan(w, pages),
            Err(error) => Scan::over(Some(error)),
        }
    } else {
        let (w, step) = v.next();
        match step {
            StepView::Record(bytes) => {
                let rest = scan(w, pages);
                Scan { records: seq![bytes] + rest.records, ..rest }
            },
            StepView::Read(request) => {
                let rest = scan(w, pages);
                Scan { reads: seq![request] + rest.reads, ..rest }
            },
            StepView::End => Scan::over(None),
            StepView::Failed(error) => Scan::over(Some(error)),
        }
    }
}

/// The first `size` slots of the page `bytes`, for records of `len` bytes.
pub open spec fn page_records(bytes: Seq<u8>, len: nat, size: int) -> Seq<Seq<u8>> {
    Seq::new(size as nat, |i: int| slot(bytes, len, i))
}

/// The records of the occupied pages from page `from` on, page by page and
/// slot by slot.
pub open spec fn table_records(occupied: Seq<usize>, len: nat, pages: Seq<Page>, from: int) -> Seq<
    Seq<u8>,
>
    decreases occupied.len() - from,
{
    if 0 <= from < occupied.len() {
        page_records(pages[from]@, len, occupied[from] as int) + table_records(
            occupied,
            len,
            pages,
            from + 1,
        )
    } else {
        Seq::empty()
    }
}

/// The reads of the pages from `from` up to `until`, one for each page, in
/// order.
pub open spec fn table_reads(file: u64, from: int, until: int) -> Seq<PageRead> {
    Seq::new(
        (until - from) as nat,
        |i: int| PageRead { file, offset: page_start(from + i) as u64 },
    )
}

/// A step and a page handed in keep what holds of every cursor, and leave
/// the table, its occupied pages and the record length as they are.
pub proof fn lemma_steps_keep_wf(v: CursorView, outcome: ReadOutcome)
    requires
        v.wf(),
    ensures
        v.next().0.wf(),
        v.supply(outcome).0.wf(),
        v.next().0.file == v.file && v.supply(outcome).0.file == v.file,
        v.next().0.occupied == v.occupied && v.supply(outcome).0.occupied == v.occupied,
        v.next().0.record_len == v.record_len && v.supply(outcome).0.record_len == v.record_len,
{
}

/// A cursor asks only for occupied pages, each once and in order: a step
/// that asks for a read asks for the page after the cursor's own, and that
/// page is occupied. A cursor that has ended asks for nothing and gives
/// nothing more.
pub proof fn lemma_reads_only_occupied(v: CursorView)
    requires
        v.wf(),
    ensures
        v.next().1 matches StepView::Read(request) ==> {
            let page = if v.awaiting {
                v.page.unwrap() as int
            } else {
                v.next_page()
            };
            &&& 0 <= page < v.occupied.len()
            &&& v.next().0.page == Some(page as usize)
            &&& request == (PageRead { file: v.file, offset: page_start(page) as u64 })
        },
        v.ended ==> v.next() == (v, StepView::End),
{
}

proof fn lemma_scan_from(v: CursorView, pages: Seq<Page>)
    requires
        v.wf(),
        !v.ended,
        !v.awaiting,
        pages.len() >= v.occupied.len(),
        v.occupied.len() * PAGE_SIZE <= u64::MAX,
        forall|p: int| 0 <= p < v.occupied.len() ==> (#[trigger] v.occupied[p]) * v.record_len <= PAGE_SIZE,
        v.page matches Some(page) ==> v.bytes == pages[page as int]@,
    ensures
        scan(v, pages).error is None,
        scan(v, pages).records == page_records(v.bytes, v.record_len, v.size as int).skip(
            v.index as int,
        ) + table_records(v.occupied, v.record_len, pages, v.next_page()),
        scan(v, pages).reads == table_reads(v.file, v.next_page(), v.occupied.len() as int),
    decreases v.occupied.len() - v.next_page(), v.size - v.index,
{
    let here = page_records(v.bytes, v.record_len, v.size as int);
    let after = table_records(v.occupied, v.record_len, pages, v.next_page());
    let (w, step) = v.next();
    if v.index < v.size {
        let page = v.page.unwrap() as int;
        assert((v.index + 1) * v.record_len <= PAGE_SIZE) by (nonlinear_arith)
            requires
                v.index < v.size,
                v.size * v.record_len <= PAGE_SIZE,
        ;
        lemma_scan_from(w, pages);
        assert(here.skip(v.index as int) =~= seq![slot(v.bytes, v.record_len, v.index as int)]
            + here.skip(w.index as int));
        assert(scan(v, pages).records =~= here.skip(v.index as int) + after);
    } else {
        let next = v.next_page();
        assert(here.skip(v.index as int) =~= Seq::<Seq<u8>>::empty());
        if next < v.occupied.len() {
            assert(next * PAGE_SIZE <= v.occupied.len() * PAGE_SIZE) by (nonlinear_arith)
                requires
                    next < v.occupied.len(),
            ;
            let (u, done) = w.supply(read_of(pages, next as usize));
            assert(scan(w, pages) == scan(u, pages));
            lemma_scan_from(u, pages);
            assert(page_records(u.bytes, u.record_len, u.size as int).skip(0) =~= page_records(
                pages[next]@,
                v.record_len,
                v.occupied[next] as int,
            ));
            assert(scan(v, pages).records =~= here.skip(v.index as int) + after);
            assert(scan(v, pages).reads =~= table_reads(v.file, next, v.occupied.len() as int));
        } else {
            assert(scan(v, pages).reads =~= table_reads(v.file, next, v.occupied.len() as int));
            assert(scan(v, pages).records =~= here.skip(v.index as int) + after);
        }
    }
}

/// A scan gives the records of exactly the occupied pages and then stops.
///
/// Take a table whose pages `0` to `k - 1` are occupied, in a file that
/// holds them, each page holding no more records than fit in it. A fresh
/// cursor, stepped to its end, asks for the pages `0` to `k - 1`, each
/// once and in order, and for no other page. It gives, page by page, the
/// slots of each page from the first up to the page's size, where slot `i`
/// is the bytes from `i * len` up to `(i + 1) * len` of the page. It does
/// not fail.
pub proof fn lemma_scan_gives_occupied_pages(
    file: u64,
    occupied: Seq<usize>,
    len: nat,
    pages: Seq<Page>,
)
    requires
        occupied.len() <= usize::MAX,
        occupied.len() <= pages.len(),
        occupied.len() * PAGE_SIZE <= u64::MAX,
        forall|p: int| 0 <= p < occupied.len() ==> (#[trigger] occupied[p]) * len <= PAGE_SIZE,
    ensures
        scan(CursorView::fresh(file, occupied, len), pages).error is None,
        scan(CursorView::fresh(file, occupied, len), pages).reads == table_reads(
            file,
            0,
            occupied.len() as int,
        ),
        scan(CursorView::fresh(file, occupied, len), pages).records == table_records(
            occupied,
            len,
            pages,
            0,
        ),
{
    let v = CursorView::fresh(file, occupied, len);
    lemma_scan_from(v, pages);
    assert(page_records(v.bytes, len, 0).skip(0) =~= Seq::<Seq<u8>>::empty());
    assert(scan(v, pages).records =~= table_records(occupied, len, pages, 0));
}

} // verus!
