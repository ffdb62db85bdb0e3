//! Record schemas, the page tracker and the record cursor.

use crate::cursor::{Cursor, CursorView};
use crate::storage::{
    spec_page_offset, Page, PageRead, ReadOutcome, StorageError, StorageFile, PAGE_SIZE,
};
use vstd::prelude::*;

verus! {

/// The kind of one field of a record.
#[derive(Clone, Copy, Debug, PartialEq, Eq, Structural)]
pub enum FieldType {
    /// An integer, stored in eight bytes.
    Int,
    /// A string, stored in as many bytes as the schema says.
    Str(usize),
}

impl FieldType {
    /// The number of bytes that a field of this kind takes in a record.
    pub open spec fn spec_len(&self) -> nat {
        match *self {
            FieldType::Int => 8,
            FieldType::Str(n) => n as nat,
        }
    }

    /// The number of bytes that a field of this kind takes in a record.
    pub fn len(&self) -> (n: usize)
        ensures
            n == self.spec_len(),
    {
        match *self {
            FieldType::Int => 8,
            FieldType::Str(s) => s,
        }
    }
}

/// The sum of the lengths of `fields`.
pub open spec fn total_len(fields: Seq<FieldType>) -> nat
    decreases fields.len(),
{
    if fields.len() == 0 {
        0
    } else {
        total_len(fields.drop_last()) + fields.last().spec_len()
    }
}

/// A prefix of a field list is no longer than the whole list.
pub proof fn lemma_total_len_prefix(fields: Seq<FieldType>, k: int)
    requires
        0 <= k <= fields.len(),
    ensures
        total_len(fields.take(k)) <= total_len(fields),
    decreases fields.len(),
{
    if k == fields.len() {
        assert(fields.take(k) =~= fields);
    } else {
        lemma_total_len_prefix(fields.drop_last(), k);
        assert(fields.drop_last().take(k) =~= fields.take(k));
    }
}

/// Appending a field list adds its length.
pub proof fn lemma_total_len_push(fields: Seq<FieldType>, field: FieldType)
    ensures
        total_len(fields.push(field)) == total_len(fields) + field.spec_len(),
{
    assert(fields.push(field).drop_last() =~= fields);
}

/// The layout of a record: its fields in order. Every schema has a length
/// that fits in `usize`.
#[derive(Debug, PartialEq, Eq)]
pub struct Schema {
    fields: Vec<FieldType>,
}

impl View for Schema {
    type V = Seq<FieldType>;

    closed spec fn view(&self) -> Seq<FieldType> {
        self.fields@
    }
}

impl Schema {
    #[verifier::type_invariant]
    spec fn fits(&self) -> bool {
        total_len(self.fields@) <= usize::MAX
    }

    /// The length of a record of this schema, in bytes.
    pub open spec fn spec_len(&self) -> nat {
        total_len(self@)
    }

    /// Makes a schema of `fields`, unless their lengths add up to more than
    /// `usize` holds.
    pub fn new(fields: Vec<FieldType>) -> (schema: Option<Schema>)
        ensures
            schema is Some <==> total_len(fields@) <= usize::MAX,
            schema is Some ==> schema.unwrap()@ == fields@,
    {
        let mut acc: usize = 0;
        let mut i: usize = 0;
        while i < fields.len()
            invariant
                i <= fields.len(),
                acc == total_len(fields@.take(i as int)),
            decreases fields.len() - i,
        {
            let n: usize = fields[i].len();
            proof {
                assert(fields@.take(i + 1) =~= fields@.take(i as int).push(fields@[i as int]));
                lemma_total_len_push(fields@.take(i as int), fields@[i as int]);
                lemma_total_len_prefix(fields@, i + 1);
            }
            if n > usize::MAX - acc {
                return None;
            }
            acc = acc + n;
            i = i + 1;
        }
        proof {
            assert(fields@.take(i as int) =~= fields@);
        }
        Some(Schema { fields })
    }

    /// The fields of the schema, in order.
    pub fn fields(&self) -> (fields: &Vec<FieldType>)
        ensures
            fields@ == self@,
    {
        &self.fields
    }

    /// The length of a record of this schema: the sum of its fields' lengths.
    pub fn len(&self) -> (n: usize)
        ensures
            n == self.spec_len(),
    {
        proof {
            use_type_invariant(self);
        }
        let mut acc: usize = 0;
        let mut i: usize = 0;
        while i < self.fields.len()
            invariant
                i <= self.fields.len(),
                acc == total_len(self.fields@.take(i as int)),
                total_len(self.fields@) <= usize::MAX,
            decreases self.fields.len() - i,
        {
            proof {
                assert(self.fields@.take(i + 1) =~= self.fields@.take(i as int).push(
                    self.fields@[i as int],
                ));
                lemma_total_len_push(self.fields@.take(i as int), self.fields@[i as int]);
                lemma_total_len_prefix(self.fields@, i + 1);
            }
            acc = acc + self.fields[i].len();
            i = i + 1;
        }
        proof {
            assert(self.fields@.take(i as int) =~= self.fields@);
        }
        acc
    }
}

/// An occupied page that is to be read: how many records it holds, and the
/// request that reads it.
#[derive(Clone, Copy, Debug, PartialEq, Eq, Structural)]
pub struct Load {
    pub size: usize,
    pub request: PageRead,
}

/// A table's file together with the record of its occupied pages: page `n`
/// is occupied where the record has an entry `n`, which says how many
/// records the page holds.
#[derive(Debug, PartialEq, Eq)]
pub struct Manager {
    storage: StorageFile,
    occupied: Vec<usize>,
}

impl View for Manager {
    type V = Seq<usize>;

    closed spec fn view(&self) -> Seq<usize> {
        self.occupied@
    }
}

/// What looking up page `at` gives for the table `file` with the occupancy
/// record `occupied`: nothing to read past the last occupied page, else the
/// page's size and the request that reads it.
pub open spec fn spec_lookup(file: u64, occupied: Seq<usize>, at: usize) -> Result<
    Option<Load>,
    StorageError,
> {
    if at < occupied.len() {
        match spec_page_offset(at) {
            Some(offset) => Ok(
                Some(Load { size: occupied[at as int], request: PageRead { file, offset } }),
            ),
            None => Err(StorageError::Io),
        }
    } else {
        Ok(None)
    }
}

impl Manager {
    /// The id of the table whose pages are tracked.
    pub closed spec fn spec_file(&self) -> u64 {
        self.storage@
    }

    /// The record of occupied pages has no more entries than `usize` counts.
    pub proof fn lemma_pages_counted(&self)
        ensures
            self@.len() <= usize::MAX,
    {
        assert(self.occupied@.len() == self.occupied.len());
    }

    /// Tracks the pages of `storage`, of which `occupied` are written.
    pub fn new(storage: StorageFile, occupied: Vec<usize>) -> (manager: Manager)
        ensures
            manager.spec_file() == storage@,
            manager@ == occupied@,
    {
        Manager { storage, occupied }
    }

    /// The handle of the table whose pages are tracked.
    pub fn storage(&self) -> (storage: StorageFile)
        ensures
            storage@ == self.spec_file(),
    {
        self.storage
    }

    /// Looks up page `at`. An occupied page gives its size and the request
    /// that reads it; a page past the last occupied one gives `None`, the
    /// end of the data, and asks for no read. Fails with `Io` where an
    /// occupied page lies beyond every file offset.
    pub fn read_page(&self, at: usize) -> (found: Result<Option<Load>, StorageError>)
        ensures
            found == spec_lookup(self.spec_file(), self@, at),
    {
        if at < self.occupied.len() {
            let size: usize = self.occupied[at];
            match self.storage.read_page(at) {
                Ok(request) => Ok(Some(Load { size, request })),
                Err(e) => Err(e),
            }
        } else {
            Ok(None)
        }
    }

    /// What the read of an occupied page came to. A whole page is put into
    /// `buf`. A file that ends before the page does contradicts the record
    /// of occupied pages: an `InvariantViolation`. Any other failure is
    /// `Io`. A failure leaves `buf` as it was.
    pub fn finish_read(outcome: ReadOutcome, buf: &mut Page) -> (done: Result<(), StorageError>)
        ensures
            done == spec_finish_read(outcome),
            *final(buf) == match outcome {
                ReadOutcome::Filled(page) => page,
                _ => *old(buf),
            },
    {
        match outcome {
            ReadOutcome::Filled(page) => {
                *buf = page;
                Ok(())
            },
            ReadOutcome::Short => Err(StorageError::InvariantViolation),
            ReadOutcome::Failed => Err(StorageError::Io),
        }
    }

    /// A cursor over the records of the occupied pages, laid out by `schema`.
    pub fn cursor<'a>(&'a self, schema: Schema) -> (cursor: Cursor<'a>)
        ensures
            cursor.wf(),
            cursor@ == CursorView::fresh(self.spec_file(), self@, schema.spec_len()),
            cursor.spec_schema() == schema@,
    {
        Cursor::new(self, schema)
    }
}

/// What the read of an occupied page came to.
pub open spec fn spec_finish_read(outcome: ReadOutcome) -> Result<(), StorageError> {
    match outcome {
        ReadOutcome::Filled(_) => Ok(()),
        ReadOutcome::Short => Err(StorageError::InvariantViolation),
        ReadOutcome::Failed => Err(StorageError::Io),
    }
}

/// Whether slot `index` of a page lies within the page, for records of
/// `len` bytes.
pub open spec fn slot_fits(len: nat, index: int) -> bool {
    (index + 1) * len <= PAGE_SIZE
}

/// The bytes of slot `index` of the page `bytes`, for records of `len`
/// bytes: those from `index * len` up to `(index + 1) * len`.
pub open spec fn slot(bytes: Seq<u8>, len: nat, index: int) -> Seq<u8> {
    bytes.subrange(index * len, (index + 1) * len)
}

/// The byte range of slot `index` in a page, for records of `len` bytes:
/// from `index * len` up to `(index + 1) * len`. `None` where the slot
/// reaches past the end of the page.
pub fn slot_range(len: usize, index: usize) -> (range: Option<(usize, usize)>)
    ensures
        range is Some <==> slot_fits(len as nat, index as int),
        range is Some ==> range.unwrap().0 == index * len && range.unwrap().1 == (index + 1) * len,
        range is Some ==> range.unwrap().0 <= range.unwrap().1 <= PAGE_SIZE,
{
    if len == 0 {
        assert((index + 1) * 0 == 0 && index * 0 == 0);
        Some((0, 0))
    } else if index < PAGE_SIZE / len {
        proof {
            let q = PAGE_SIZE as int / len as int;
            assert(q * len <= PAGE_SIZE) by (nonlinear_arith)
                requires
                    q == PAGE_SIZE as int / len as int,
                    len > 0,
            ;
            assert((index + 1) * len <= q * len) by (nonlinear_arith)
                requires
                    index + 1 <= q,
                    len > 0,
            ;
            assert((index + 1) * len == index * len + len) by (nonlinear_arith);
        }
        let start: usize = index * len;
        Some((start, start + len))
    } else {
        proof {
            let q = PAGE_SIZE as int / len as int;
            assert((q + 1) * len > PAGE_SIZE) by (nonlinear_arith)
                requires
                    q == PAGE_SIZE as int / len as int,
                    len > 0,
            ;
            assert((index + 1) * len >= (q + 1) * len) by (nonlinear_arith)
                requires
                    index >= q,
                    len > 0,
            ;
        }
        None
    }
}

/// One record of a page: its bytes, and the schema that lays them out. It
/// is a view into the cursor's page and lasts until the cursor moves on.
#[derive(Clone, Copy, Debug, PartialEq, Eq)]
pub struct Record<'a> {
    buf: &'a [u8],
    schema: &'a Schema,
}

impl<'a> Record<'a> {
    /// The bytes of the record.
    pub closed spec fn spec_bytes(&self) -> Seq<u8> {
        self.buf@
    }

    /// The fields of the record's schema.
    pub closed spec fn spec_schema(&self) -> Seq<FieldType> {
        self.schema@
    }

    /// The record of the bytes `buf`, laid out by `schema`.
    pub fn new(buf: &'a [u8], schema: &'a Schema) -> (record: Record<'a>)
        ensures
            record.spec_bytes() == buf@,
            record.spec_schema() == schema@,
    {
        Record { buf, schema }
    }

    /// The bytes of the record.
    pub fn bytes(&self) -> (bytes: &'a [u8])
        ensures
            bytes@ == self.spec_bytes(),
    {
        self.buf
    }

    /// The schema that lays the record out.
    pub fn schema(&self) -> (schema: &'a Schema)
        ensures
            schema@ == self.spec_schema(),
    {
        self.schema
    }
}

} // verus!
