//! Page addressing, table handles and the catalog of open tables.

use vstd::prelude::*;
use vstd::relations::injective_on;
use vstd::set_lib::*;

verus! {

/// The size of a page, in bytes.
pub const PAGE_SIZE: usize = 4096;

/// The bytes of one page.
pub type Page = [u8; PAGE_SIZE];

/// Why an operation of the store failed.
#[derive(Clone, Copy, Debug, PartialEq, Eq, Structural)]
pub enum StorageError {
    /// The file could not be positioned, read or written in full.
    Io,
    /// The bookkeeping of the store disagrees with the file.
    InvariantViolation,
}

/// The first byte of page `at` in its file.
pub open spec fn page_start(at: int) -> int {
    at * PAGE_SIZE
}

/// The offset of page `at`, where a file offset can hold it.
pub open spec fn spec_page_offset(at: usize) -> Option<u64> {
    if page_start(at as int) <= u64::MAX {
        Some(page_start(at as int) as u64)
    } else {
        None
    }
}

/// The offset of page `at` in its file: `at` pages of `PAGE_SIZE` bytes from
/// the start. `None` where no file offset can hold that number.
pub fn page_offset(at: usize) -> (offset: Option<u64>)
    ensures
        offset == spec_page_offset(at),
{
    let size: u64 = PAGE_SIZE as u64;
    let page: u64 = at as u64;
    if page > u64::MAX / size {
        None
    } else {
        Some(page * size)
    }
}

/// A request to write one page: `bytes` go to `offset` in the file of the
/// table `file`.
#[derive(Clone, Copy, Debug, PartialEq, Eq)]
pub struct PageWrite {
    pub file: u64,
    pub offset: u64,
    pub bytes: Page,
}

/// A request to read one page: `PAGE_SIZE` bytes from `offset` in the file of
/// the table `file`.
#[derive(Clone, Copy, Debug, PartialEq, Eq, Structural)]
pub struct PageRead {
    pub file: u64,
    pub offset: u64,
}

/// How a write went.
#[derive(Clone, Copy, Debug, PartialEq, Eq, Structural)]
pub enum WriteOutcome {
    /// The file took this many bytes.
    Wrote(usize),
    /// The file could not be positioned or written.
    Failed,
}

/// How a read went.
#[derive(Clone, Copy, Debug, PartialEq, Eq)]
pub enum ReadOutcome {
    /// The file gave a whole page.
    Filled(Page),
    /// The file ended before the page did.
    Short,
    /// The file could not be positioned or read.
    Failed,
}

/// A handle on one open table. Handles of one table are equal: they carry
/// the table's id, by which the file is found.
#[derive(Clone, Copy, Debug, PartialEq, Eq)]
pub struct StorageFile {
    id: u64,
}

impl View for StorageFile {
    type V = u64;

    closed spec fn view(&self) -> u64 {
        self.id
    }
}

impl StorageFile {
    /// The request that writes `page` as page `at` of this table.
    pub open spec fn spec_write_page(&self, at: usize, page: Page) -> Result<
        PageWrite,
        StorageError,
    > {
        match spec_page_offset(at) {
            Some(offset) => Ok(PageWrite { file: self@, offset, bytes: page }),
            None => Err(StorageError::Io),
        }
    }

    /// The request that reads page `at` of this table.
    pub open spec fn spec_read_page(&self, at: usize) -> Result<PageRead, StorageError> {
        match spec_page_offset(at) {
            Some(offset) => Ok(PageRead { file: self@, offset }),
            None => Err(StorageError::Io),
        }
    }

    /// Handles with one id ask for the same file in the same place; handles
    /// with different ids never ask for the same file.
    pub proof fn lemma_requests_follow_id(&self, other: StorageFile, at: usize, page: Page)
        ensures
            self@ == other@ ==> self.spec_write_page(at, page) == other.spec_write_page(at, page)
                && self.spec_read_page(at) == other.spec_read_page(at),
            self@ != other@ ==> forall|to: usize|
                #![trigger other.spec_read_page(to)]
                #![trigger other.spec_write_page(to, page)]
                self.spec_write_page(at, page) matches Ok(write) ==> {
                    &&& other.spec_read_page(to) matches Ok(read) ==> read.file != write.file
                    &&& other.spec_write_page(to, page) matches Ok(second) ==> second.file
                        != write.file
                },
    {
    }

    /// The id of the table.
    pub fn id(&self) -> (id: u64)
        ensures
            id == self@,
    {
        self.id
    }

    /// The request that writes `page` as page `at` of this table. Fails with
    /// `Io` where the page lies beyond every file offset.
    pub fn write_page(&self, at: usize, page: &Page) -> (request: Result<PageWrite, StorageError>)
        ensures
            request == self.spec_write_page(at, *page),
    {
        match page_offset(at) {
            Some(offset) => Ok(PageWrite { file: self.id, offset, bytes: *page }),
            None => Err(StorageError::Io),
        }
    }

    /// What a write of a page came to: done where the file took the whole
    /// page, an `Io` failure where it took less or failed.
    pub fn finish_write(outcome: WriteOutcome) -> (done: Result<(), StorageError>)
        ensures
            done is Ok <==> outcome == WriteOutcome::Wrote(PAGE_SIZE),
            done is Err ==> done == Err::<(), StorageError>(StorageError::Io),
    {
        match outcome {
            WriteOutcome::Wrote(n) => {
                if n == PAGE_SIZE {
                    Ok(())
                } else {
                    Err(StorageError::Io)
                }
            },
            WriteOutcome::Failed => Err(StorageError::Io),
        }
    }

    /// The request that reads page `at` of this table. Fails with `Io` where
    /// the page lies beyond every file offset.
    pub fn read_page(&self, at: usize) -> (request: Result<PageRead, StorageError>)
        ensures
            request == self.spec_read_page(at),
    {
        match page_offset(at) {
            Some(offset) => Ok(PageRead { file: self.id, offset }),
            None => Err(StorageError::Io),
        }
    }

    /// What a read of a page came to. A whole page is put into `buf`; a
    /// short or failed read is an `Io` failure and leaves `buf` as it was.
    pub fn finish_read(outcome: ReadOutcome, buf: &mut Page) -> (done: Result<(), StorageError>)
        ensures
            match outcome {
                ReadOutcome::Filled(page) => done is Ok && *final(buf) == page,
                _ => done == Err::<(), StorageError>(StorageError::Io) && *final(buf) == *old(buf),
            },
    {
        match outcome {
            ReadOutcome::Filled(page) => {
                *buf = page;
                Ok(())
            },
            _ => Err(StorageError::Io),
        }
    }
}

/// The name of a table: the database's name, then the table's own.
pub type TableName = (Seq<char>, Seq<char>);

/// One open table of a store.
struct Table {
    database: String,
    table: String,
    id: u64,
}

impl Table {
    spec fn name(&self) -> TableName {
        (self.database@, self.table@)
    }
}

spec fn names_distinct(tables: Seq<Table>) -> bool {
    forall|i: int, j: int|
        0 <= i < j < tables.len() ==> #[trigger] tables[i].name() != #[trigger] tables[j].name()
}

spec fn ids_distinct(tables: Seq<Table>) -> bool {
    forall|i: int, j: int| 0 <= i < j < tables.len() ==> #[trigger] tables[i].id != #[trigger] tables[j].id
}

spec fn listed(tables: Seq<Table>, name: TableName, i: int) -> bool {
    0 <= i < tables.len() && tables[i].name() == name
}

spec fn id_listed(tables: Seq<Table>, id: u64) -> bool {
    exists|i: int| 0 <= i < tables.len() && #[trigger] tables[i].id == id
}

spec fn catalog_of(tables: Seq<Table>) -> Map<TableName, u64> {
    Map::new(
        |name: TableName| exists|i: int| listed(tables, name, i),
        |name: TableName| tables[choose|i: int| listed(tables, name, i)].id,
    )
}

proof fn lemma_catalog_entry(tables: Seq<Table>, i: int)
    requires
        names_distinct(tables),
        0 <= i < tables.len(),
    ensures
        catalog_of(tables).dom().contains(tables[i].name()),
        catalog_of(tables)[tables[i].name()] == tables[i].id,
{
    let name = tables[i].name();
    assert(listed(tables, name, i));
    let j = choose|j: int| listed(tables, name, j);
    assert(j == i);
}

proof fn lemma_catalog_ids(tables: Seq<Table>, id: u64)
    requires
        names_distinct(tables),
    ensures
        id_in_use(catalog_of(tables), id) <==> id_listed(tables, id),
{
    let catalog = catalog_of(tables);
    if id_in_use(catalog, id) {
        let name = choose|name: TableName| #[trigger]
            catalog.dom().contains(name) && catalog[name] == id;
        let i = choose|i: int| listed(tables, name, i);
        assert(tables[i].id == id);
    }
    if id_listed(tables, id) {
        let i = choose|i: int| 0 <= i < tables.len() && #[trigger] tables[i].id == id;
        lemma_catalog_entry(tables, i);
    }
}

proof fn lemma_catalog_push(tables: Seq<Table>, entry: Table)
    requires
        names_distinct(tables),
        !catalog_of(tables).dom().contains(entry.name()),
    ensures
        names_distinct(tables.push(entry)),
        catalog_of(tables.push(entry)) == catalog_of(tables).insert(entry.name(), entry.id),
{
    let more = tables.push(entry);
    assert forall|i: int, j: int| 0 <= i < j < more.len() implies #[trigger] more[i].name()
        != #[trigger] more[j].name() by {
        if j == tables.len() {
            assert(listed(tables, tables[i].name(), i));
        }
    }
    let grown = catalog_of(tables).insert(entry.name(), entry.id);
    assert forall|name: TableName| catalog_of(more).dom().contains(name) <==> grown.dom().contains(
        name,
    ) by {
        if catalog_of(more).dom().contains(name) {
            let i = choose|i: int| listed(more, name, i);
            if i < tables.len() {
                assert(listed(tables, name, i));
            }
        }
        if grown.dom().contains(name) {
            if name == entry.name() {
                assert(listed(more, name, tables.len() as int));
            } else {
                let i = choose|i: int| listed(tables, name, i);
                assert(listed(more, name, i));
            }
        }
    }
    assert forall|name: TableName| catalog_of(more).dom().contains(name) implies catalog_of(
        more,
    )[name] == grown[name] by {
        let i = choose|i: int| listed(more, name, i);
        lemma_catalog_entry(more, i);
        if i < tables.len() {
            lemma_catalog_entry(tables, i);
        }
    }
    assert(catalog_of(more) =~= grown);
}

proof fn lemma_catalog_remove(tables: Seq<Table>, at: int)
    requires
        names_distinct(tables),
        ids_distinct(tables),
        0 <= at < tables.len(),
    ensures
        names_distinct(tables.remove(at)),
        ids_distinct(tables.remove(at)),
        catalog_of(tables.remove(at)) == catalog_of(tables).remove(tables[at].name()),
{
    let fewer = tables.remove(at);
    let gone = tables[at].name();
    let shrunk = catalog_of(tables).remove(gone);
    assert forall|i: int| 0 <= i < fewer.len() implies #[trigger] fewer[i] == tables[if i < at {
        i
    } else {
        i + 1
    }] by {}
    assert forall|name: TableName| catalog_of(fewer).dom().contains(name) <==> shrunk.dom().contains(
        name,
    ) by {
        if catalog_of(fewer).dom().contains(name) {
            let i = choose|i: int| listed(fewer, name, i);
            let k = if i < at { i } else { i + 1 };
            assert(listed(tables, name, k));
        }
        if shrunk.dom().contains(name) {
            let k = choose|k: int| listed(tables, name, k);
            let i = if k < at { k } else { k - 1 };
            assert(listed(fewer, name, i));
        }
    }
    assert forall|name: TableName| catalog_of(fewer).dom().contains(name) implies catalog_of(
        fewer,
    )[name] == shrunk[name] by {
        let i = choose|i: int| listed(fewer, name, i);
        let k = if i < at { i } else { i + 1 };
        lemma_catalog_entry(fewer, i);
        lemma_catalog_entry(tables, k);
    }
    assert(catalog_of(fewer) =~= shrunk);
}

/// Whether some table of `catalog` has the id `id`.
pub open spec fn id_in_use(catalog: Map<TableName, u64>, id: u64) -> bool {
    exists|name: TableName| #[trigger] catalog.dom().contains(name) && catalog[name] == id
}

/// The `k`-th id that is tried for a new table when `candidate` was drawn
/// for it: `candidate` itself, then the ids after it, going round from the
/// greatest to zero.
pub open spec fn probe(candidate: u64, k: int) -> u64 {
    ((candidate + k) % 0x1_0000_0000_0000_0000) as u64
}

/// Whether the `k`-th id tried after `candidate` is the first that no table
/// of `catalog` has.
pub open spec fn first_free(catalog: Map<TableName, u64>, candidate: u64, k: int) -> bool {
    &&& 0 <= k
    &&& !id_in_use(catalog, probe(candidate, k))
    &&& forall|j: int| 0 <= j < k ==> id_in_use(catalog, #[trigger] probe(candidate, j))
}

/// The id that a new table gets in `catalog` when `candidate` was drawn for
/// it: the first of the ids tried that no table has.
pub open spec fn fresh_id(catalog: Map<TableName, u64>, candidate: u64) -> u64 {
    probe(candidate, choose|k: int| first_free(catalog, candidate, k))
}

/// At most one of the ids tried is the first free one.
pub proof fn lemma_first_free_unique(catalog: Map<TableName, u64>, candidate: u64, k: int)
    requires
        first_free(catalog, candidate, k),
    ensures
        fresh_id(catalog, candidate) == probe(candidate, k),
        !id_in_use(catalog, fresh_id(catalog, candidate)),
        !id_in_use(catalog, candidate) ==> fresh_id(catalog, candidate) == candidate,
{
    let c = choose|c: int| first_free(catalog, candidate, c);
    if c < k {
        assert(id_in_use(catalog, probe(candidate, c)));
    }
    if k < c {
        assert(id_in_use(catalog, probe(candidate, k)));
    }
    if !id_in_use(catalog, candidate) {
        assert(probe(candidate, 0) == candidate);
        if 0 < k {
            assert(id_in_use(catalog, probe(candidate, 0)));
        }
    }
}

proof fn lemma_probes_run_out(tables: Seq<Table>, candidate: u64, n: int)
    requires
        0 <= n <= 0x1_0000_0000_0000_0000,
        forall|j: int| 0 <= j < n ==> id_listed(tables, #[trigger] probe(candidate, j)),
    ensures
        n <= tables.len(),
{
    let tried = set_int_range(0, n);
    let f = |j: int| probe(candidate, j);
    let found = tried.map(f);
    lemma_int_range(0, n);
    assert(injective_on(f, tried)) by {
        assert forall|a: int, b: int| tried.contains(a) && tried.contains(b) && f(a) == f(b) implies a
            == b by {
            assert(probe(candidate, a) == probe(candidate, b));
        }
    }
    lemma_map_size(tried, found, f);
    let ids = tables.map_values(|t: Table| t.id);
    ids.lemma_cardinality_of_set();
    assert(found.subset_of(ids.to_set())) by {
        assert forall|id: u64| found.contains(id) implies ids.to_set().contains(id) by {
            let j = choose|j: int| tried.contains(j) && f(j) == id;
            assert(id_listed(tables, probe(candidate, j)));
            let i = choose|i: int| 0 <= i < tables.len() && #[trigger] tables[i].id == id;
            assert(ids[i] == id);
        }
    }
    lemma_len_subset(found, ids.to_set());
}

/// What opening a table gave.
#[derive(Clone, Copy, Debug, PartialEq, Eq)]
pub enum Opened {
    /// The table was open already: this is its handle, and its file is open.
    Existing(StorageFile),
    /// The table is new to the store: this is its handle, and its file has
    /// yet to be opened.
    Created(StorageFile),
}

impl Opened {
    /// The handle of the table.
    pub open spec fn spec_file(&self) -> StorageFile {
        match *self {
            Opened::Existing(file) => file,
            Opened::Created(file) => file,
        }
    }

    /// The handle of the table.
    pub fn file(&self) -> (file: StorageFile)
        ensures
            file == self.spec_file(),
    {
        match *self {
            Opened::Existing(file) => file,
            Opened::Created(file) => file,
        }
    }
}

/// What opening the table `name` does to `catalog` when `candidate` was
/// drawn: the catalog after it, the table's id, and whether the table is
/// new. A table that is open keeps its id; a new one gets a fresh id.
pub open spec fn spec_open(catalog: Map<TableName, u64>, name: TableName, candidate: u64) -> (
    Map<TableName, u64>,
    u64,
    bool,
) {
    if catalog.dom().contains(name) {
        (catalog, catalog[name], false)
    } else {
        let id = fresh_id(catalog, candidate);
        (catalog.insert(name, id), id, true)
    }
}

/// Opening a table that is open changes nothing: the second opening gives
/// the id that the first gave, whatever is drawn, and leaves the catalog
/// as the first left it.
pub proof fn lemma_reopen_keeps_id(
    catalog: Map<TableName, u64>,
    name: TableName,
    first: u64,
    second: u64,
)
    ensures
        ({
            let once = spec_open(catalog, name, first);
            let twice = spec_open(once.0, name, second);
            &&& once.0.dom().contains(name) && once.0[name] == once.1
            &&& twice.0 == once.0
            &&& twice.1 == once.1
            &&& !twice.2
        }),
{
}

/// The catalog of a store: the tables that are open, each with its id.
pub struct Storage {
    base: String,
    tables: Vec<Table>,
}

impl View for Storage {
    type V = Map<TableName, u64>;

    closed spec fn view(&self) -> Map<TableName, u64> {
        catalog_of(self.tables@)
    }
}

/// Draws an id from `rand::thread_rng()` with `Rng::gen`. Nothing is claimed
/// of the number: any `u64` may come back, and two draws may give one
/// number.
#[verifier::external_body]
fn random_id() -> (id: u64) {
    rand::Rng::gen(&mut rand::thread_rng())
}

impl Storage {
    /// No two tables of the store have one name or one id.
    pub closed spec fn wf(&self) -> bool {
        &&& names_distinct(self.tables@)
        &&& ids_distinct(self.tables@)
    }

    /// Two tables of a store never have one id.
    pub proof fn lemma_tables_apart(&self, one: TableName, other: TableName)
        requires
            self.wf(),
            self@.dom().contains(one),
            self@.dom().contains(other),
            one != other,
        ensures
            self@[one] != self@[other],
    {
        let i = choose|i: int| listed(self.tables@, one, i);
        let j = choose|j: int| listed(self.tables@, other, j);
        lemma_catalog_entry(self.tables@, i);
        lemma_catalog_entry(self.tables@, j);
    }

    /// The directory under which the store keeps its files.
    pub closed spec fn spec_base(&self) -> Seq<char> {
        self.base@
    }

    /// A store under the directory `base`, with no table open.
    pub fn new(base: &str) -> (storage: Storage)
        ensures
            storage.wf(),
            storage.spec_base() == base@,
            storage@ == Map::<TableName, u64>::empty(),
    {
        let storage = Storage { base: base.to_owned(), tables: Vec::new() };
        assert(storage@ =~= Map::<TableName, u64>::empty());
        storage
    }

    /// The directory under which the store keeps its files.
    pub fn base(&self) -> (base: &str)
        ensures
            base@ == self.spec_base(),
    {
        self.base.as_str()
    }

    fn position(&self, database: &String, table: &String) -> (at: Option<usize>)
        requires
            self.wf(),
        ensures
            match at {
                Some(i) => listed(self.tables@, (database@, table@), i as int),
                None => !self@.dom().contains((database@, table@)),
            },
    {
        let mut i: usize = 0;
        while i < self.tables.len()
            invariant
                i <= self.tables.len(),
                forall|j: int| 0 <= j < i ==> !listed(self.tables@, (database@, table@), j),
            decreases self.tables.len() - i,
        {
            if self.tables[i].database == *database && self.tables[i].table == *table {
                return Some(i);
            }
            i = i + 1;
        }
        None
    }

    /// Whether some open table has the id `id`.
    pub fn has_id(&self, id: u64) -> (used: bool)
        requires
            self.wf(),
        ensures
            used == id_in_use(self@, id),
    {
        proof {
            lemma_catalog_ids(self.tables@, id);
        }
        let mut i: usize = 0;
        while i < self.tables.len()
            invariant
                i <= self.tables.len(),
                forall|j: int| 0 <= j < i ==> (#[trigger] self.tables@[j]).id != id,
                id_in_use(self@, id) <==> id_listed(self.tables@, id),
            decreases self.tables.len() - i,
        {
            if self.tables[i].id == id {
                assert(self.tables@[i as int].id == id);
                return true;
            }
            i = i + 1;
        }
        false
    }

    /// The id for a new table when `candidate` was drawn for it: `candidate`
    /// where no open table has it, else the first free id after it.
    pub fn assign_id(&self, candidate: u64) -> (id: u64)
        requires
            self.wf(),
        ensures
            id == fresh_id(self@, candidate),
            !id_in_use(self@, id),
            !id_in_use(self@, candidate) ==> id == candidate,
    {
        let mut id: u64 = candidate;
        let mut steps: usize = 0;
        while self.has_id(id)
            invariant
                self.wf(),
                steps <= self.tables.len(),
                id == probe(candidate, steps as int),
                forall|j: int| 0 <= j < steps ==> id_in_use(self@, #[trigger] probe(candidate, j)),
            decreases self.tables.len() - steps,
        {
            proof {
                assert forall|j: int| 0 <= j < steps + 1 implies id_listed(
                    self.tables@,
                    #[trigger] probe(candidate, j),
                ) by {
                    assert(id_in_use(self@, probe(candidate, j)));
                    lemma_catalog_ids(self.tables@, probe(candidate, j));
                }
                lemma_probes_run_out(self.tables@, candidate, steps + 1);
            }
            id = id.wrapping_add(1);
            steps = steps + 1;
        }
        proof {
            lemma_first_free_unique(self@, candidate, steps as int);
        }
        id
    }

    /// The handle of the table `table` of `database`, if it is open.
    pub fn lookup(&self, database: &str, table: &str) -> (file: Option<StorageFile>)
        requires
            self.wf(),
        ensures
            file is Some <==> self@.dom().contains((database@, table@)),
            file is Some ==> file.unwrap()@ == self@[(database@, table@)],
    {
        let database = database.to_owned();
        let table = table.to_owned();
        match self.position(&database, &table) {
            Some(i) => {
                proof {
                    lemma_catalog_entry(self.tables@, i as int);
                }
                Some(StorageFile { id: self.tables[i].id })
            },
            None => None,
        }
    }

    /// Opens the table `table` of `database` with `candidate` as the number
    /// drawn for its id. A table that is open keeps its id and the store
    /// stays as it is; a new table is entered under a fresh id.
    pub fn open_with(&mut self, database: &str, table: &str, candidate: u64) -> (opened: Opened)
        requires
            old(self).wf(),
        ensures
            final(self).wf(),
            final(self).spec_base() == old(self).spec_base(),
            final(self)@ == spec_open(old(self)@, (database@, table@), candidate).0,
            opened.spec_file()@ == spec_open(old(self)@, (database@, table@), candidate).1,
            opened is Created == spec_open(old(self)@, (database@, table@), candidate).2,
            opened is Created ==> !id_in_use(old(self)@, opened.spec_file()@),
            opened is Created && !id_in_use(old(self)@, candidate) ==> opened.spec_file()@
                == candidate,
    {
        let database = database.to_owned();
        let table = table.to_owned();
        match self.position(&database, &table) {
            Some(i) => {
                proof {
                    lemma_catalog_entry(self.tables@, i as int);
                }
                Opened::Existing(StorageFile { id: self.tables[i].id })
            },
            None => {
                let id = self.assign_id(candidate);
                let entry = Table { database, table, id };
                proof {
                    lemma_catalog_push(self.tables@, entry);
                    lemma_catalog_ids(self.tables@, id);
                    assert(ids_distinct(self.tables@.push(entry)));
                }
                self.tables.push(entry);
                Opened::Created(StorageFile { id })
            },
        }
    }

    /// Opens the table `table` of `database`. A table that is open keeps its
    /// id and the store stays as it is; a new table is entered under an id
    /// that no open table has, drawn at random.
    pub fn open(&mut self, database: &str, table: &str) -> (opened: Opened)
        requires
            old(self).wf(),
        ensures
            final(self).wf(),
            final(self).spec_base() == old(self).spec_base(),
            old(self)@.dom().contains((database@, table@)) ==> {
                &&& opened is Existing
                &&& opened.spec_file()@ == old(self)@[(database@, table@)]
                &&& final(self)@ == old(self)@
            },
            !old(self)@.dom().contains((database@, table@)) ==> {
                &&& opened is Created
                &&& !id_in_use(old(self)@, opened.spec_file()@)
                &&& final(self)@ == old(self)@.insert((database@, table@), opened.spec_file()@)
            },
    {
        let candidate = random_id();
        self.open_with(database, table, candidate)
    }

    /// The handle of the open table with the id `id`, if there is one.
    pub fn get(&self, id: u64) -> (file: Option<StorageFile>)
        requires
            self.wf(),
        ensures
            file is Some <==> id_in_use(self@, id),
            file is Some ==> file.unwrap()@ == id,
    {
        if self.has_id(id) {
            Some(StorageFile { id })
        } else {
            None
        }
    }

    /// Closes the table `table` of `database`: the store forgets it, and
    /// hands back the handle under which its file was open. `None` where
    /// the table was not open; the store then stays as it is.
    pub fn close(&mut self, database: &str, table: &str) -> (file: Option<StorageFile>)
        requires
            old(self).wf(),
        ensures
            final(self).wf(),
            final(self).spec_base() == old(self).spec_base(),
            final(self)@ == old(self)@.remove((database@, table@)),
            file is Some <==> old(self)@.dom().contains((database@, table@)),
            file is Some ==> file.unwrap()@ == old(self)@[(database@, table@)],
    {
        let database = database.to_owned();
        let table = table.to_owned();
        match self.position(&database, &table) {
            Some(i) => {
                proof {
                    lemma_catalog_entry(self.tables@, i as int);
                    lemma_catalog_remove(self.tables@, i as int);
                }
                let entry = self.tables.remove(i);
                Some(StorageFile { id: entry.id })
            },
            None => {
                assert(self@.remove((database@, table@)) =~= self@);
                None
            },
        }
    }
}

} // verus!
