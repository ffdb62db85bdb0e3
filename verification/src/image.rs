//! What page requests mean for the bytes of the files that they name.
//!
//! The library carries out no request. The definitions here say what
//! carrying one out is, and the laws hold of every caller that carries
//! requests out in this way.

use crate::storage::{Page, PageRead, PageWrite, StorageFile, PAGE_SIZE};
use vstd::prelude::*;

verus! {

/// The files of a store: the bytes of each table's file, by the table's id.
/// A table without an entry has an empty file.
pub type Files = Map<u64, Seq<u8>>;

/// The bytes of the file of the table `id`.
pub open spec fn file_of(files: Files, id: u64) -> Seq<u8> {
    if files.dom().contains(id) {
        files[id]
    } else {
        Seq::empty()
    }
}

/// The file `file` once `bytes` are written at `offset`: the bytes stand
/// from `offset` on, the rest of the file is as it was, and a file that
/// ended before the written bytes do is filled up with zeros between.
pub open spec fn write_to(file: Seq<u8>, offset: int, bytes: Seq<u8>) -> Seq<u8> {
    let end = offset + bytes.len();
    Seq::new(
        if file.len() < end {
            end as nat
        } else {
            file.len()
        },
        |i: int|
            if offset <= i < end {
                bytes[i - offset]
            } else if i < file.len() {
                file[i]
            } else {
                0u8
            },
    )
}

/// The `len` bytes of `file` from `offset` on, or `None` where the file
/// ends before them.
pub open spec fn read_from(file: Seq<u8>, offset: int, len: int) -> Option<Seq<u8>> {
    if offset + len <= file.len() {
        Some(file.subrange(offset, offset + len))
    } else {
        None
    }
}

/// The files once `write` is carried out.
pub open spec fn after_write(files: Files, write: PageWrite) -> Files {
    files.insert(write.file, write_to(file_of(files, write.file), write.offset as int, write.bytes@))
}

/// The page that carrying out `read` gives, or `None` where the file ends
/// before the page does.
pub open spec fn answer(files: Files, read: PageRead) -> Option<Seq<u8>> {
    read_from(file_of(files, read.file), read.offset as int, PAGE_SIZE as int)
}

/// A page reads back as it was written: after the write of `page` as page
/// `at` through one handle of a table, the read of page `at` through any
/// handle of that table gives `page`.
pub proof fn lemma_page_reads_back(
    files: Files,
    writer: StorageFile,
    reader: StorageFile,
    at: usize,
    page: Page,
)
    requires
        writer@ == reader@,
        writer.spec_write_page(at, page) is Ok,
    ensures
        reader.spec_read_page(at) is Ok,
        answer(
            after_write(files, writer.spec_write_page(at, page).unwrap()),
            reader.spec_read_page(at).unwrap(),
        ) == Some(page@),
{
    let write = writer.spec_write_page(at, page).unwrap();
    let read = reader.spec_read_page(at).unwrap();
    let file = file_of(after_write(files, write), read.file);
    assert(file.subrange(read.offset as int, read.offset + PAGE_SIZE) =~= page@);
}

/// A write changes no other page of its table: a page other than the
/// written one that the file held reads as it did before the write.
pub proof fn lemma_write_keeps_other_pages(
    files: Files,
    file: StorageFile,
    at: usize,
    page: Page,
    other: usize,
)
    requires
        at != other,
        file.spec_write_page(at, page) is Ok,
        file.spec_read_page(other) is Ok,
        answer(files, file.spec_read_page(other).unwrap()) is Some,
    ensures
        answer(
            after_write(files, file.spec_write_page(at, page).unwrap()),
            file.spec_read_page(other).unwrap(),
        ) == answer(files, file.spec_read_page(other).unwrap()),
{
    let write = file.spec_write_page(at, page).unwrap();
    let read = file.spec_read_page(other).unwrap();
    let before = file_of(files, read.file);
    let after = file_of(after_write(files, write), read.file);
    assert(after.subrange(read.offset as int, read.offset + PAGE_SIZE) =~= before.subrange(
        read.offset as int,
        read.offset + PAGE_SIZE,
    ));
}

/// Two writes of different pages of a table do not disturb each other: in
/// whichever order they are carried out, each page then reads back as it
/// was written.
pub proof fn lemma_two_writes_both_read_back(
    files: Files,
    file: StorageFile,
    one: usize,
    one_page: Page,
    other: usize,
    other_page: Page,
)
    requires
        one != other,
        file.spec_write_page(one, one_page) is Ok,
        file.spec_write_page(other, other_page) is Ok,
    ensures
        ({
            let first = file.spec_write_page(one, one_page).unwrap();
            let second = file.spec_write_page(other, other_page).unwrap();
            let this_way = after_write(after_write(files, first), second);
            let that_way = after_write(after_write(files, second), first);
            &&& answer(this_way, file.spec_read_page(one).unwrap()) == Some(one_page@)
            &&& answer(this_way, file.spec_read_page(other).unwrap()) == Some(other_page@)
            &&& answer(that_way, file.spec_read_page(one).unwrap()) == Some(one_page@)
            &&& answer(that_way, file.spec_read_page(other).unwrap()) == Some(other_page@)
        }),
{
    let first = file.spec_write_page(one, one_page).unwrap();
    let second = file.spec_write_page(other, other_page).unwrap();
    lemma_page_reads_back(files, file, file, one, one_page);
    lemma_page_reads_back(files, file, file, other, other_page);
    lemma_page_reads_back(after_write(files, first), file, file, other, other_page);
    lemma_page_reads_back(after_write(files, second), file, file, one, one_page);
    lemma_write_keeps_other_pages(after_write(files, first), file, other, other_page, one);
    lemma_write_keeps_other_pages(after_write(files, second), file, one, one_page, other);
}

/// A write to one table changes no page of another: through a handle with
/// another id, every read gives what it gave before the write.
pub proof fn lemma_write_keeps_other_tables(
    files: Files,
    written: StorageFile,
    kept: StorageFile,
    at: usize,
    page: Page,
    other: usize,
)
    requires
        written@ != kept@,
        written.spec_write_page(at, page) is Ok,
        kept.spec_read_page(other) is Ok,
    ensures
        answer(
            after_write(files, written.spec_write_page(at, page).unwrap()),
            kept.spec_read_page(other).unwrap(),
        ) == answer(files, kept.spec_read_page(other).unwrap()),
{
}

} // verus!
