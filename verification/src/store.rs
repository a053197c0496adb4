//! The store itself: a file of pages, the table of the sealed pages that have
//! been handed out, and the operations on them.

use vstd::prelude::*;
use std::hash::BuildHasherDefault;
use fnv::{FnvHashMap, FnvHasher};
use crate::blob::Blob;
use crate::codec::{lemma_u64_round_trip, splice, write_length_prefixed};
use crate::error::StoreError;
use crate::file::{pad_to, resized};
use crate::header;
use crate::layout::{
    in_page, lemma_offset_join, lemma_offset_split, lemma_page_of_bound, lemma_page_start_ordered,
    lemma_page_start_step, page_of, page_offset, page_span, page_start, valid_page_size,
    HEADER_SIZE,
};
use crate::model::{
    append_outcome, appended, committed, crosses, lemma_appended, lemma_crosses, lemma_file_end,
    lemma_opened_well_formed, lemma_read_stored, lemma_sealed, lemma_written, open_outcome,
    page_window, read, sealed, well_formed, written,
};
use crate::page::{Page, PageInner};
use crate::plan::{is_sealed, locate, plan_append, plan_open};

verus! {

/// `fnv::FnvHasher`, the hasher of the page table. Nothing is said of it.
#[verifier::external_type_specification]
#[verifier::external_body]
pub struct ExFnvHasher(FnvHasher);

/// `std::hash::BuildHasherDefault`, which makes the table's hashers. Nothing
/// is said of it.
#[verifier::external_type_specification]
#[verifier::external_body]
#[verifier::reject_recursive_types(H)]
pub struct ExBuildHasherDefault<H>(BuildHasherDefault<H>);

/// `FnvHashMap::default`: a map that holds no key.
#[verifier::external_body]
fn table_new<const SIZE: usize>() -> (table: FnvHashMap<u64, Page<SIZE>>)
    ensures
        table@.dom() == Set::<u64>::empty(),
{
    FnvHashMap::default()
}

/// `HashMap::get` on an `FnvHashMap`: the value stored under `page`, if the
/// map holds that key.
#[verifier::external_body]
fn table_get<const SIZE: usize>(table: &FnvHashMap<u64, Page<SIZE>>, page: u64) -> (found: Option<
    &Page<SIZE>,
>)
    ensures
        found == (if table@.dom().contains(page) {
            Some(&table@[page])
        } else {
            None
        }),
{
    table.get(&page)
}

/// `HashMap::insert` on an `FnvHashMap`: afterwards the map holds `sealed`
/// under `page`, and every other key as before.
#[verifier::external_body]
fn table_insert<const SIZE: usize>(
    table: &mut FnvHashMap<u64, Page<SIZE>>,
    page: u64,
    sealed: Page<SIZE>,
)
    ensures
        final(table)@ == old(table)@.insert(page, sealed),
{
    table.insert(page, sealed);
}

/// Bytes that two files share below `from` make the pages that end there the same.
proof fn lemma_window_kept(before: Seq<u8>, after: Seq<u8>, page: nat, from: nat, page_size: nat)
    requires
        page_start(page + 1, page_size) <= from <= before.len() <= after.len(),
        forall|i: int| HEADER_SIZE <= i < from ==> after[i] == before[i],
    ensures
        page_window(after, page, page_size) == page_window(before, page, page_size),
{
    lemma_page_start_step(page, page_size);
    assert(page_window(after, page, page_size) =~= page_window(before, page, page_size));
}

/// The store over the bytes of its file.
pub struct Inner<const SIZE: usize> {
    file: Vec<u8>,
    pages: FnvHashMap<u64, Page<SIZE>>,
}

impl<const SIZE: usize> Inner<SIZE> {
    /// The bytes of the file.
    pub closed spec fn view(&self) -> Seq<u8> {
        self.file@
    }

    /// Every page in the table is a sealed page, with the bytes that the file
    /// holds for it.
    pub closed spec fn table_agrees(&self) -> bool {
        forall|k: u64| #[trigger]
            self.pages@.dom().contains(k) ==> k < page_of(committed(self.file@), SIZE as nat)
                && self.pages@[k]@ == page_window(self.file@, k as nat, SIZE as nat)
    }

    /// The pages that the table holds.
    pub closed spec fn mapped(&self) -> Set<u64> {
        self.pages@.dom()
    }

    /// The file ends with its tail page, and the table agrees with the file.
    pub open spec fn wf(&self) -> bool {
        &&& well_formed(self@, SIZE as nat)
        &&& self.table_agrees()
    }

    /// Opens the store over a file. A file shorter than the header is first
    /// filled up with zeros; then the file is cut, or filled up with zeros, so
    /// that it ends with the page that holds its committed size.
    pub fn new(file: Vec<u8>) -> (r: Result<Self, StoreError>)
        requires
            valid_page_size(SIZE as nat),
        ensures
            match r {
                Ok(store) => {
                    &&& store.wf()
                    &&& open_outcome(file@, SIZE as nat, usize::MAX as nat) == Ok::<
                        Seq<u8>,
                        StoreError,
                    >(store@)
                    &&& store.mapped() == Set::<u64>::empty()
                },
                Err(e) => open_outcome(file@, SIZE as nat, usize::MAX as nat) == Err::<
                    Seq<u8>,
                    StoreError,
                >(e),
            },
    {
        let mut file = file;
        header::open(&mut file);
        let ghost headed = file@;
        let size: u64 = header::size(file.as_slice());
        proof {
            reveal(resized);
            lemma_opened_well_formed(file@, SIZE as nat);
        }
        let want: u64 = match plan_open(size, SIZE) {
            Err(e) => {
                return Err(e);
            },
            Ok(want) => want,
        };
        if want > usize::MAX as u64 {
            return Err(StoreError::Io);
        }
        let file_size: usize = file.len();
        if file_size > want as usize {
            file.truncate(want as usize);
        } else if file_size < want as usize {
            pad_to(&mut file, want as usize);
        }
        proof {
            reveal(resized);
            assert(file@ =~= resized(headed, want as nat));
        }
        let store = Inner { file, pages: table_new() };
        Ok(store)
    }

    /// Index of the page that holds `offset`.
    pub fn page(offset: u64) -> (page: u64)
        requires
            SIZE > 0,
        ensures
            page == page_of(offset as nat, SIZE as nat),
    {
        offset / (SIZE as u64)
    }

    /// Position of `offset` within its page.
    pub fn offset_within_page(offset: u64) -> (at: usize)
        requires
            SIZE > 0,
        ensures
            at == in_page(offset as nat, SIZE as nat),
    {
        (offset % (SIZE as u64)) as usize
    }

    /// Logical offset of the first byte of page `page`.
    pub fn offset_of_page(page: u64) -> (offset: u64)
        requires
            page_offset(page as nat, SIZE as nat) <= u64::MAX,
        ensures
            offset == page_offset(page as nat, SIZE as nat),
    {
        page * (SIZE as u64)
    }

    /// The committed size.
    pub fn size(&self) -> (size: u64)
        requires
            self.wf(),
        ensures
            size == committed(self@),
    {
        proof {
            lemma_file_end(committed(self@), SIZE as nat);
        }
        header::size(self.file.as_slice())
    }

    /// Index of the tail page.
    pub fn current_page(&self) -> (page: u64)
        requires
            self.wf(),
        ensures
            page == page_of(committed(self@), SIZE as nat),
    {
        self.size() / (SIZE as u64)
    }

    /// Number of committed bytes in the tail page.
    pub fn current_offset_in_page(&self) -> (at: usize)
        requires
            self.wf(),
        ensures
            at == in_page(committed(self@), SIZE as nat),
    {
        (self.size() % (SIZE as u64)) as usize
    }

    /// Copies page `page` out of the file. Fails where the file does not
    /// extend over that page.
    pub fn map_page(file: &Vec<u8>, page: u64) -> (r: Result<Vec<u8>, StoreError>)
        requires
            SIZE > 0,
        ensures
            match r {
                Ok(bytes) => {
                    &&& page_start(page as nat + 1, SIZE as nat) <= file@.len()
                    &&& bytes@ == page_window(file@, page as nat, SIZE as nat)
                    &&& bytes@.len() == SIZE
                },
                Err(e) => e == StoreError::Io && page_start(page as nat + 1, SIZE as nat)
                    > file@.len(),
            },
    {
        proof {
            lemma_page_start_step(page as nat, SIZE as nat);
        }
        let total: usize = file.len();
        let (start, end) = match page_span(page, SIZE) {
            None => {
                return Err(StoreError::Io);
            },
            Some(span) => span,
        };
        if end > total as u64 {
            return Err(StoreError::Io);
        }
        let window = vstd::slice::slice_subrange(file.as_slice(), start as usize, end as usize);
        Ok(vstd::slice::slice_to_vec(window))
    }

    /// Makes page `page` writable: a file that does not extend over the page
    /// is filled up with zeros to the end of the page. Gives the position of
    /// the page in the file.
    pub fn map_page_mut(file: &mut Vec<u8>, page: u64) -> (r: Result<usize, StoreError>)
        requires
            SIZE > 0,
        ensures
            match r {
                Ok(start) => {
                    &&& start == page_start(page as nat, SIZE as nat)
                    &&& page_start(page as nat + 1, SIZE as nat) <= usize::MAX
                    &&& final(file)@ == if old(file)@.len() < page_start(
                        page as nat + 1,
                        SIZE as nat,
                    ) {
                        resized(old(file)@, page_start(page as nat + 1, SIZE as nat))
                    } else {
                        old(file)@
                    }
                },
                Err(e) => e == StoreError::Io && page_start(page as nat + 1, SIZE as nat)
                    > usize::MAX && final(file)@ == old(file)@,
            },
    {
        proof {
            lemma_page_start_step(page as nat, SIZE as nat);
        }
        let (page_start, page_end) = match page_span(page, SIZE) {
            None => {
                return Err(StoreError::Io);
            },
            Some(span) => span,
        };
        if page_end > usize::MAX as u64 {
            return Err(StoreError::Io);
        }
        pad_to(file, page_end as usize);
        Ok(page_start as usize)
    }

    /// Seals the tail page: the file grows by one page of zeros, which becomes
    /// the tail page; the page that was the tail enters the table; and the
    /// committed size moves to the start of the new tail page.
    pub fn close_page(&mut self) -> (r: Result<(), StoreError>)
        requires
            old(self).wf(),
        ensures
            final(self).wf(),
            match r {
                Ok(_) => {
                    &&& final(self)@ == sealed(old(self)@, SIZE as nat)
                    &&& old(self)@.len() + SIZE <= usize::MAX
                    &&& final(self).mapped() == old(self).mapped().insert(
                        page_of(committed(old(self)@), SIZE as nat) as u64,
                    )
                },
                Err(e) => {
                    &&& e == StoreError::Io
                    &&& old(self)@.len() + SIZE > usize::MAX
                    &&& final(self)@ == old(self)@
                    &&& final(self).mapped() == old(self).mapped()
                },
            },
    {
        let current_page: u64 = self.current_page();
        let ghost tail = current_page as nat;
        let ghost before = self.file@;
        let total: usize = self.file.len();
        proof {
            lemma_file_end(committed(before), SIZE as nat);
            lemma_page_start_step(tail + 1, SIZE as nat);
            lemma_offset_join(tail + 1, 0, SIZE as nat);
            lemma_page_of_bound(committed(before), SIZE as nat);
        }
        match Self::map_page_mut(&mut self.file, current_page + 1) {
            Err(e) => {
                return Err(e);
            },
            Ok(_) => {},
        }
        let ghost grown = self.file@;
        proof {
            reveal(resized);
            lemma_sealed(before, SIZE as nat);
        }
        let sealed: Vec<u8> = match Self::map_page(&self.file, current_page) {
            Err(e) => {
                // The file extends over the page that was its tail.
                assert(false);
                return Err(e);
            },
            Ok(sealed) => sealed,
        };
        table_insert(&mut self.pages, current_page, Page::new(sealed));
        let next: u64 = Self::offset_of_page(current_page + 1);
        header::set_size(self.file.as_mut_slice(), next);
        proof {
            let after = self.file@;
            assert(grown == resized(before, (before.len() + SIZE) as nat));
            assert forall|i: int| HEADER_SIZE <= i < grown.len() implies after[i] == grown[i] by {
                reveal(splice);
                lemma_u64_round_trip(next);
            }
            assert forall|k: u64| #[trigger] self.pages@.dom().contains(k) implies k < tail + 1
                && self.pages@[k]@ == page_window(after, k as nat, SIZE as nat) by {
                lemma_page_start_ordered(k as nat + 1, tail + 1, SIZE as nat);
                if k == current_page {
                    lemma_window_kept(grown, after, tail, grown.len(), SIZE as nat);
                } else {
                    lemma_window_kept(before, after, k as nat, before.len(), SIZE as nat);
                }
            }
        }
        Ok(())
    }

    /// The blob of the record that starts at `offset`.
    ///
    /// A sealed page is taken from the table, or copied out of the file and
    /// entered there. The tail page is copied afresh each time, and only a
    /// prefix that lies in its committed part is read.
    pub fn bytes(&mut self, offset: u64) -> (r: Result<Blob<PageInner<SIZE>>, StoreError>)
        requires
            old(self).wf(),
        ensures
            final(self).wf(),
            final(self)@ == old(self)@,
            final(self).mapped() == if page_of(offset as nat, SIZE as nat) < page_of(
                committed(old(self)@),
                SIZE as nat,
            ) {
                old(self).mapped().insert(page_of(offset as nat, SIZE as nat) as u64)
            } else {
                old(self).mapped()
            },
            match r {
                Ok(blob) => read(old(self)@, SIZE as nat, offset as nat) == Ok::<
                    Seq<u8>,
                    StoreError,
                >(blob@),
                Err(e) => read(old(self)@, SIZE as nat, offset as nat) == Err::<
                    Seq<u8>,
                    StoreError,
                >(e),
            },
    {
        let page: u64 = Self::page(offset);
        let page_offset: usize = Self::offset_within_page(offset);
        if let Some(sealed) = table_get(&self.pages, page) {
            assert(self.pages@.dom().insert(page) =~= self.pages@.dom());
            return sealed.bytes(page_offset);
        }
        let size: u64 = self.size();
        if let Err(e) = locate(size, offset, SIZE) {
            return Err(e);
        }
        proof {
            lemma_file_end(committed(self.file@), SIZE as nat);
            lemma_page_start_ordered(
                page as nat + 1,
                page_of(committed(self.file@), SIZE as nat) + 1,
                SIZE as nat,
            );
        }
        let mapped: Vec<u8> = match Self::map_page(&self.file, page) {
            Err(e) => {
                // The file extends over every page up to its tail.
                assert(false);
                return Err(e);
            },
            Ok(mapped) => mapped,
        };
        let mapped: Page<SIZE> = Page::new(mapped);
        let res = mapped.bytes(page_offset);
        if is_sealed(size, page, SIZE) {
            table_insert(&mut self.pages, page, mapped);
        }
        res
    }

    /// Appends `data` as a new record and gives its logical offset.
    ///
    /// A record never spans two pages: one that would not end in the tail page
    /// goes to the start of a fresh page, and the tail page is sealed.
    pub fn append(&mut self, data: &[u8]) -> (r: Result<u64, StoreError>)
        requires
            old(self).wf(),
        ensures
            final(self).wf(),
            match r {
                Ok(offset) => {
                    &&& append_outcome(
                        committed(old(self)@),
                        data@.len(),
                        SIZE as nat,
                        usize::MAX as nat,
                    ) == Ok::<nat, StoreError>(offset as nat)
                    &&& final(self)@ == appended(old(self)@, SIZE as nat, data@)
                    &&& committed(final(self)@) == offset + 4 + data@.len()
                    &&& committed(old(self)@) <= offset
                    &&& in_page(offset as nat, SIZE as nat) + 4 + data@.len() < SIZE
                    &&& read(final(self)@, SIZE as nat, offset as nat) == Ok::<Seq<u8>, StoreError>(
                        data@,
                    )
                    &&& final(self).mapped() == if crosses(
                        committed(old(self)@),
                        data@.len(),
                        SIZE as nat,
                    ) {
                        old(self).mapped().insert(page_of(committed(old(self)@), SIZE as nat) as u64)
                    } else {
                        old(self).mapped()
                    }
                },
                Err(e) => {
                    &&& append_outcome(
                        committed(old(self)@),
                        data@.len(),
                        SIZE as nat,
                        usize::MAX as nat,
                    ) == Err::<nat, StoreError>(e)
                    &&& final(self)@ == old(self)@
                    &&& final(self).mapped() == old(self).mapped()
                },
            },
    {
        let size: u64 = self.size();
        let total: usize = self.file.len();
        let plan = match plan_append(size, data.len(), SIZE) {
            Err(e) => {
                return Err(e);
            },
            Ok(plan) => plan,
        };
        proof {
            lemma_crosses(size as nat, data@.len(), SIZE as nat);
            lemma_file_end(size as nat, SIZE as nat);
            lemma_file_end(plan.offset as nat, SIZE as nat);
            lemma_page_start_step(page_of(size as nat, SIZE as nat) + 1, SIZE as nat);
        }
        if plan.seal {
            match self.close_page() {
                Err(e) => {
                    return Err(e);
                },
                Ok(_) => {},
            }
            proof {
                lemma_sealed(old(self)@, SIZE as nat);
            }
        }
        self.write_record(data);
        proof {
            lemma_appended(old(self)@, SIZE as nat, data@, usize::MAX as nat);
            lemma_read_stored(self@, SIZE as nat, plan.offset as nat, data@);
        }
        Ok(plan.offset)
    }

    /// Writes the record of `data` into the tail page, where the committed
    /// size points, and moves the committed size to the end of the record.
    fn write_record(&mut self, data: &[u8])
        requires
            old(self).wf(),
            in_page(committed(old(self)@), SIZE as nat) + data@.len() + 4 < SIZE,
        ensures
            final(self).wf(),
            final(self)@ == written(old(self)@, data@),
            final(self).mapped() == old(self).mapped(),
    {
        let ghost before = self.file@;
        let size: u64 = self.size();
        let total: usize = self.file.len();
        proof {
            lemma_file_end(size as nat, SIZE as nat);
            lemma_offset_split(size as nat, SIZE as nat);
            lemma_written(before, SIZE as nat, data@);
        }
        let start: usize = HEADER_SIZE as usize + size as usize;
        write_length_prefixed(self.file.as_mut_slice(), start, data);
        header::set_size(self.file.as_mut_slice(), size + data.len() as u64 + 4);
        proof {
            let after = self.file@;
            assert forall|k: u64| #[trigger] self.pages@.dom().contains(k) implies k < page_of(
                committed(after),
                SIZE as nat,
            ) && self.pages@[k]@ == page_window(after, k as nat, SIZE as nat) by {
                lemma_page_start_ordered(
                    k as nat + 1,
                    page_of(size as nat, SIZE as nat),
                    SIZE as nat,
                );
                lemma_window_kept(before, after, k as nat, start as nat, SIZE as nat);
            }
        }
    }

    /// Whether the table holds page `page`.
    pub fn is_mapped(&self, page: u64) -> (held: bool)
        ensures
            held == self.mapped().contains(page),
    {
        table_get(&self.pages, page).is_some()
    }

    /// The bytes of the file.
    pub fn file(&self) -> (file: &Vec<u8>)
        ensures
            file@ == self@,
    {
        &self.file
    }

    /// Gives the file back.
    pub fn into_file(self) -> (file: Vec<u8>)
        ensures
            file@ == self@,
    {
        self.file
    }

    /// Nothing is buffered, so there is nothing to do.
    pub fn flush(&self) -> (r: Result<(), StoreError>)
        ensures
            r.is_ok(),
    {
        Ok(())
    }
}

} // verus!
