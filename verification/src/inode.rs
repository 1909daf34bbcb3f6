//! Paged byte storage: an inode keeps a file's contents in 4096-byte pages
//! reached through a singly-indirect page list for the first 256 pages and a
//! doubly-indirect list of page lists for the rest.

use vstd::arithmetic::div_mod::lemma_div_is_ordered;
use vstd::arithmetic::div_mod::lemma_div_pos_is_pos;
use vstd::arithmetic::div_mod::lemma_fundamental_div_mod;
use vstd::arithmetic::div_mod::lemma_fundamental_div_mod_converse_div;
use vstd::arithmetic::div_mod::lemma_fundamental_div_mod_converse_mod;
use vstd::arithmetic::div_mod::lemma_mod_division_less_than_divisor;
use vstd::prelude::*;

verus! {

/// Size in bytes of one page.
pub const PAGE_SIZE: usize = 4096;

/// Number of slots in a page list.
pub const LIST_SIZE: usize = 256;

/// Total number of addressable pages: 256 singly-indirect pages followed by
/// 256 lists of 256 doubly-indirect pages.
pub const N_PAGES: usize = 256 + 256 * 256;

/// Largest file length in bytes: every addressable page filled.
pub const MAX_FILE_SIZE: usize = 4096 * (256 + 256 * 256);

/// A page of file contents; always exactly `PAGE_SIZE` bytes long.
pub type Page = Vec<u8>;

/// A fixed-capacity list of `LIST_SIZE` optional slots, used for both levels
/// of the page table.
pub type TList<T> = Vec<Option<T>>;

/// A wall-clock instant: seconds and nanoseconds since the Unix epoch.
#[derive(Clone, Copy, PartialEq, Eq, Structural, Debug)]
pub struct Timespec {
    pub sec: i64,
    pub nsec: i32,
}

/// Relies on `time::get_time` for the current wall-clock time. Nothing is
/// assumed about the value returned: timestamps are opaque to every proof.
#[verifier::external_body]
fn clock_now() -> Timespec {
    let t = time::get_time();
    Timespec { sec: t.sec, nsec: t.nsec }
}

/// Builds an empty page list: `LIST_SIZE` slots, all unoccupied.
pub fn create_tlist<T>() -> (l: TList<T>)
    ensures
        l@.len() == LIST_SIZE,
        forall|i: int| 0 <= i < LIST_SIZE ==> l@[i] is None,
{
    let mut l: Vec<Option<T>> = Vec::new();
    let mut k: usize = 0;
    while k < LIST_SIZE
        invariant
            k <= LIST_SIZE,
            l@.len() == k,
            forall|i: int| 0 <= i < k ==> l@[i] is None,
        decreases LIST_SIZE - k,
    {
        l.push(None);
        k = k + 1;
    }
    l
}

/// Builds a page of `PAGE_SIZE` zero bytes.
fn zero_page() -> (p: Page)
    ensures
        p@ =~= spec_zero_page(),
{
    let mut p: Vec<u8> = Vec::new();
    let mut k: usize = 0;
    while k < PAGE_SIZE
        invariant
            k <= PAGE_SIZE,
            p@.len() == k,
            forall|i: int| 0 <= i < k ==> p@[i] == 0u8,
        decreases PAGE_SIZE - k,
    {
        p.push(0u8);
        k = k + 1;
    }
    p
}

/// The contents of a page that has been allocated but never written.
pub open spec fn spec_zero_page() -> Seq<u8> {
    Seq::new(PAGE_SIZE as nat, |i: int| 0u8)
}

/// Number of pages the byte range `[offset, offset + len)` touches: the
/// partial first page counts whole, so this is the rounded-up quotient of
/// `offset % PAGE_SIZE + len` by `PAGE_SIZE`.
pub open spec fn pages_spanned(offset: int, len: int) -> int {
    (offset % (PAGE_SIZE as int) + len + PAGE_SIZE - 1) / (PAGE_SIZE as int)
}

/// Whether page `p` is touched by an access of `len` bytes at `offset`.
pub open spec fn page_touched(offset: int, len: int, p: int) -> bool {
    offset / (PAGE_SIZE as int) <= p < offset / (PAGE_SIZE as int) + pages_spanned(offset, len)
}

/// A write of `len` bytes at `offset` stays within the page table. A write
/// that would touch a page past the last addressable one is fatal, so it is
/// excluded; a write of nothing at a page boundary touches no page at all.
pub open spec fn write_ok(offset: int, len: int) -> bool {
    (len == 0 && offset % (PAGE_SIZE as int) == 0) || offset + len <= MAX_FILE_SIZE
}

/// The paged contents after writing `data` at byte offset `offset`: every
/// touched page exists afterwards; bytes inside the written range come from
/// `data`; the remaining bytes of a touched page keep their old value, or
/// are zero where the page is fresh; untouched pages are unchanged.
pub open spec fn spec_write(m: Map<int, Seq<u8>>, offset: int, data: Seq<u8>) -> Map<int, Seq<u8>> {
    Map::new(
        |p: int| m.contains_key(p) || (0 <= p && page_touched(offset, data.len() as int, p)),
        |p: int|
            Seq::new(
                PAGE_SIZE as nat,
                |r: int|
                    {
                        let a = p * PAGE_SIZE + r;
                        if offset <= a < offset + data.len() {
                            data[a - offset]
                        } else if m.contains_key(p) {
                            m[p][r]
                        } else {
                            0u8
                        }
                    },
            ),
    )
}

/// Every page touched by a read of `len` bytes at `offset` exists. Reading
/// through an unoccupied slot is fatal, so `read` demands this.
pub open spec fn read_ok(m: Map<int, Seq<u8>>, offset: int, len: int) -> bool {
    forall|p: int| page_touched(offset, len, p) ==> m.contains_key(p)
}

/// The `len` bytes of the paged contents beginning at byte offset `offset`.
pub open spec fn spec_read(m: Map<int, Seq<u8>>, offset: int, len: int) -> Seq<u8> {
    Seq::new(
        len as nat,
        |j: int| m[(offset + j) / (PAGE_SIZE as int)][(offset + j) % (PAGE_SIZE as int)],
    )
}

/// The logical size after a write of `len` bytes at `offset`: the old size,
/// or one past the end of the written range where that lies higher.
pub open spec fn size_after(sz: nat, offset: int, len: int) -> nat {
    if offset + len > sz {
        (offset + len) as nat
    } else {
        sz
    }
}

/// Round trip: after writing `data` at byte offset `offset`, reading
/// `data.len()` bytes back from `offset` is permitted and yields `data`
/// again, whatever the contents held before.
pub proof fn lemma_write_then_read(m: Map<int, Seq<u8>>, offset: int, data: Seq<u8>)
    requires
        0 <= offset,
    ensures
        read_ok(spec_write(m, offset, data), offset, data.len() as int),
        spec_read(spec_write(m, offset, data), offset, data.len() as int) == data,
{
    let w = spec_write(m, offset, data);
    let dlen = data.len() as int;
    let pgz = PAGE_SIZE as int;
    assert forall|p: int| page_touched(offset, dlen, p) implies w.contains_key(p) by {
        lemma_div_pos_is_pos(offset, pgz);
    }
    assert forall|j: int| 0 <= j < dlen implies spec_read(w, offset, dlen)[j] == data[j] by {
        let a = offset + j;
        lemma_fundamental_div_mod(a, pgz);
        lemma_mod_division_less_than_divisor(a, pgz);
        let p = a / pgz;
        let rr = a % pgz;
        lemma_byte_page(offset, dlen, a);
        assert(w.contains_key(p));
        assert(p * pgz + rr == a);
        assert(w[p][rr] == data[a - offset]);
        assert(spec_read(w, offset, dlen)[j] == w[p][rr]);
    }
    assert(spec_read(w, offset, dlen) =~= data);
}

/// Size monotonicity: the size after a write is at least the end of the
/// written range and at least the old size, so the size is the running
/// maximum of the endpoints of all writes.
pub proof fn lemma_size_monotonic(sz: nat, offset: int, len: int)
    requires
        0 <= offset,
        0 <= len,
    ensures
        size_after(sz, offset, len) >= offset + len,
        size_after(sz, offset, len) >= sz,
{
}

/// An integer of the form `p * d + r` with `0 <= r < d` divides into
/// quotient `p` and remainder `r`.
proof fn lemma_div_ident(p: int, r: int, d: int)
    requires
        d > 0,
        0 <= r < d,
    ensures
        (p * d + r) / d == p,
        (p * d + r) % d == r,
{
    lemma_fundamental_div_mod_converse_div(p * d + r, d, p, r);
    lemma_fundamental_div_mod_converse_mod(p * d + r, d, p, r);
}

/// A nonnegative integer below `k * d` has quotient below `k`.
proof fn lemma_div_upper(x: int, k: int, d: int)
    requires
        d > 0,
        0 <= x,
        x < k * d,
    ensures
        x / d < k,
{
    lemma_fundamental_div_mod(x, d);
    lemma_mod_division_less_than_divisor(x, d);
    assert(x / d < k) by (nonlinear_arith)
        requires
            d > 0,
            d * (x / d) + x % d == x,
            0 <= x % d,
            x < k * d,
    ;
}

/// The pages spanned by an access cover its byte range and no whole page
/// more.
proof fn lemma_spanned_bounds(offset: int, len: int)
    requires
        0 <= offset,
        0 <= len,
    ensures
        offset % (PAGE_SIZE as int) + len <= pages_spanned(offset, len) * (PAGE_SIZE as int),
        pages_spanned(offset, len) * (PAGE_SIZE as int) < offset % (PAGE_SIZE as int) + len
            + PAGE_SIZE,
        pages_spanned(offset, len) >= 0,
{
    let d = PAGE_SIZE as int;
    lemma_mod_division_less_than_divisor(offset, d);
    let x = offset % d + len + d - 1;
    lemma_fundamental_div_mod(x, d);
    lemma_mod_division_less_than_divisor(x, d);
    assert(d * (x / d) == x - x % d);
    assert(pages_spanned(offset, len) * d == d * (x / d)) by (nonlinear_arith)
        requires
            pages_spanned(offset, len) == x / d,
    ;
}

/// The doubly-indirect coordinates of a page index: outer slot
/// `(p - LIST_SIZE) / LIST_SIZE` and inner slot `(p - LIST_SIZE) % LIST_SIZE`
/// are both in range and determine `p` uniquely.
proof fn lemma_double_slot(p: int)
    requires
        LIST_SIZE <= p < N_PAGES,
    ensures
        0 <= (p - LIST_SIZE) / (LIST_SIZE as int) < LIST_SIZE,
        0 <= (p - LIST_SIZE) % (LIST_SIZE as int) < LIST_SIZE,
        p == LIST_SIZE + ((p - LIST_SIZE) / (LIST_SIZE as int)) * LIST_SIZE + (p - LIST_SIZE) % (
        LIST_SIZE as int),
{
    let d = LIST_SIZE as int;
    lemma_fundamental_div_mod(p - d, d);
    lemma_mod_division_less_than_divisor(p - d, d);
}

/// A byte inside the accessed range lies on a touched page.
proof fn lemma_byte_page(offset: int, len: int, a: int)
    requires
        0 <= offset,
        offset <= a < offset + len,
    ensures
        page_touched(offset, len, a / (PAGE_SIZE as int)),
{
    let d = PAGE_SIZE as int;
    let st = offset / d;
    let sp = pages_spanned(offset, len);
    lemma_fundamental_div_mod(offset, d);
    lemma_mod_division_less_than_divisor(offset, d);
    lemma_div_is_ordered(offset, a, d);
    lemma_spanned_bounds(offset, len);
    assert(a < d * st + offset % d + len);
    assert(a < d * st + sp * d);
    assert(d * st + sp * d == (st + sp) * d) by (nonlinear_arith);
    lemma_div_upper(a, st + sp, d);
}

/// A touched page of a permitted write lies inside the page table.
proof fn lemma_span_in_table(offset: int, len: int)
    requires
        0 <= offset,
        0 <= len,
        write_ok(offset, len),
    ensures
        pages_spanned(offset, len) > 0 ==> offset / (PAGE_SIZE as int) + pages_spanned(offset, len)
            <= N_PAGES,
{
    let d = PAGE_SIZE as int;
    let st = offset / d;
    let sp = pages_spanned(offset, len);
    lemma_fundamental_div_mod(offset, d);
    lemma_mod_division_less_than_divisor(offset, d);
    lemma_spanned_bounds(offset, len);
    if sp > 0 {
        assert(offset + len <= MAX_FILE_SIZE);
        assert(st * d == d * st);
        assert(st * d <= offset);
        if st + sp > N_PAGES {
            assert(st * d + sp * d == (st + sp) * d) by (nonlinear_arith);
            assert((st + sp) * d >= (N_PAGES + 1) * d) by (nonlinear_arith)
                requires
                    st + sp >= N_PAGES + 1,
                    d > 0,
            ;
            assert(st * d + sp * d < offset + len + d);
            assert(false);
        }
    }
}

/// Rounded-up division.
fn ceil_div(x: usize, y: usize) -> (r: usize)
    requires
        y > 0,
        x + y <= usize::MAX,
    ensures
        r == (x + y - 1) as int / y as int,
{
    (x + y - 1) / y
}

/// Copies `count` bytes of `src` starting at `from` into `dst` starting at
/// `at`; the length of `dst` does not change.
fn copy_into(dst: &mut Vec<u8>, at: usize, src: &Vec<u8>, from: usize, count: usize)
    requires
        at + count <= old(dst)@.len(),
        from + count <= src@.len(),
    ensures
        final(dst)@.len() == old(dst)@.len(),
        forall|r: int|
            0 <= r < old(dst)@.len() ==> final(dst)@[r] == if at <= r < at + count {
                src@[from + (r - at)]
            } else {
                old(dst)@[r]
            },
{
    proof {
        vstd::std_specs::vec::axiom_spec_len(dst);
        vstd::std_specs::vec::axiom_spec_len(src);
    }
    let mut j: usize = 0;
    while j < count
        invariant
            j <= count,
            at + count <= usize::MAX,
            from + count <= usize::MAX,
            at + count <= dst@.len(),
            from + count <= src@.len(),
            dst@.len() == old(dst)@.len(),
            forall|r: int|
                0 <= r < dst@.len() ==> dst@[r] == if at <= r < at + j {
                    src@[from + (r - at)]
                } else {
                    old(dst)@[r]
                },
        decreases count - j,
    {
        dst[at + j] = src[from + j];
        j = j + 1;
    }
}

/// Byte storage with metadata. `single` holds pages `0 .. 256`; `double`
/// holds pages `256 .. 256 + 256 * 256`, each occupied outer slot owning an
/// inner list of pages.
pub struct Inode {
    single: TList<Page>,
    double: TList<TList<Page>>,
    size: usize,
    mod_time: Timespec,
    access_time: Timespec,
    create_time: Timespec,
}

impl Inode {
    /// Structural invariant: both lists are full length and every allocated
    /// page is exactly one page long.
    pub closed spec fn wf(&self) -> bool {
        &&& self.single@.len() == LIST_SIZE
        &&& self.double@.len() == LIST_SIZE
        &&& forall|i: int|
            0 <= i < LIST_SIZE ==> (#[trigger] self.single@[i] matches Some(p) ==> p@.len()
                == PAGE_SIZE)
        &&& forall|i: int|
            0 <= i < LIST_SIZE ==> (#[trigger] self.double@[i] matches Some(l) ==> {
                &&& l@.len() == LIST_SIZE
                &&& forall|j: int|
                    0 <= j < LIST_SIZE ==> (#[trigger] l@[j] matches Some(p) ==> p@.len()
                        == PAGE_SIZE)
            })
    }

    /// The contents of page `p`, or `None` where the slot is unoccupied.
    pub closed spec fn spec_page(&self, p: int) -> Option<Seq<u8>> {
        if 0 <= p < LIST_SIZE {
            match self.single@[p] {
                Some(pg) => Some(pg@),
                None => None,
            }
        } else if LIST_SIZE <= p < N_PAGES {
            match self.double@[(p - LIST_SIZE) / (LIST_SIZE as int)] {
                Some(l) => match l@[(p - LIST_SIZE) % (LIST_SIZE as int)] {
                    Some(pg) => Some(pg@),
                    None => None,
                },
                None => None,
            }
        } else {
            None
        }
    }

    /// Abstract contents: a map from each allocated page index to its bytes.
    pub closed spec fn contents(&self) -> Map<int, Seq<u8>> {
        Map::new(
            |p: int| 0 <= p < N_PAGES && self.spec_page(p) is Some,
            |p: int| self.spec_page(p).unwrap(),
        )
    }

    /// Current logical size: one past the highest byte endpoint of any write.
    pub closed spec fn spec_size(&self) -> nat {
        self.size as nat
    }

    /// Creates an empty inode: size zero, no allocated pages, all three
    /// timestamps taken from the wall clock now.
    pub fn new() -> (r: Inode)
        ensures
            r.wf(),
            r.spec_size() == 0,
            r.contents() =~= Map::<int, Seq<u8>>::empty(),
            r.create_time() == r.mod_time() && r.create_time() == r.access_time(),
    {
        let time_now = clock_now();
        let r = Inode {
            single: create_tlist(),
            double: create_tlist(),
            size: 0,
            mod_time: time_now,
            access_time: time_now,
            create_time: time_now,
        };
        assert forall|p: int| 0 <= p < N_PAGES implies r.spec_page(p) is None by {
            if LIST_SIZE <= p < N_PAGES {
                assert(0 <= (p - LIST_SIZE) / (LIST_SIZE as int) < LIST_SIZE) by (nonlinear_arith)
                    requires
                        LIST_SIZE <= p < N_PAGES,
                        LIST_SIZE == 256,
                        N_PAGES == 256 + 256 * 256,
                ;
            }
        }
        r
    }

    /// Fetches page `num` for reading. The page must be occupied: a read
    /// through an unoccupied slot is a caller error.
    fn get_page(&self, num: usize) -> (pg: &Vec<u8>)
        requires
            self.wf(),
            num < N_PAGES,
            self.spec_page(num as int) is Some,
        ensures
            pg@ == self.spec_page(num as int).unwrap(),
            pg@.len() == PAGE_SIZE,
    {
        if num < LIST_SIZE {
            match &self.single[num] {
                Some(pg) => pg,
                None => unreached(),
            }
        } else {
            proof {
                lemma_double_slot(num as int);
            }
            let slot = (num - LIST_SIZE) / LIST_SIZE;
            let entry_offset = (num - LIST_SIZE) % LIST_SIZE;
            match &self.double[slot] {
                Some(entry_list) => match &entry_list[entry_offset] {
                    Some(pg) => pg,
                    None => unreached(),
                },
                None => unreached(),
            }
        }
    }

    /// Allocates page `num` where its slot is empty, zero-filled, together
    /// with the inner page list on the doubly-indirect path where that is
    /// missing too. Every other page, the size and the timestamps stay as
    /// they were.
    fn ensure_page(&mut self, num: usize)
        requires
            old(self).wf(),
            num < N_PAGES,
        ensures
            final(self).wf(),
            final(self).spec_page(num as int) == (match old(self).spec_page(num as int) {
                Some(pg) => Some(pg),
                None => Some(spec_zero_page()),
            }),
            forall|q: int|
                q != num as int ==> final(self).spec_page(q) == old(self).spec_page(q),
            final(self).spec_size() == old(self).spec_size(),
            final(self).mod_time() == old(self).mod_time(),
            final(self).access_time() == old(self).access_time(),
            final(self).create_time() == old(self).create_time(),
    {
        if num < LIST_SIZE {
            if self.single[num].is_none() {
                self.single[num] = Some(zero_page());
            }
        } else {
            proof {
                lemma_double_slot(num as int);
            }
            let slot = (num - LIST_SIZE) / LIST_SIZE;
            let entry_offset = (num - LIST_SIZE) % LIST_SIZE;
            if self.double[slot].is_none() {
                self.double[slot] = Some(create_tlist());
            }
            let mut entry_list = self.double[slot].take().unwrap();
            if entry_list[entry_offset].is_none() {
                entry_list[entry_offset] = Some(zero_page());
            }
            self.double[slot] = Some(entry_list);
            proof {
                assert forall|q: int|
                    q != num as int implies self.spec_page(q) == old(self).spec_page(q) by {
                    if LIST_SIZE <= q < N_PAGES {
                        lemma_double_slot(q);
                    }
                }
            }
        }
    }

    /// Copies `count` bytes of `data` starting at `doff` into page `num` at
    /// intra-page offset `po`. Only those bytes of that page change.
    fn page_write_bytes(&mut self, num: usize, po: usize, data: &Vec<u8>, doff: usize, count: usize)
        requires
            old(self).wf(),
            num < N_PAGES,
            old(self).spec_page(num as int) is Some,
            po + count <= PAGE_SIZE,
            doff + count <= data@.len(),
        ensures
            final(self).wf(),
            final(self).spec_page(num as int) is Some,
            forall|r: int|
                0 <= r < PAGE_SIZE ==> final(self).spec_page(num as int).unwrap()[r] == if po <= r
                    < po + count {
                    data@[doff + (r - po)]
                } else {
                    old(self).spec_page(num as int).unwrap()[r]
                },
            forall|q: int|
                q != num as int ==> final(self).spec_page(q) == old(self).spec_page(q),
            final(self).spec_size() == old(self).spec_size(),
            final(self).mod_time() == old(self).mod_time(),
            final(self).access_time() == old(self).access_time(),
            final(self).create_time() == old(self).create_time(),
    {
        if num < LIST_SIZE {
            let mut pg = self.single[num].take().unwrap();
            copy_into(&mut pg, po, data, doff, count);
            self.single[num] = Some(pg);
        } else {
            proof {
                lemma_double_slot(num as int);
            }
            let slot = (num - LIST_SIZE) / LIST_SIZE;
            let entry_offset = (num - LIST_SIZE) % LIST_SIZE;
            let mut entry_list = self.double[slot].take().unwrap();
            let mut pg = entry_list[entry_offset].take().unwrap();
            copy_into(&mut pg, po, data, doff, count);
            entry_list[entry_offset] = Some(pg);
            self.double[slot] = Some(entry_list);
            proof {
                assert forall|q: int|
                    q != num as int implies self.spec_page(q) == old(self).spec_page(q) by {
                    if LIST_SIZE <= q < N_PAGES {
                        lemma_double_slot(q);
                    }
                }
            }
        }
    }

    /// Every page of the contents map is exactly one page long.
    proof fn lemma_contents_page_len(&self)
        requires
            self.wf(),
        ensures
            forall|p: int|
                self.contents().contains_key(p) ==> (#[trigger] self.contents()[p]).len()
                    == PAGE_SIZE,
    {
        assert forall|p: int|
            self.contents().contains_key(p) implies (#[trigger] self.contents()[p]).len()
            == PAGE_SIZE by {
            if LIST_SIZE <= p < N_PAGES {
                lemma_double_slot(p);
            }
        }
    }

    /// A permitted read of at least one byte ends within the addressable
    /// range, so a cursor can move past it without leaving the machine's
    /// integers.
    pub proof fn lemma_read_within_limits(&self, offset: int, len: int)
        requires
            self.wf(),
            0 <= offset,
            0 <= len,
            read_ok(self.contents(), offset, len),
        ensures
            len > 0 ==> offset + len <= 2 * MAX_FILE_SIZE,
    {
        let pgz = PAGE_SIZE as int;
        let st = offset / pgz;
        let bo = offset % pgz;
        let sp = pages_spanned(offset, len);
        if len > 0 {
            lemma_fundamental_div_mod(offset, pgz);
            lemma_mod_division_less_than_divisor(offset, pgz);
            lemma_spanned_bounds(offset, len);
            lemma_div_pos_is_pos(offset, pgz);
            assert(sp >= 1);
            assert(page_touched(offset, len, st + sp - 1));
            assert(self.contents().contains_key(st + sp - 1));
            assert(st + sp - 1 < N_PAGES);
            assert(page_touched(offset, len, st));
            assert(self.contents().contains_key(st));
            assert(st < N_PAGES);
            assert(sp * pgz <= N_PAGES * pgz) by (nonlinear_arith)
                requires
                    sp <= N_PAGES,
                    pgz > 0,
            ;
            assert(pgz * st <= pgz * (N_PAGES - 1)) by (nonlinear_arith)
                requires
                    st <= N_PAGES - 1,
                    pgz > 0,
            ;
        }
    }

    /// Writes `data` at byte offset `offset`. Every page the range touches
    /// is allocated where missing; the written range takes its bytes from
    /// `data`; the size grows to the end of the written range where that
    /// lies past it; the modify and access timestamps move together to the
    /// wall clock now. Returns the number of bytes written: all of them.
    pub fn write(&mut self, offset: usize, data: &Vec<u8>) -> (r: usize)
        requires
            old(self).wf(),
            write_ok(offset as int, data@.len() as int),
        ensures
            final(self).wf(),
            r == data@.len(),
            final(self).contents() == spec_write(old(self).contents(), offset as int, data@),
            final(self).spec_size() == size_after(
                old(self).spec_size(),
                offset as int,
                data@.len() as int,
            ),
            final(self).mod_time() == final(self).access_time(),
            final(self).create_time() == old(self).create_time(),
    {
        let ghost pre = *self;
        let ghost o: int = offset as int;
        let ghost dlen: int = data@.len() as int;
        let ghost pgz: int = PAGE_SIZE as int;
        let ghost st: int = o / pgz;
        let ghost bo0: int = o % pgz;
        let ghost nblocks: int = pages_spanned(o, dlen);
        proof {
            vstd::std_specs::vec::axiom_spec_len(data);
            lemma_mod_division_less_than_divisor(o, pgz);
            lemma_fundamental_div_mod(o, pgz);
            lemma_spanned_bounds(o, dlen);
            lemma_span_in_table(o, dlen);
        }
        let mut written: usize = 0;
        let mut block_offset: usize = offset % PAGE_SIZE;
        let start: usize = offset / PAGE_SIZE;
        let blocks_to_act_on: usize = ceil_div(block_offset + data.len(), PAGE_SIZE);
        let mut i: usize = 0;
        while i < blocks_to_act_on
            invariant
                self.wf(),
                pre.wf(),
                i <= blocks_to_act_on,
                o == offset as int,
                dlen == data@.len() as int,
                pgz == PAGE_SIZE as int,
                st == o / pgz,
                bo0 == o % pgz,
                0 <= bo0 < pgz,
                o == pgz * st + bo0,
                nblocks == pages_spanned(o, dlen),
                blocks_to_act_on == nblocks,
                start == st,
                bo0 + dlen <= nblocks * pgz,
                nblocks * pgz < bo0 + dlen + pgz,
                nblocks > 0 ==> st + nblocks <= N_PAGES,
                block_offset as int == (if i <= 1 {
                    bo0
                } else {
                    0
                }),
                written as int == (if i == 0 {
                    0
                } else if dlen <= i * pgz - bo0 {
                    dlen
                } else {
                    i * pgz - bo0
                }),
                forall|q: int|
                    0 <= q < N_PAGES && !(st <= q < st + i) ==> self.spec_page(q)
                        == pre.spec_page(q),
                forall|q: int| st <= q < st + i ==> self.spec_page(q) is Some,
                forall|q: int, rr: int|
                    st <= q < st + i && 0 <= rr < pgz
                        ==> #[trigger] self.spec_page(q).unwrap()[rr] == (if o <= q * pgz + rr < o
                        + dlen {
                        data@[q * pgz + rr - o]
                    } else {
                        match pre.spec_page(q) {
                            Some(pp) => pp[rr],
                            None => 0u8,
                        }
                    }),
                self.spec_size() == pre.spec_size(),
                self.mod_time() == pre.mod_time(),
                self.access_time() == pre.access_time(),
                self.create_time() == pre.create_time(),
            decreases blocks_to_act_on - i,
        {
            if block_offset != 0 && i > 0 {
                block_offset = 0;
            }
            let ghost cur_bo: int = block_offset as int;
            proof {
                assert(written as int <= dlen);
                if i >= 1 {
                    assert(i * pgz <= (nblocks - 1) * pgz) by (nonlinear_arith)
                        requires
                            pgz > 0,
                            i <= nblocks - 1,
                    ;
                }
                assert(i >= 1 ==> written as int == i * pgz - bo0);
                assert(o + written as int == (st + i) * pgz + cur_bo) by (nonlinear_arith)
                    requires
                        o == pgz * st + bo0,
                        (i == 0 && written as int == 0 && cur_bo == bo0) || (i >= 1 && written
                            as int == i * pgz - bo0 && cur_bo == 0),
                ;
                if i + 1 < nblocks {
                    assert((i + 1) * pgz <= (nblocks - 1) * pgz) by (nonlinear_arith)
                        requires
                            pgz > 0,
                            i + 1 <= nblocks - 1,
                    ;
                }
            }
            let num_bytes: usize = if i == blocks_to_act_on - 1 {
                data.len() - written
            } else {
                PAGE_SIZE - block_offset
            };
            proof {
                assert(cur_bo + num_bytes as int <= pgz);
                assert(written as int + num_bytes as int <= dlen);
            }
            let ghost mid = *self;
            self.ensure_page(start + i);
            self.page_write_bytes(start + i, block_offset, data, written, num_bytes);
            proof {
                let q = st + i;
                assert forall|rr: int| 0 <= rr < pgz implies #[trigger] self.spec_page(
                    q,
                ).unwrap()[rr] == (if o <= q * pgz + rr < o + dlen {
                    data@[q * pgz + rr - o]
                } else {
                    match pre.spec_page(q) {
                        Some(pp) => pp[rr],
                        None => 0u8,
                    }
                }) by {
                    let a = q * pgz + rr;
                    assert(a == o + written + (rr - cur_bo));
                    if cur_bo <= rr < cur_bo + num_bytes {
                        assert(o <= a < o + dlen);
                        assert(self.spec_page(q).unwrap()[rr] == data@[written + (rr - cur_bo)]);
                        assert(written + (rr - cur_bo) == a - o);
                    } else {
                        assert(!(o <= a < o + dlen));
                    }
                }
            }
            written = written + num_bytes;
            i = i + 1;
        }
        let last_byte: usize = offset + written;
        if self.size < last_byte {
            self.size = last_byte;
        }
        let time_now = clock_now();
        self.mod_time = time_now;
        self.access_time = time_now;
        proof {
            assert(written as int == dlen);
            pre.lemma_contents_page_len();
            self.lemma_contents_page_len();
            let m = pre.contents();
            let w = spec_write(m, o, data@);
            let c = self.contents();
            let cd = c.dom();
            let wd = w.dom();
            assert forall|p: int| #![trigger cd.contains(p)] #![trigger wd.contains(p)]
                true implies (cd.contains(p) <==> wd.contains(p)) && (cd.contains(p) ==> c[p]
                == w[p]) by {
                assert(cd.contains(p) <==> c.contains_key(p));
                assert(wd.contains(p) <==> w.contains_key(p));
                if st <= p < st + nblocks {
                    // A touched page exists afterwards and holds the written
                    // bytes where the range covers it.
                    assert(self.spec_page(p) is Some);
                    assert(0 <= p < N_PAGES);
                    assert(c.contains_key(p) && w.contains_key(p));
                    assert forall|rr: int| 0 <= rr < pgz implies c[p][rr] == w[p][rr] by {
                        assert(c[p][rr] == self.spec_page(p).unwrap()[rr]);
                    }
                    assert(c[p].len() == PAGE_SIZE && w[p].len() == PAGE_SIZE);
                    assert(c[p] =~= w[p]);
                    assert(c[p] == w[p]);
                } else {
                    // An untouched page is unchanged, and no byte of the
                    // written range lies on it.
                    if 0 <= p < N_PAGES {
                        assert(self.spec_page(p) == pre.spec_page(p));
                    }
                    assert(w.contains_key(p) <==> m.contains_key(p));
                    assert(m.contains_key(p) <==> c.contains_key(p));
                    if c.contains_key(p) {
                        assert forall|rr: int| 0 <= rr < pgz implies c[p][rr] == w[p][rr] by {
                            if o <= p * pgz + rr < o + dlen {
                                lemma_div_ident(p, rr, pgz);
                                lemma_byte_page(o, dlen, p * pgz + rr);
                                assert(false);
                            }
                            assert(c[p][rr] == m[p][rr]);
                        }
                        assert(c[p].len() == PAGE_SIZE && w[p].len() == PAGE_SIZE);
                        assert(c[p] =~= w[p]);
                        assert(c[p] == w[p]);
                    }
                }
            }
            assert(c.dom() =~= w.dom());
            assert(c =~= w);
        }
        written
    }

    /// Reads `data.len()` bytes at byte offset `offset` into `data`. Every
    /// page the range touches must be occupied. Neither the inode nor the
    /// timestamps change; returns the number of bytes read: all of them.
    pub fn read(&self, offset: usize, data: &mut Vec<u8>) -> (r: usize)
        requires
            self.wf(),
            read_ok(self.contents(), offset as int, old(data)@.len() as int),
        ensures
            r == old(data)@.len(),
            final(data)@ == spec_read(self.contents(), offset as int, old(data)@.len() as int),
    {
        let ghost m = self.contents();
        let ghost o: int = offset as int;
        let ghost dlen: int = old(data)@.len() as int;
        let ghost pgz: int = PAGE_SIZE as int;
        let ghost st: int = o / pgz;
        let ghost bo0: int = o % pgz;
        let ghost nblocks: int = pages_spanned(o, dlen);
        proof {
            vstd::std_specs::vec::axiom_spec_len(data);
            lemma_mod_division_less_than_divisor(o, pgz);
            lemma_fundamental_div_mod(o, pgz);
            lemma_spanned_bounds(o, dlen);
            if nblocks > 0 {
                assert(page_touched(o, dlen, st + nblocks - 1));
                assert(m.contains_key(st + nblocks - 1));
                assert(st + nblocks <= N_PAGES);
                assert(nblocks * pgz <= N_PAGES * pgz) by (nonlinear_arith)
                    requires
                        pgz > 0,
                        0 <= st,
                        nblocks <= N_PAGES,
                ;
            }
            assert(bo0 + dlen <= N_PAGES * pgz);
        }
        let mut nread: usize = 0;
        let mut block_offset: usize = offset % PAGE_SIZE;
        let start: usize = offset / PAGE_SIZE;
        let blocks_to_act_on: usize = ceil_div(block_offset + data.len(), PAGE_SIZE);
        let mut i: usize = 0;
        while i < blocks_to_act_on
            invariant
                self.wf(),
                m == self.contents(),
                read_ok(m, o, dlen),
                i <= blocks_to_act_on,
                o == offset as int,
                dlen == old(data)@.len() as int,
                data@.len() == old(data)@.len(),
                pgz == PAGE_SIZE as int,
                st == o / pgz,
                bo0 == o % pgz,
                0 <= bo0 < pgz,
                o == pgz * st + bo0,
                nblocks == pages_spanned(o, dlen),
                blocks_to_act_on == nblocks,
                start == st,
                bo0 + dlen <= nblocks * pgz,
                nblocks * pgz < bo0 + dlen + pgz,
                nblocks > 0 ==> st + nblocks <= N_PAGES,
                block_offset as int == (if i <= 1 {
                    bo0
                } else {
                    0
                }),
                nread as int == (if i == 0 {
                    0
                } else if dlen <= i * pgz - bo0 {
                    dlen
                } else {
                    i * pgz - bo0
                }),
                forall|j: int|
                    0 <= j < nread ==> #[trigger] data@[j] == m[(o + j) / pgz][(o + j) % pgz],
            decreases blocks_to_act_on - i,
        {
            if block_offset != 0 && i > 0 {
                block_offset = 0;
            }
            let ghost cur_bo: int = block_offset as int;
            proof {
                assert(nread as int <= dlen);
                if i >= 1 {
                    assert(i * pgz <= (nblocks - 1) * pgz) by (nonlinear_arith)
                        requires
                            pgz > 0,
                            i <= nblocks - 1,
                    ;
                }
                assert(i >= 1 ==> nread as int == i * pgz - bo0);
                assert(o + nread as int == (st + i) * pgz + cur_bo) by (nonlinear_arith)
                    requires
                        o == pgz * st + bo0,
                        (i == 0 && nread as int == 0 && cur_bo == bo0) || (i >= 1 && nread as int
                            == i * pgz - bo0 && cur_bo == 0),
                ;
                if i + 1 < nblocks {
                    assert((i + 1) * pgz <= (nblocks - 1) * pgz) by (nonlinear_arith)
                        requires
                            pgz > 0,
                            i + 1 <= nblocks - 1,
                    ;
                }
                assert(page_touched(o, dlen, st + i));
                assert(m.contains_key(st + i));
            }
            let num_bytes: usize = if i == blocks_to_act_on - 1 {
                data.len() - nread
            } else {
                PAGE_SIZE - block_offset
            };
            proof {
                assert(cur_bo + num_bytes as int <= pgz);
                assert(nread as int + num_bytes as int <= dlen);
            }
            let page = self.get_page(start + i);
            copy_into(data, nread, page, block_offset, num_bytes);
            proof {
                let q = st + i;
                assert forall|j: int| 0 <= j < nread + num_bytes implies #[trigger] data@[j] == m[(o
                    + j) / pgz][(o + j) % pgz] by {
                    if nread <= j < nread + num_bytes {
                        let rr = cur_bo + (j - nread);
                        assert(o + j == q * pgz + rr);
                        lemma_div_ident(q, rr, pgz);
                        assert(data@[j] == page@[rr]);
                    }
                }
            }
            nread = nread + num_bytes;
            i = i + 1;
        }
        proof {
            assert(nread as int == dlen);
            assert(data@ =~= spec_read(m, o, dlen));
        }
        nread
    }

    /// Current logical size in bytes.
    pub fn size(&self) -> (r: usize)
        ensures
            r == self.spec_size(),
    {
        self.size
    }

    pub closed spec fn create_time(&self) -> Timespec {
        self.create_time
    }

    pub closed spec fn access_time(&self) -> Timespec {
        self.access_time
    }

    pub closed spec fn mod_time(&self) -> Timespec {
        self.mod_time
    }

    /// The three timestamps, in the order create, access, modify.
    pub fn stat(&self) -> (r: (Timespec, Timespec, Timespec))
        ensures
            r == (self.create_time(), self.access_time(), self.mod_time()),
    {
        (self.create_time, self.access_time, self.mod_time)
    }
}

} // verus!
