//! Slotted pages: byte records packed into pages of whole blocks.
//!
//! A page of `page_len` blocks is laid out as
//! `page_len (2) | block size (2) | slot count (4) | slot positions (4 each)
//! | zero padding | records, newest first`, and spans exactly
//! `page_len * BLOCK_SIZE` bytes. The records fill the page from its end
//! backwards, so the slot position of each record is where its bytes start.
use vstd::prelude::*;

use crate::oxdbin::bigendian::be16;
use crate::oxdbin::bigendian::be32;
use crate::oxdbin::bigendian::push_be16;
use crate::oxdbin::bigendian::push_be32;
use crate::oxdbin::bigendian::push_bytes;
use crate::oxdbin::bigendian::push_range;
use crate::oxdbin::bigendian::push_zeros;

verus! {

// ---------------------------------------------------------------------------
// The page model
// ---------------------------------------------------------------------------
/// The records of `items` laid end to end.
pub open spec fn concat(items: Seq<Seq<u8>>) -> Seq<u8>
    decreases items.len(),
{
    if items.len() == 0 {
        Seq::empty()
    } else {
        concat(items.subrange(0, items.len() - 1)) + items[items.len() - 1]
    }
}

/// The records of `items` laid end to end, newest (last) first: the data
/// region of a page, which is filled from the page's end backwards.
pub open spec fn concat_newest_first(items: Seq<Seq<u8>>) -> Seq<u8>
    decreases items.len(),
{
    if items.len() == 0 {
        Seq::empty()
    } else {
        concat_newest_first(items.subrange(1, items.len() as int)) + items[0]
    }
}

/// Number of bytes a page of `page_len` blocks spans.
pub open spec fn page_size_of(page_len: u16) -> nat {
    page_len as nat * crate::config::default::BLOCK_SIZE as nat
}

/// The slot position recorded for each record of a page of `page_size`
/// bytes: `page_size` less the length of the records up to and including it,
/// which is where the record's bytes start (see [`lemma_slots_locate_records`]).
pub open spec fn slots_of(page_size: nat, items: Seq<Seq<u8>>) -> Seq<u32> {
    Seq::new(
        items.len(),
        |k: int| (page_size - concat(items.subrange(0, k + 1)).len()) as u32,
    )
}

/// The big-endian bytes of each of `xs`, one after the other.
pub open spec fn be32_all(xs: Seq<u32>) -> Seq<u8>
    decreases xs.len(),
{
    if xs.len() == 0 {
        Seq::empty()
    } else {
        be32_all(xs.subrange(0, xs.len() - 1)) + be32(xs[xs.len() - 1])
    }
}

/// The bytes of a page of `page_len` blocks that holds `items`: the header
/// (page length, block size, slot count, slot positions), zero padding, then
/// the records, newest first, up to the page's end.
pub open spec fn page_bytes(page_len: u16, items: Seq<Seq<u8>>) -> Seq<u8> {
    let page_size = page_size_of(page_len);
    let data = concat_newest_first(items);
    be16(page_len) + be16(crate::config::default::BLOCK_SIZE as u16) + be32(items.len() as u32)
        + be32_all(slots_of(page_size, items)) + Seq::new(
        (page_size - 8 - 4 * items.len() - data.len()) as nat,
        |_i: int| 0u8,
    ) + data
}

/// The header and the records of a page with `slots` slots and `data_len`
/// bytes of records fit in its `page_size` bytes.
pub open spec fn layout_fits(page_size: nat, slots: nat, data_len: nat) -> bool {
    8 + 4 * slots + data_len <= page_size
}

/// The abstract state of a [`SlottedPage`].
pub struct PageView {
    pub page_len: u16,
    pub page_size: u32,
    pub total_slots: u32,
    pub slot_positions: Seq<u32>,
    pub data: Seq<u8>,
    /// The records added, in order.
    pub items: Seq<Seq<u8>>,
}

/// The fields of a page agree with the records it holds.
pub open spec fn page_view_wf(p: PageView) -> bool {
    &&& p.page_size == page_size_of(p.page_len)
    &&& p.total_slots == p.items.len()
    &&& p.data == concat(p.items)
    &&& p.data.len() <= p.page_size
    &&& p.slot_positions == slots_of(p.page_size as nat, p.items)
}

proof fn lemma_concat_push(items: Seq<Seq<u8>>, item: Seq<u8>)
    ensures
        concat(items.push(item)) == concat(items) + item,
{
    let next = items.push(item);
    assert(next.subrange(0, next.len() - 1) =~= items);
}

proof fn lemma_slots_push(page_size: nat, items: Seq<Seq<u8>>, item: Seq<u8>)
    ensures
        slots_of(page_size, items.push(item)) == slots_of(page_size, items).push(
            (page_size - (concat(items).len() + item.len())) as u32,
        ),
{
    let next = items.push(item);
    lemma_concat_push(items, item);
    assert(next.subrange(0, next.len() as int) =~= next);
    assert forall|k: int| 0 <= k < items.len() implies #[trigger] next.subrange(0, k + 1)
        =~= items.subrange(0, k + 1) by {}
    assert(slots_of(page_size, next) =~= slots_of(page_size, items).push(
        (page_size - (concat(items).len() + item.len())) as u32,
    ));
}

proof fn lemma_be32_all_push(xs: Seq<u32>, x: u32)
    ensures
        be32_all(xs.push(x)) == be32_all(xs) + be32(x),
{
    let next = xs.push(x);
    assert(next.subrange(0, next.len() - 1) =~= xs);
}

/// The bytes of records before record `j`: where record `j` starts in
/// `concat(items)`.
pub open spec fn bytes_before(items: Seq<Seq<u8>>, j: int) -> nat {
    concat(items.subrange(0, j)).len()
}

proof fn lemma_concat_append(a: Seq<Seq<u8>>, b: Seq<Seq<u8>>)
    ensures
        concat(a + b) == concat(a) + concat(b),
    decreases b.len(),
{
    if b.len() == 0 {
        assert(a + b =~= a);
        assert(concat(a) + concat(b) =~= concat(a));
    } else {
        let bf = b.subrange(0, b.len() - 1);
        lemma_concat_append(a, bf);
        let ab = a + b;
        assert(ab.subrange(0, ab.len() - 1) =~= a + bf);
        assert(concat(ab) == concat(ab.subrange(0, ab.len() - 1)) + ab[ab.len() - 1]);
        assert(concat(b) == concat(bf) + b[b.len() - 1]);
        assert(concat(ab) =~= concat(a) + concat(b));
    }
}

proof fn lemma_concat_single(item: Seq<u8>)
    ensures
        concat(seq![item]) == item,
{
    let one = seq![item];
    assert(one.subrange(0, 0) =~= Seq::<Seq<u8>>::empty());
    assert(concat(one) == concat(one.subrange(0, 0)) + one[0]);
    assert(concat(one) =~= item);
}

/// Record `j` stands at `bytes_before(items, j)` in `concat(items)`, and the
/// records before it are a prefix of the whole.
proof fn lemma_concat_record(items: Seq<Seq<u8>>, j: int)
    requires
        0 <= j < items.len(),
    ensures
        bytes_before(items, j + 1) == bytes_before(items, j) + items[j].len(),
        bytes_before(items, j + 1) <= concat(items).len(),
        concat(items).subrange(bytes_before(items, j) as int, bytes_before(items, j + 1) as int)
            == items[j],
{
    let pre = items.subrange(0, j + 1);
    assert(pre.subrange(0, j) =~= items.subrange(0, j));
    assert(concat(pre) == concat(pre.subrange(0, pre.len() - 1)) + pre[pre.len() - 1]);
    let rest = items.subrange(j + 1, items.len() as int);
    assert(pre + rest =~= items);
    lemma_concat_append(pre, rest);
    let whole = concat(items);
    assert(whole.subrange(bytes_before(items, j) as int, bytes_before(items, j + 1) as int)
        =~= items[j]) by {
        assert forall|i: int| 0 <= i < items[j].len() implies whole[bytes_before(items, j) + i]
            == items[j][i] by {
            assert(whole[bytes_before(items, j) + i] == concat(pre)[bytes_before(items, j) + i]);
        }
    }
}

/// The records newest first take as many bytes as in input order.
proof fn lemma_concat_newest_first_len(items: Seq<Seq<u8>>)
    ensures
        concat_newest_first(items).len() == concat(items).len(),
    decreases items.len(),
{
    if items.len() > 0 {
        let tail = items.subrange(1, items.len() as int);
        lemma_concat_newest_first_len(tail);
        assert(seq![items[0]] + tail =~= items);
        lemma_concat_append(seq![items[0]], tail);
        lemma_concat_single(items[0]);
    }
}

/// With the records newest first, record `k` stands at the total length
/// less the bytes of the records up to and including it.
proof fn lemma_newest_first_record(items: Seq<Seq<u8>>, k: int)
    requires
        0 <= k < items.len(),
    ensures
        concat_newest_first(items).subrange(
            concat(items).len() - bytes_before(items, k + 1),
            concat(items).len() - bytes_before(items, k),
        ) == items[k],
    decreases items.len(),
{
    let tail = items.subrange(1, items.len() as int);
    let r = concat_newest_first(items);
    let rt = concat_newest_first(tail);
    lemma_concat_newest_first_len(tail);
    lemma_concat_newest_first_len(items);
    assert(seq![items[0]] + tail =~= items);
    lemma_concat_append(seq![items[0]], tail);
    lemma_concat_single(items[0]);
    let d = concat(items).len();
    let dt = concat(tail).len();
    assert(r == rt + items[0]);
    if k == 0 {
        lemma_concat_record(items, 0);
        assert(items.subrange(0, 0) =~= Seq::<Seq<u8>>::empty());
        assert(bytes_before(items, 0) == 0);
        assert(r.subrange(d - bytes_before(items, 1), d - bytes_before(items, 0)) =~= items[0]);
    } else {
        lemma_newest_first_record(tail, k - 1);
        // bytes before record `j + 1` of `items` are record 0 and the bytes
        // before record `j` of `tail`
        assert forall|j: int| 0 <= j <= tail.len() implies #[trigger] bytes_before(items, j + 1)
            == items[0].len() + bytes_before(tail, j) by {
            assert(items.subrange(0, j + 1) =~= seq![items[0]] + tail.subrange(0, j));
            lemma_concat_append(seq![items[0]], tail.subrange(0, j));
        }
        assert(bytes_before(items, k + 1) == items[0].len() + bytes_before(tail, k));
        assert(bytes_before(items, k) == items[0].len() + bytes_before(tail, k - 1));
        lemma_concat_record(tail, k - 1);
        let lo = dt - bytes_before(tail, k);
        let hi = dt - bytes_before(tail, k - 1);
        assert(r.subrange(lo, hi) =~= rt.subrange(lo, hi));
    }
}

/// The four bytes of `xs[k]` stand at `4 * k` in `be32_all(xs)`.
proof fn lemma_be32_all_index(xs: Seq<u32>, k: int)
    requires
        0 <= k < xs.len(),
    ensures
        be32_all(xs).subrange(4 * k, 4 * k + 4) == be32(xs[k]),
    decreases xs.len(),
{
    let front = xs.subrange(0, xs.len() - 1);
    lemma_be32_all_len(front);
    assert(be32_all(xs) == be32_all(front) + be32(xs[xs.len() - 1]));
    if k == xs.len() - 1 {
        assert(be32_all(xs).subrange(4 * k, 4 * k + 4) =~= be32(xs[k]));
    } else {
        lemma_be32_all_index(front, k);
        assert(be32_all(xs).subrange(4 * k, 4 * k + 4) =~= be32_all(front).subrange(
            4 * k,
            4 * k + 4,
        ));
    }
}

/// In a page whose header and records fit, the header holds each record's
/// slot position, and each slot position is where the record's bytes start:
/// `page[8 + 4k .. 12 + 4k]` is slot `k`, and the record's bytes stand at
/// `page[slot_k .. slot_k + len_k]`.
pub proof fn lemma_slots_locate_records(page_len: u16, items: Seq<Seq<u8>>)
    requires
        layout_fits(page_size_of(page_len), items.len(), concat(items).len()),
    ensures
        forall|k: int|
            0 <= k < items.len() ==> {
                let pos = #[trigger] slots_of(page_size_of(page_len), items)[k] as int;
                &&& page_bytes(page_len, items).subrange(8 + 4 * k, 12 + 4 * k) == be32(
                    slots_of(page_size_of(page_len), items)[k],
                )
                &&& page_bytes(page_len, items).subrange(pos, pos + items[k].len()) == items[k]
            },
{
    let ps = page_size_of(page_len);
    let slots = slots_of(ps, items);
    let d = concat(items).len();
    let bytes = page_bytes(page_len, items);
    let head = be16(page_len) + be16(crate::config::default::BLOCK_SIZE as u16) + be32(
        items.len() as u32,
    );
    let pad = Seq::new((ps - 8 - 4 * items.len() - d) as nat, |_i: int| 0u8);
    let data = concat_newest_first(items);
    lemma_be32_all_len(slots);
    lemma_concat_newest_first_len(items);
    assert(bytes == head + be32_all(slots) + pad + data);
    assert(ps <= u32::MAX);
    assert forall|k: int| 0 <= k < items.len() implies {
        let pos = #[trigger] slots_of(page_size_of(page_len), items)[k] as int;
        &&& page_bytes(page_len, items).subrange(8 + 4 * k, 12 + 4 * k) == be32(
            slots_of(page_size_of(page_len), items)[k],
        )
        &&& page_bytes(page_len, items).subrange(pos, pos + items[k].len()) == items[k]
    } by {
        lemma_be32_all_index(slots, k);
        assert(bytes.subrange(8 + 4 * k, 12 + 4 * k) =~= be32_all(slots).subrange(
            4 * k,
            4 * k + 4,
        ));
        lemma_concat_record(items, k);
        lemma_newest_first_record(items, k);
        let pos = slots[k] as int;
        assert(pos == ps - bytes_before(items, k + 1));
        let lo = d - bytes_before(items, k + 1);
        assert(bytes.subrange(pos, pos + items[k].len()) =~= data.subrange(
            lo,
            lo + items[k].len(),
        ));
    }
}

/// A page of data records.
pub struct SlottedPage {
    page_len: u16,
    total_slots: u32,
    slot_positions: Vec<u32>,
    data: Vec<u8>,
    page_size: u32,
    items: Ghost<Seq<Seq<u8>>>,
}

impl View for SlottedPage {
    type V = PageView;

    closed spec fn view(&self) -> PageView {
        PageView {
            page_len: self.page_len,
            page_size: self.page_size,
            total_slots: self.total_slots,
            slot_positions: self.slot_positions@,
            data: self.data@,
            items: self.items@,
        }
    }
}

impl SlottedPage {
    /// The page's fields agree with the records it holds.
    pub open spec fn wf(&self) -> bool {
        page_view_wf(self@)
    }

    /// An empty page of `page_len` blocks.
    pub fn new(page_len: u16) -> (page: Self)
        ensures
            page.wf(),
            page@.page_len == page_len,
            page@.items == Seq::<Seq<u8>>::empty(),
    {
        assert(crate::config::default::BLOCK_SIZE as u32 == 4096);
        let page = SlottedPage {
            page_len,
            total_slots: 0,
            slot_positions: Vec::new(),
            data: Vec::new(),
            page_size: page_len as u32 * crate::config::default::BLOCK_SIZE as u32,
            items: Ghost(Seq::empty()),
        };
        proof {
            assert(page.slot_positions@ =~= slots_of(page.page_size as nat, page.items@));
        }
        page
    }

    /// Whether `bytedata_size` more bytes in `new_slots` more slots fit the
    /// page by its header rule: 3 bytes, 2 bytes per slot, then the data.
    pub fn can_fit(&self, bytedata_size: usize, new_slots: usize) -> (fits: bool)
        requires
            self.wf(),
            3 + 2 * (self@.total_slots + new_slots) + self@.data.len() + bytedata_size
                <= usize::MAX,
        ensures
            fits == (3 + 2 * (self@.total_slots + new_slots) + self@.data.len() + bytedata_size
                <= self@.page_size),
    {
        let header_size = 1 + 2 + 2 * (self.total_slots as usize + new_slots);
        let total_size = header_size + self.data.len() + bytedata_size;
        total_size <= self.page_size as usize
    }

    /// Adds a record: its slot position is the page size less the bytes of
    /// data so far and of the record; the record's bytes go after the data.
    pub fn add_data(&mut self, bytedata: Vec<u8>)
        requires
            old(self).wf(),
            old(self)@.data.len() + bytedata@.len() <= old(self)@.page_size,
            old(self)@.total_slots < u32::MAX,
        ensures
            final(self).wf(),
            final(self)@.page_len == old(self)@.page_len,
            final(self)@.items == old(self)@.items.push(bytedata@),
            final(self)@.slot_positions == old(self)@.slot_positions.push(
                (old(self)@.page_size - old(self)@.data.len() - bytedata@.len()) as u32,
            ),
            final(self)@.data == old(self)@.data + bytedata@,
    {
        let new_data_position = (self.page_size as usize - self.data.len() - bytedata.len()) as u32;
        self.slot_positions.push(new_data_position);
        push_bytes(&mut self.data, bytedata.as_slice());
        self.total_slots = self.total_slots + 1;
        proof {
            let old_items = self.items@;
            lemma_slots_push(self.page_size as nat, old_items, bytedata@);
            lemma_concat_push(old_items, bytedata@);
            self.items = Ghost(old_items.push(bytedata@));
        }
    }
}

// ---------------------------------------------------------------------------
// Packing records into pages
// ---------------------------------------------------------------------------
/// The number of blocks of the page that a record of `len` bytes opens:
/// enough blocks for the record and 12 bytes of header, and never fewer
/// than `MAX_PAGE_LEN`.
pub open spec fn page_len_for(len: nat) -> u16 {
    let blocks = (len + 12 + 4095) / 4096;
    if blocks >= crate::config::default::MAX_PAGE_LEN {
        blocks as u16
    } else {
        crate::config::default::MAX_PAGE_LEN
    }
}

/// Largest record that a page can be opened for (so that the page length
/// fits its 16-bit field): 65535 blocks of 4096 bytes less 12 bytes of header.
pub open spec fn max_record_len() -> nat {
    268431348
}

/// A page being filled while packing: its length in blocks, the indices of
/// its records in the input, and the records.
pub struct PackedPage {
    pub page_len: u16,
    pub indices: Seq<usize>,
    pub items: Seq<Seq<u8>>,
}

/// The pages finished so far and the page being filled.
pub struct PackState {
    pub done: Seq<PackedPage>,
    pub cur: PackedPage,
}

/// A record of `len` bytes fits `page` by the header rule of [`SlottedPage::can_fit`].
pub open spec fn record_fits(page: PackedPage, len: nat) -> bool {
    3 + 2 * (page.items.len() + 1) + concat(page.items).len() + len <= page_size_of(page.page_len)
}

/// `page` with record `item`, at input index `index`, added.
pub open spec fn with_record(page: PackedPage, index: usize, item: Seq<u8>) -> PackedPage {
    PackedPage { page_len: page.page_len, indices: page.indices.push(index), items: page.items.push(item) }
}

/// An empty page of `page_len` blocks.
pub open spec fn empty_page(page_len: u16) -> PackedPage {
    PackedPage { page_len, indices: Seq::empty(), items: Seq::empty() }
}

/// The state of packing after the first `k` records of `items`: the first
/// page is opened for `items[0]`; a record that fits the current page goes
/// into it, else the current page is finished and a page opened for the
/// record takes it.
pub open spec fn pack_state(items: Seq<Seq<u8>>, k: nat) -> PackState
    decreases k,
{
    if k == 0 {
        PackState { done: Seq::empty(), cur: empty_page(page_len_for(items[0].len())) }
    } else {
        let st = pack_state(items, (k - 1) as nat);
        let item = items[k - 1];
        if record_fits(st.cur, item.len()) {
            PackState { done: st.done, cur: with_record(st.cur, (k - 1) as usize, item) }
        } else {
            PackState {
                done: st.done.push(st.cur),
                cur: with_record(empty_page(page_len_for(item.len())), (k - 1) as usize, item),
            }
        }
    }
}

/// The pages that packing `items` produces, in order.
pub open spec fn spec_pack(items: Seq<Seq<u8>>) -> Seq<PackedPage> {
    let st = pack_state(items, items.len());
    st.done.push(st.cur)
}

/// The inputs on which packing runs to the end: at least one record, every
/// record small enough to open a page for, and every page's header and
/// records within its size.
pub open spec fn pack_accepts(items: Seq<Seq<u8>>) -> bool {
    &&& items.len() >= 1
    &&& forall|i: int| 0 <= i < items.len() ==> #[trigger] items[i].len() <= max_record_len()
    &&& forall|j: int|
        0 <= j < spec_pack(items).len() ==> layout_fits(
            page_size_of(#[trigger] spec_pack(items)[j].page_len),
            spec_pack(items)[j].items.len(),
            concat(spec_pack(items)[j].items).len(),
        )
}

/// A page opened for a record of at most `max_record_len()` bytes holds it
/// with room for 12 bytes of header, and has at least `MAX_PAGE_LEN` blocks.
pub proof fn lemma_page_len_for(len: nat)
    requires
        len <= max_record_len(),
    ensures
        page_size_of(page_len_for(len)) >= len + 12,
        page_len_for(len) >= crate::config::default::MAX_PAGE_LEN,
        page_len_for(len) as nat == if (len + 12 + 4095) / 4096 >= 16 {
            (len + 12 + 4095) / 4096
        } else {
            16
        },
{
    let blocks = (len + 12 + 4095) / 4096;
    assert(blocks <= 65535) by (nonlinear_arith)
        requires
            blocks == (len + 12 + 4095) / 4096,
            len + 12 <= 65535 * 4096,
    ;
    assert(blocks * 4096 >= len + 12) by (nonlinear_arith)
        requires
            blocks == (len + 12 + 4095) / 4096,
    ;
}

/// The finished pages after `k` records stay the first finished pages after
/// any later count `m`.
proof fn lemma_pack_done_prefix(items: Seq<Seq<u8>>, k: nat, m: nat)
    requires
        k <= m,
    ensures
        pack_state(items, k).done.len() <= pack_state(items, m).done.len(),
        pack_state(items, m).done.subrange(0, pack_state(items, k).done.len() as int)
            == pack_state(items, k).done,
    decreases m,
{
    if k == m {
        assert(pack_state(items, m).done.subrange(0, pack_state(items, m).done.len() as int)
            =~= pack_state(items, m).done);
    } else {
        lemma_pack_done_prefix(items, k, (m - 1) as nat);
        let prev = pack_state(items, (m - 1) as nat).done;
        let now = pack_state(items, m).done;
        let kd = pack_state(items, k).done;
        assert(now.subrange(0, kd.len() as int) =~= prev.subrange(0, kd.len() as int));
    }
}

/// Every page finished while packing is one of the final pages.
proof fn lemma_done_is_final(items: Seq<Seq<u8>>, k: nat, j: int)
    requires
        k <= items.len(),
        0 <= j < pack_state(items, k).done.len(),
    ensures
        j < spec_pack(items).len(),
        spec_pack(items)[j] == pack_state(items, k).done[j],
{
    lemma_pack_done_prefix(items, k, items.len());
    let fin = pack_state(items, items.len()).done;
    assert(fin.subrange(0, pack_state(items, k).done.len() as int)[j] == fin[j]);
}

/// The exact byte length of a page whose header and records fit.
pub proof fn lemma_page_bytes_len(page_len: u16, items: Seq<Seq<u8>>)
    requires
        layout_fits(page_size_of(page_len), items.len(), concat(items).len()),
    ensures
        page_bytes(page_len, items).len() == page_size_of(page_len),
{
    lemma_be32_all_len(slots_of(page_size_of(page_len), items));
    lemma_concat_newest_first_len(items);
}

proof fn lemma_be32_all_len(xs: Seq<u32>)
    ensures
        be32_all(xs).len() == 4 * xs.len(),
    decreases xs.len(),
{
    if xs.len() > 0 {
        lemma_be32_all_len(xs.subrange(0, xs.len() - 1));
    }
}

/// The record indices of `pages`, page after page.
pub open spec fn all_indices(pages: Seq<PackedPage>) -> Seq<usize>
    decreases pages.len(),
{
    if pages.len() == 0 {
        Seq::empty()
    } else {
        all_indices(pages.subrange(0, pages.len() - 1)) + pages[pages.len() - 1].indices
    }
}

/// The records of `pages`, page after page.
pub open spec fn all_records(pages: Seq<PackedPage>) -> Seq<Seq<u8>>
    decreases pages.len(),
{
    if pages.len() == 0 {
        Seq::empty()
    } else {
        all_records(pages.subrange(0, pages.len() - 1)) + pages[pages.len() - 1].items
    }
}

proof fn lemma_all_push(pages: Seq<PackedPage>, page: PackedPage)
    ensures
        all_indices(pages.push(page)) == all_indices(pages) + page.indices,
        all_records(pages.push(page)) == all_records(pages) + page.items,
{
    let next = pages.push(page);
    assert(next.subrange(0, next.len() - 1) =~= pages);
}

/// While packing, the pages so far hold the first `k` records and their
/// indices, in order; each page holds as many indices as records, at
/// least one record once a record has been placed, and at least
/// `MAX_PAGE_LEN` blocks.
proof fn lemma_pack_state_covers(items: Seq<Seq<u8>>, k: nat)
    requires
        1 <= items.len(),
        k <= items.len(),
        forall|i: int| 0 <= i < items.len() ==> #[trigger] items[i].len() <= max_record_len(),
    ensures
        ({
            let st = pack_state(items, k);
            &&& all_indices(st.done.push(st.cur)) == Seq::new(k, |i: int| i as usize)
            &&& all_records(st.done.push(st.cur)) == items.subrange(0, k as int)
            &&& forall|j: int|
                0 <= j < st.done.len() ==> (#[trigger] st.done[j]).items.len() >= 1
                    && st.done[j].page_len >= crate::config::default::MAX_PAGE_LEN
            &&& st.cur.page_len >= crate::config::default::MAX_PAGE_LEN
            &&& k >= 1 ==> st.cur.items.len() >= 1
        }),
    decreases k,
{
    let st = pack_state(items, k);
    if k == 0 {
        lemma_page_len_for(items[0].len());
        lemma_all_push(Seq::empty(), st.cur);
        assert(all_indices(Seq::<PackedPage>::empty()) == Seq::<usize>::empty());
        assert(all_records(Seq::<PackedPage>::empty()) == Seq::<Seq<u8>>::empty());
        assert(all_indices(st.done.push(st.cur)) =~= Seq::new(k, |i: int| i as usize));
        assert(all_records(st.done.push(st.cur)) =~= items.subrange(0, k as int));
    } else {
        lemma_pack_state_covers(items, (k - 1) as nat);
        let prev = pack_state(items, (k - 1) as nat);
        let item = items[k - 1];
        lemma_all_push(prev.done, prev.cur);
        lemma_all_push(st.done, st.cur);
        if record_fits(prev.cur, item.len()) {
            assert(st.done == prev.done);
            assert(st.cur == with_record(prev.cur, (k - 1) as usize, item));
            let x = all_indices(prev.done);
            let y = prev.cur.indices;
            assert(x + y.push((k - 1) as usize) =~= (x + y).push((k - 1) as usize));
            assert(Seq::new((k - 1) as nat, |i: int| i as usize).push((k - 1) as usize) =~= Seq::new(
                k,
                |i: int| i as usize,
            ));
            let xr = all_records(prev.done);
            let yr = prev.cur.items;
            assert(xr + yr.push(item) =~= (xr + yr).push(item));
            assert(items.subrange(0, k - 1).push(item) =~= items.subrange(0, k as int));
            assert(all_indices(st.done.push(st.cur)) =~= Seq::new(k, |i: int| i as usize));
            assert(all_records(st.done.push(st.cur)) =~= items.subrange(0, k as int));
        } else {
            lemma_page_len_for(item.len());
            if k == 1 {
                lemma_page_len_for(items[0].len());
                assert(concat(prev.cur.items) == Seq::<u8>::empty());
                assert(false);
            }
            assert(all_indices(st.done.push(st.cur)) =~= Seq::new(k, |i: int| i as usize));
            assert(all_records(st.done.push(st.cur)) =~= items.subrange(0, k as int));
        }
    }
}

/// Each record of `page` is the input record at its index, and a page that
/// holds a record was opened for its first record.
pub open spec fn page_from_records(items: Seq<Seq<u8>>, page: PackedPage) -> bool {
    &&& page.indices.len() == page.items.len()
    &&& forall|m: int|
        0 <= m < page.items.len() ==> 0 <= #[trigger] page.indices[m] < items.len()
            && page.items[m] == items[page.indices[m] as int]
    &&& page.items.len() >= 1 ==> page.page_len == page_len_for(page.items[0].len())
}

proof fn lemma_pack_pages_opened(items: Seq<Seq<u8>>, k: nat)
    requires
        1 <= items.len() <= usize::MAX,
        k <= items.len(),
        forall|i: int| 0 <= i < items.len() ==> #[trigger] items[i].len() <= max_record_len(),
    ensures
        ({
            let st = pack_state(items, k);
            &&& forall|j: int|
                0 <= j < st.done.len() ==> page_from_records(items, #[trigger] st.done[j])
            &&& page_from_records(items, st.cur)
            &&& k == 0 ==> st.cur.page_len == page_len_for(items[0].len()) && st.cur.items.len()
                == 0
        }),
    decreases k,
{
    let st = pack_state(items, k);
    if k == 0 {
        assert(page_from_records(items, st.cur));
    } else {
        lemma_pack_pages_opened(items, (k - 1) as nat);
        lemma_pack_state_covers(items, (k - 1) as nat);
        let prev = pack_state(items, (k - 1) as nat);
        let item = items[k - 1];
        if record_fits(prev.cur, item.len()) {
            assert(st.done == prev.done);
            assert(st.cur == with_record(prev.cur, (k - 1) as usize, item));
            assert(page_from_records(items, st.cur)) by {
                assert forall|m: int| 0 <= m < st.cur.items.len() implies 0
                    <= #[trigger] st.cur.indices[m] < items.len() && st.cur.items[m]
                    == items[st.cur.indices[m] as int] by {
                    if m < prev.cur.items.len() {
                        assert(st.cur.indices[m] == prev.cur.indices[m]);
                        assert(st.cur.items[m] == prev.cur.items[m]);
                    }
                }
                if prev.cur.items.len() == 0 {
                    assert(k - 1 == 0);
                }
            }
        } else {
            assert(st.done == prev.done.push(prev.cur));
            assert(st.cur == with_record(
                empty_page(page_len_for(item.len())),
                (k - 1) as usize,
                item,
            ));
            assert forall|j: int| 0 <= j < st.done.len() implies page_from_records(
                items,
                #[trigger] st.done[j],
            ) by {
                if j < prev.done.len() {
                    assert(st.done[j] == prev.done[j]);
                }
            }
            assert(page_from_records(items, st.cur));
        }
    }
}

/// The first two bytes of a page give its length in blocks, big-endian.
proof fn lemma_page_len_field(page_len: u16, items: Seq<Seq<u8>>)
    ensures
        page_bytes(page_len, items)[0] as int * 256 + page_bytes(page_len, items)[1] as int
            == page_len as int,
{
    let x = page_len;
    assert(((x >> 8u16) as u8) as u16 * 256u16 + (x as u8) as u16 == x) by (bit_vector);
}

/// Every page that packing produces, on inputs on which it runs to the
/// end, holds at least one record and as many indices as records, each the
/// input record at its index; it spans `page_len` blocks of 4096 bytes,
/// its first two bytes are `page_len` big-endian, and `page_len` is the
/// number of 4096-byte blocks that its first record and 12 bytes of header
/// need, but at least 16.
pub proof fn lemma_pack_page_headers(items: Seq<Seq<u8>>)
    requires
        pack_accepts(items),
        items.len() <= usize::MAX,
    ensures
        forall|j: int|
            0 <= j < spec_pack(items).len() ==> {
                let page = #[trigger] spec_pack(items)[j];
                let bytes = page_bytes(page.page_len, page.items);
                let first = page.items[0].len();
                &&& page.items.len() >= 1
                &&& page.indices.len() == page.items.len()
                &&& forall|m: int|
                    0 <= m < page.items.len() ==> 0 <= #[trigger] page.indices[m] < items.len()
                        && page.items[m] == items[page.indices[m] as int]
                &&& page.page_len as int == if (first + 12 + 4095) / 4096 >= 16 {
                    (first + 12 + 4095) / 4096
                } else {
                    16
                }
                &&& bytes.len() == page.page_len as int * 4096
                &&& bytes[0] as int * 256 + bytes[1] as int == page.page_len as int
            },
{
    let n = items.len();
    lemma_pack_pages_opened(items, n);
    lemma_pack_state_covers(items, n);
    let st = pack_state(items, n);
    assert forall|j: int| 0 <= j < spec_pack(items).len() implies {
        let page = #[trigger] spec_pack(items)[j];
        let bytes = page_bytes(page.page_len, page.items);
        let first = page.items[0].len();
        &&& page.items.len() >= 1
        &&& page.indices.len() == page.items.len()
        &&& forall|m: int|
            0 <= m < page.items.len() ==> 0 <= #[trigger] page.indices[m] < items.len()
                && page.items[m] == items[page.indices[m] as int]
        &&& page.page_len as int == if (first + 12 + 4095) / 4096 >= 16 {
            (first + 12 + 4095) / 4096
        } else {
            16
        }
        &&& bytes.len() == page.page_len as int * 4096
        &&& bytes[0] as int * 256 + bytes[1] as int == page.page_len as int
    } by {
        let page = spec_pack(items)[j];
        if j < st.done.len() {
            assert(page == st.done[j]);
        } else {
            assert(page == st.cur);
        }
        assert(page_from_records(items, page));
        assert(page.items.len() >= 1);
        assert(items[page.indices[0] as int] == page.items[0]);
        lemma_page_len_for(page.items[0].len());
        lemma_page_bytes_len(page.page_len, page.items);
        lemma_page_len_field(page.page_len, page.items);
    }
}

/// Packing keeps every record exactly once and in order: the pages' record
/// indices, page after page, are `0, 1, ..., n - 1`, and their records,
/// page after page, are the input records. Every page holds at least one
/// record and spans at least `MAX_PAGE_LEN` blocks.
pub proof fn lemma_pack_keeps_records(items: Seq<Seq<u8>>)
    requires
        1 <= items.len(),
        forall|i: int| 0 <= i < items.len() ==> #[trigger] items[i].len() <= max_record_len(),
    ensures
        all_indices(spec_pack(items)) == Seq::new(items.len(), |i: int| i as usize),
        all_records(spec_pack(items)) == items,
        forall|j: int|
            0 <= j < spec_pack(items).len() ==> (#[trigger] spec_pack(items)[j]).items.len() >= 1
                && spec_pack(items)[j].page_len >= crate::config::default::MAX_PAGE_LEN,
{
    lemma_pack_state_covers(items, items.len());
    assert(items.subrange(0, items.len() as int) =~= items);
}

/// Each page that packing produces, on inputs on which it runs to the end,
/// is exactly `page_len * BLOCK_SIZE` bytes long.
pub proof fn lemma_pack_page_sizes(items: Seq<Seq<u8>>)
    requires
        pack_accepts(items),
    ensures
        forall|j: int|
            0 <= j < spec_pack(items).len() ==> page_bytes(
                (#[trigger] spec_pack(items)[j]).page_len,
                spec_pack(items)[j].items,
            ).len() == page_size_of(spec_pack(items)[j].page_len),
{
    assert forall|j: int| 0 <= j < spec_pack(items).len() implies page_bytes(
        (#[trigger] spec_pack(items)[j]).page_len,
        spec_pack(items)[j].items,
    ).len() == page_size_of(spec_pack(items)[j].page_len) by {
        lemma_page_bytes_len(spec_pack(items)[j].page_len, spec_pack(items)[j].items);
    }
}

/// In every page that packing produces, on inputs on which it runs to the
/// end, the header holds each record's slot position and each slot position
/// is where that record's bytes start.
pub proof fn lemma_pack_slots_locate_records(items: Seq<Seq<u8>>)
    requires
        pack_accepts(items),
    ensures
        forall|j: int, k: int|
            #![trigger spec_pack(items)[j].items[k]]
            0 <= j < spec_pack(items).len() && 0 <= k < spec_pack(items)[j].items.len() ==> {
                let page = spec_pack(items)[j];
                let bytes = page_bytes(page.page_len, page.items);
                let pos = slots_of(page_size_of(page.page_len), page.items)[k] as int;
                &&& bytes.subrange(8 + 4 * k, 12 + 4 * k) == be32(
                    slots_of(page_size_of(page.page_len), page.items)[k],
                )
                &&& bytes.subrange(pos, pos + page.items[k].len()) == page.items[k]
            },
{
    assert forall|j: int, k: int|
        #![trigger spec_pack(items)[j].items[k]]
        0 <= j < spec_pack(items).len() && 0 <= k < spec_pack(items)[j].items.len() implies {
        let page = spec_pack(items)[j];
        let bytes = page_bytes(page.page_len, page.items);
        let pos = slots_of(page_size_of(page.page_len), page.items)[k] as int;
        &&& bytes.subrange(8 + 4 * k, 12 + 4 * k) == be32(
            slots_of(page_size_of(page.page_len), page.items)[k],
        )
        &&& bytes.subrange(pos, pos + page.items[k].len()) == page.items[k]
    } by {
        let page = spec_pack(items)[j];
        lemma_slots_locate_records(page.page_len, page.items);
    }
}

/// The byte contents of each record.
pub open spec fn records_of(records: Seq<Vec<u8>>) -> Seq<Seq<u8>> {
    records.map_values(|b: Vec<u8>| b@)
}

/// A page returned for `records`, read on its bytes and indices: it holds
/// at least one record index, spans `page_len` blocks of 4096 bytes, starts
/// with `page_len` big-endian, and `page_len` is the number of 4096-byte
/// blocks that its first record and 12 bytes of header need, but at least 16.
pub open spec fn page_header_holds(
    records: Seq<Vec<u8>>,
    page_len: u16,
    indices: Seq<usize>,
    bytes: Seq<u8>,
) -> bool {
    &&& indices.len() >= 1
    &&& indices[0] < records.len()
    &&& page_len as int == if (records[indices[0] as int]@.len() + 12 + 4095) / 4096 >= 16 {
        (records[indices[0] as int]@.len() + 12 + 4095) / 4096
    } else {
        16
    }
    &&& bytes.len() == page_len as int * 4096
    &&& bytes[0] as int * 256 + bytes[1] as int == page_len as int
}

/// What [`SlottedPageManager::push`] returns, read on the bytes: see
/// [`page_header_holds`].
pub proof fn lemma_push_result_headers(records: Seq<Vec<u8>>, res: Seq<(Vec<usize>, Vec<u8>)>)
    requires
        pack_accepts(records_of(records)),
        records.len() <= usize::MAX,
        res.len() == spec_pack(records_of(records)).len(),
        forall|j: int|
            0 <= j < res.len() ==> {
                let page = #[trigger] spec_pack(records_of(records))[j];
                &&& res[j].0@ == page.indices
                &&& res[j].1@ == page_bytes(page.page_len, page.items)
            },
    ensures
        forall|j: int|
            0 <= j < res.len() ==> page_header_holds(
                records,
                #[trigger] spec_pack(records_of(records))[j].page_len,
                res[j].0@,
                res[j].1@,
            ),
{
    let items = records_of(records);
    lemma_pack_page_headers(items);
    assert forall|j: int| 0 <= j < res.len() implies page_header_holds(
        records,
        #[trigger] spec_pack(records_of(records))[j].page_len,
        res[j].0@,
        res[j].1@,
    ) by {
        let page = spec_pack(items)[j];
        assert(res[j].0@ == page.indices);
        assert(res[j].1@ == page_bytes(page.page_len, page.items));
        assert(items[page.indices[0] as int] == records[page.indices[0] as int]@);
    }
}

/// Packs records into slotted pages.
pub struct SlottedPageManager {
    pages: Vec<SlottedPage>,
}

impl View for SlottedPageManager {
    type V = Seq<PageView>;

    closed spec fn view(&self) -> Seq<PageView> {
        self.pages@.map_values(|p: SlottedPage| p@)
    }
}

/// The number of blocks of the page opened for a record of `len` bytes.
fn page_len_for_record(len: usize) -> (page_len: u16)
    requires
        len <= max_record_len(),
    ensures
        page_len == page_len_for(len as nat),
{
    proof {
        lemma_page_len_for(len as nat);
    }
    let blocks = (len + 12 + 4095) / 4096;
    if blocks >= crate::config::default::MAX_PAGE_LEN as usize {
        blocks as u16
    } else {
        crate::config::default::MAX_PAGE_LEN
    }
}

impl SlottedPageManager {
    /// A manager that holds no pages.
    pub fn new() -> (manager: Self)
        ensures
            manager@ == Seq::<PageView>::empty(),
    {
        let manager = Self { pages: Vec::new() };
        proof {
            assert(manager@ =~= Seq::<PageView>::empty());
        }
        manager
    }

    /// The bytes of `page`: see [`page_bytes`].
    #[verifier::rlimit(60)]
    fn create_page_bytes(&self, page: &SlottedPage) -> (bytes: Vec<u8>)
        requires
            page.wf(),
            layout_fits(page@.page_size as nat, page@.items.len(), page@.data.len()),
        ensures
            bytes@ == page_bytes(page@.page_len, page@.items),
    {
        let mut result: Vec<u8> = Vec::new();
        push_be16(&mut result, page.page_len);
        push_be16(&mut result, crate::config::default::BLOCK_SIZE as u16);
        push_be32(&mut result, page.total_slots);
        let ghost header = result@;
        let n = page.slot_positions.len();
        let mut i: usize = 0;
        while i < n
            invariant
                n == page.slot_positions@.len(),
                i <= n,
                result@ == header + be32_all(page.slot_positions@.subrange(0, i as int)),
            decreases n - i,
        {
            let ghost before = page.slot_positions@.subrange(0, i as int);
            push_be32(&mut result, page.slot_positions[i]);
            proof {
                lemma_be32_all_push(before, page.slot_positions@[i as int]);
                assert(before.push(page.slot_positions@[i as int]) =~= page.slot_positions@.subrange(
                    0,
                    i + 1,
                ));
            }
            i = i + 1;
        }
        proof {
            assert(page.slot_positions@.subrange(0, n as int) =~= page.slot_positions@);
        }
        let slot_section_len = 2 + 2 + 4 + 4 * page.total_slots as usize;
        proof {
            lemma_concat_newest_first_len(page@.items);
        }
        let padding_len = page.page_size as usize - slot_section_len - page.data.len();
        if padding_len > 0 {
            push_zeros(&mut result, padding_len);
        }
        let ghost base = result@;
        let ghost items = page@.items;
        let ps = page.page_size as usize;
        // The records, newest first: record `k - 1` is `data[start..end]`,
        // where `end` is the page size less its slot position.
        let mut k = n;
        proof {
            assert(items.subrange(n as int, n as int) =~= Seq::<Seq<u8>>::empty());
            assert(base + concat_newest_first(items.subrange(n as int, n as int)) =~= base);
        }
        while k > 0
            invariant
                page.wf(),
                items == page@.items,
                n == items.len(),
                ps == page@.page_size,
                k <= n,
                result@ == base + concat_newest_first(items.subrange(k as int, n as int)),
            decreases k,
        {
            proof {
                lemma_concat_record(items, k - 1);
                if k >= 2 {
                    lemma_concat_record(items, k - 2);
                } else {
                    assert(items.subrange(0, 0) =~= Seq::<Seq<u8>>::empty());
                }
            }
            let end = ps - page.slot_positions[k - 1] as usize;
            let start = if k == 1 {
                0
            } else {
                ps - page.slot_positions[k - 2] as usize
            };
            proof {
                assert(end == bytes_before(items, k as int));
                assert(start == bytes_before(items, k - 1));
            }
            push_range(&mut result, page.data.as_slice(), start, end);
            proof {
                let cur = items.subrange(k - 1, n as int);
                assert(cur.subrange(1, cur.len() as int) =~= items.subrange(k as int, n as int));
                assert(concat_newest_first(cur) == concat_newest_first(
                    cur.subrange(1, cur.len() as int),
                ) + cur[0]);
                assert(result@ =~= base + concat_newest_first(cur));
            }
            k = k - 1;
        }
        proof {
            assert(items.subrange(0, n as int) =~= items);
            assert(result@ =~= page_bytes(page@.page_len, page@.items));
        }
        result
    }

    /// Whether [`Self::push`] runs to the end on `bytedataarray`: there is a
    /// record, every record is at most [`max_record_len`] bytes, and the
    /// header (8 bytes and 4 per slot) and records of every page that
    /// packing produces fit the page.
    pub fn can_push(&self, bytedataarray: &Vec<Vec<u8>>) -> (ok: bool)
        ensures
            ok == pack_accepts(records_of(bytedataarray@)),
    {
        let ghost items = records_of(bytedataarray@);
        let n = bytedataarray.len();
        if n == 0 {
            return false;
        }
        let mut i: usize = 0;
        while i < n
            invariant
                n == bytedataarray@.len(),
                items == records_of(bytedataarray@),
                i <= n,
                forall|j: int| 0 <= j < i ==> #[trigger] items[j].len() <= max_record_len(),
            decreases n - i,
        {
            proof {
                assert(items[i as int] == bytedataarray@[i as int]@);
            }
            if bytedataarray[i].len() > 268431348 {
                return false;
            }
            i = i + 1;
        }
        proof {
            assert(items[0] == bytedataarray@[0]@);
        }
        let mut page_len = page_len_for_record(bytedataarray[0].len());
        let mut slots: usize = 0;
        let mut data: usize = 0;
        proof {
            lemma_page_len_for(items[0].len());
            assert(concat(Seq::<Seq<u8>>::empty()).len() == 0);
        }
        let mut i: usize = 0;
        while i < n
            invariant
                n == bytedataarray@.len(),
                n == items.len(),
                items == records_of(bytedataarray@),
                i <= n,
                forall|j: int| 0 <= j < n ==> #[trigger] items[j].len() <= max_record_len(),
                page_len == pack_state(items, i as nat).cur.page_len,
                slots == pack_state(items, i as nat).cur.items.len(),
                data == concat(pack_state(items, i as nat).cur.items).len(),
                data <= page_size_of(page_len),
                2 * slots <= page_size_of(page_len),
                forall|j: int|
                    0 <= j < pack_state(items, i as nat).done.len() ==> layout_fits(
                        page_size_of((#[trigger] pack_state(items, i as nat).done[j]).page_len),
                        pack_state(items, i as nat).done[j].items.len(),
                        concat(pack_state(items, i as nat).done[j].items).len(),
                    ),
            decreases n - i,
        {
            let ghost st = pack_state(items, i as nat);
            let ghost next = pack_state(items, (i + 1) as nat);
            proof {
                assert(items[i as int] == bytedataarray@[i as int]@);
                assert(page_size_of(page_len) <= 268431360);
            }
            let len = bytedataarray[i].len();
            let ps = page_len as usize * 4096;
            if 3 + 2 * (slots + 1) + data + len <= ps {
                proof {
                    assert(record_fits(st.cur, len as nat));
                    assert(next.done == st.done);
                    assert(next.cur == with_record(st.cur, i, items[i as int]));
                    lemma_concat_push(st.cur.items, items[i as int]);
                }
                slots = slots + 1;
                data = data + len;
            } else {
                proof {
                    assert(!record_fits(st.cur, len as nat));
                    assert(next.done == st.done.push(st.cur));
                }
                if 8 + 4 * slots + data > ps {
                    proof {
                        lemma_done_is_final(items, (i + 1) as nat, st.done.len() as int);
                        assert(next.done[st.done.len() as int] == st.cur);
                    }
                    return false;
                }
                page_len = page_len_for_record(len);
                slots = 1;
                data = len;
                proof {
                    lemma_page_len_for(len as nat);
                    lemma_concat_push(Seq::<Seq<u8>>::empty(), items[i as int]);
                    assert(Seq::<Seq<u8>>::empty().push(items[i as int]) =~= seq![items[i as int]]);
                    assert(concat(Seq::<Seq<u8>>::empty()).len() == 0);
                    assert(next.cur.items =~= Seq::<Seq<u8>>::empty().push(items[i as int]));
                }
            }
            i = i + 1;
        }
        let ghost st = pack_state(items, n as nat);
        proof {
            assert(spec_pack(items) == st.done.push(st.cur));
            assert(spec_pack(items)[st.done.len() as int] == st.cur);
            assert(forall|j: int| 0 <= j < st.done.len() ==> spec_pack(items)[j] == st.done[j]);
        }
        let ps = page_len as usize * 4096;
        8 + 4 * slots + data <= ps
    }

    /// Packs `bytedataarray` into slotted pages, in order: the first page is
    /// opened for the first record; a record that fits the current page (by
    /// [`SlottedPage::can_fit`]) goes into it, else the current page is
    /// finished and a new page, opened for the record, takes it. Returns,
    /// for each page, the indices of its records and its bytes, in which the
    /// records fill the page from its end backwards, newest first, each at
    /// its slot position. [`Self::can_push`] tells the inputs it runs on.
    pub fn push(&mut self, bytedataarray: Vec<Vec<u8>>) -> (res: Vec<(Vec<usize>, Vec<u8>)>)
        requires
            pack_accepts(records_of(bytedataarray@)),
        ensures
            *final(self) == *old(self),
            res@.len() == spec_pack(records_of(bytedataarray@)).len(),
            forall|j: int|
                0 <= j < res@.len() ==> {
                    let page = #[trigger] spec_pack(records_of(bytedataarray@))[j];
                    &&& res@[j].0@ == page.indices
                    &&& res@[j].1@ == page_bytes(page.page_len, page.items)
                },
            forall|j: int|
                0 <= j < res@.len() ==> page_header_holds(
                    bytedataarray@,
                    #[trigger] spec_pack(records_of(bytedataarray@))[j].page_len,
                    res@[j].0@,
                    res@[j].1@,
                ),
    {
        let ghost orig = bytedataarray@;
        let ghost items = records_of(orig);
        let n = bytedataarray.len();
        let first_len = bytedataarray[0].len();
        proof {
            assert(items[0] == orig[0]@);
        }
        let page_len = page_len_for_record(first_len);
        let mut results: Vec<(Vec<usize>, Vec<u8>)> = Vec::new();
        let mut current_page = SlottedPage::new(page_len);
        let mut data_indices: Vec<usize> = Vec::new();
        let mut i: usize = 0;
        proof {
            assert(data_indices@ =~= Seq::<usize>::empty());
        }
        for bytedata in it: bytedataarray.into_iter()
            invariant
                it.seq() == orig,
                items == records_of(orig),
                n == orig.len(),
                i == it.index(),
                i <= n,
                *self == *old(self),
                pack_accepts(items),
                current_page.wf(),
                current_page@.page_len == pack_state(items, i as nat).cur.page_len,
                current_page@.items == pack_state(items, i as nat).cur.items,
                data_indices@ == pack_state(items, i as nat).cur.indices,
                2 * current_page@.items.len() <= current_page@.page_size,
                results@.len() == pack_state(items, i as nat).done.len(),
                forall|j: int|
                    0 <= j < results@.len() ==> {
                        let page = #[trigger] pack_state(items, i as nat).done[j];
                        &&& results@[j].0@ == page.indices
                        &&& results@[j].1@ == page_bytes(page.page_len, page.items)
                    },
        {
            let ghost st = pack_state(items, i as nat);
            let ghost next = pack_state(items, (i + 1) as nat);
            proof {
                assert(items[i as int] == bytedata@);
                assert(bytedata@.len() <= max_record_len());
                assert(concat(st.cur.items).len() <= page_size_of(st.cur.page_len));
            }
            if current_page.can_fit(bytedata.len(), 1) {
                proof {
                    assert(record_fits(st.cur, bytedata@.len()));
                    assert(next.cur == with_record(st.cur, i, bytedata@));
                }
                current_page.add_data(bytedata);
                data_indices.push(i);
            } else {
                proof {
                    assert(!record_fits(st.cur, bytedata@.len()));
                    assert(next.done == st.done.push(st.cur));
                    lemma_done_is_final(items, (i + 1) as nat, st.done.len() as int);
                    assert(next.done[st.done.len() as int] == st.cur);
                }
                let bytes = self.create_page_bytes(&current_page);
                let mut finished: Vec<usize> = Vec::new();
                std::mem::swap(&mut finished, &mut data_indices);
                results.push((finished, bytes));
                let new_len = page_len_for_record(bytedata.len());
                proof {
                    lemma_page_len_for(bytedata@.len());
                }
                current_page = SlottedPage::new(new_len);
                current_page.add_data(bytedata);
                data_indices.push(i);
                proof {
                    assert(data_indices@ =~= Seq::<usize>::empty().push(i));
                }
            }
            i = i + 1;
        }
        let ghost st = pack_state(items, n as nat);
        proof {
            assert(spec_pack(items) == st.done.push(st.cur));
            assert(spec_pack(items)[st.done.len() as int] == st.cur);
        }
        let bytes = self.create_page_bytes(&current_page);
        results.push((data_indices, bytes));
        proof {
            lemma_push_result_headers(bytedataarray@, results@);
        }
        results
    }
}

} // verus!
