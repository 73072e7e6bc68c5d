//! Building a symbol database: interning of names, per-UUID address
//! indices, and the serialised file.
use vstd::prelude::*;
use vstd::string::StringSliceAdditionalSpecFns;

use crate::error::Error;
use crate::memdb::{find_tagged, nul_from, range_ok, string_at, addr_pos, field, item_src, item_sym, lookup_spec, table_string, uuid_pos, all_items_sorted, db_sorted, item_addr, items_sorted, slice_compressed, slice_len, slice_off, uuid_bytes, uuids_start, variant_items, uuid_key_at, uuid_table_ok, uuids_count, uuids_sorted, version_of};
use crate::schema::{
    be, le, le_bytes, lemma_le_bytes, H_NAMES_START, H_SYMBOLS_START, H_TAGGED_END,
    H_TAGGED_START, lemma_pow256_facts, push_le, uuid_key, HEADER_SIZE, MAX_ADDR,
    MAX_ID, MAX_SLICE_LEN, MAX_SLICE_OFFSET, MEMDB_VERSION,
};
use crate::sdk::{str_eq, SdkInfo};

verus! {

/// One packed `(address, symbol id, object-name id)` record.
#[derive(Clone, Copy, Debug)]
pub struct IndexItem {
    pub addr: u64,
    pub sym_id: u64,
    pub src_id: u64,
}

/// The index of one image variant.
pub struct ImageIndex {
    pub uuid: [u8; 16],
    pub tag: String,
    pub items: Vec<IndexItem>,
}

pub open spec fn key_of(u: [u8; 16]) -> nat {
    be(u@, 0, 16)
}

/// Items are strictly ascending by address.
pub open spec fn items_ascending(items: Seq<IndexItem>) -> bool {
    forall|i: int, j: int| 0 <= i < j < items.len() ==> #[trigger] items[i].addr < #[trigger] items[j].addr
}

/// Images are strictly ascending by raw UUID bytes.
pub open spec fn images_ascending(images: Seq<ImageIndex>) -> bool {
    forall|i: int, j: int|
        0 <= i < j < images.len() ==> key_of(#[trigger] images[i].uuid) < key_of(
            #[trigger] images[j].uuid,
        )
}

/// No earlier symbol has the address of symbol `m`.
pub open spec fn first_at(input: Seq<(u64, String)>, m: int) -> bool {
    forall|k: int| 0 <= k < m ==> input[k].0 != input[m].0
}

/// Every first symbol at an address in `input[..n]` has an item with its
/// address and name; every item has the address of some symbol there.
#[verifier::opaque]
pub open spec fn covers(
    items: Seq<IndexItem>,
    symbols: Seq<String>,
    input: Seq<(u64, String)>,
    n: int,
) -> bool {
    &&& forall|m: int|
        0 <= m < n && first_at(input, m) ==> exists|j: int|
            0 <= j < items.len() && (#[trigger] items[j]).addr == (#[trigger] input[m]).0
                && symbols[items[j].sym_id as int]@ == input[m].1@
    &&& forall|j: int|
        0 <= j < items.len() ==> exists|m: int|
            0 <= m < n && (#[trigger] items[j]).addr == (#[trigger] input[m]).0
}

/// Position of the first item whose address is not below `a`.
fn lower_bound(items: &Vec<IndexItem>, a: u64) -> (r: usize)
    requires
        items_ascending(items@),
    ensures
        r <= items@.len(),
        forall|j: int| 0 <= j < r ==> items@[j].addr < a,
        forall|j: int| r <= j < items@.len() ==> items@[j].addr >= a,
{
    let mut lo: usize = 0;
    let mut hi: usize = items.len();
    while lo < hi
        invariant
            lo <= hi <= items@.len(),
            items_ascending(items@),
            forall|j: int| 0 <= j < lo ==> items@[j].addr < a,
            forall|j: int| hi <= j < items@.len() ==> items@[j].addr >= a,
        decreases hi - lo,
    {
        let mid = lo + (hi - lo) / 2;
        if items[mid].addr < a {
            assert forall|j: int| 0 <= j < mid + 1 implies items@[j].addr < a by {
                if j < mid {
                    assert(items@[j].addr < items@[mid as int].addr);
                }
            }
            lo = mid + 1;
        } else {
            assert forall|j: int| mid <= j < items@.len() implies items@[j].addr >= a by {
                if j > mid {
                    assert(items@[mid as int].addr < items@[j].addr);
                }
            }
            hi = mid;
        }
    }
    lo
}

/// Position of the first image whose UUID is not below `key`.
fn image_lower_bound(images: &Vec<ImageIndex>, key: u128) -> (r: usize)
    requires
        images_ascending(images@),
    ensures
        r <= images@.len(),
        forall|j: int| 0 <= j < r ==> key_of(images@[j].uuid) < key,
        forall|j: int| r <= j < images@.len() ==> key_of(images@[j].uuid) >= key,
{
    let mut lo: usize = 0;
    let mut hi: usize = images.len();
    while lo < hi
        invariant
            lo <= hi <= images@.len(),
            images_ascending(images@),
            forall|j: int| 0 <= j < lo ==> key_of(images@[j].uuid) < key,
            forall|j: int| hi <= j < images@.len() ==> key_of(images@[j].uuid) >= key,
        decreases hi - lo,
    {
        let mid = lo + (hi - lo) / 2;
        if uuid_key(&images[mid].uuid) < key {
            assert forall|j: int| 0 <= j < mid + 1 implies key_of(images@[j].uuid) < key by {
                if j < mid {
                    assert(key_of(images@[j].uuid) < key_of(images@[mid as int].uuid));
                }
            }
            lo = mid + 1;
        } else {
            assert forall|j: int| mid <= j < images@.len() implies key_of(images@[j].uuid)
                >= key by {
                if j > mid {
                    assert(key_of(images@[mid as int].uuid) < key_of(images@[j].uuid));
                }
            }
            hi = mid;
        }
    }
    lo
}

/// Equal big-endian values of equal length mean equal bytes.
pub proof fn lemma_be_injective(x: Seq<u8>, y: Seq<u8>, n: nat)
    requires
        n <= x.len(),
        n <= y.len(),
        be(x, 0, n) == be(y, 0, n),
    ensures
        x.subrange(0, n as int) == y.subrange(0, n as int),
    decreases n,
{
    if n > 0 {
        let a = be(x, 0, (n - 1) as nat);
        let b = be(y, 0, (n - 1) as nat);
        let p = x[n - 1] as int;
        let q = y[n - 1] as int;
        assert(a == b && p == q) by (nonlinear_arith)
            requires
                a * 256 + p == b * 256 + q,
                0 <= p < 256,
                0 <= q < 256,
                a >= 0,
                b >= 0,
        ;
        lemma_be_injective(x, y, (n - 1) as nat);
        assert(x.subrange(0, n as int) =~= x.subrange(0, n - 1).push(x[n - 1]));
        assert(y.subrange(0, n as int) =~= y.subrange(0, n - 1).push(y[n - 1]));
    } else {
        assert(x.subrange(0, 0) =~= y.subrange(0, 0));
    }
}

pub proof fn lemma_key_injective(u: [u8; 16], v: [u8; 16])
    requires
        key_of(u) == key_of(v),
    ensures
        u == v,
{
    lemma_be_injective(u@, v@, 16);
    assert(u@ =~= u@.subrange(0, 16));
    assert(v@ =~= v@.subrange(0, 16));
    assert(u@ == v@);
    assert(forall|i: int| 0 <= i < 16 ==> u@[i] == v@[i]);
    assert(u =~= v);
}

/// Every image's items are ascending, fit their packed fields, and refer
/// to entries of tables of `n_symbols` and `n_names` entries.
pub open spec fn images_valid(images: Seq<ImageIndex>, n_symbols: nat, n_names: nat) -> bool {
    forall|i: int|
        0 <= i < images.len() ==> {
            let items = (#[trigger] images[i]).items@;
            &&& items_ascending(items)
            &&& forall|j: int|
                0 <= j < items.len() ==> {
                    &&& (#[trigger] items[j]).addr <= MAX_ADDR
                    &&& items[j].sym_id < n_symbols
                    &&& items[j].src_id < n_names
                }
        }
}

proof fn lemma_images_valid_grow(images: Seq<ImageIndex>, a: nat, b: nat, a2: nat, b2: nat)
    requires
        images_valid(images, a, b),
        a <= a2,
        b <= b2,
    ensures
        images_valid(images, a2, b2),
{
    assert forall|i: int| 0 <= i < images.len() implies {
        let items = (#[trigger] images[i]).items@;
        &&& items_ascending(items)
        &&& forall|j: int|
            0 <= j < items.len() ==> {
                &&& (#[trigger] items[j]).addr <= MAX_ADDR
                &&& items[j].sym_id < a2
                &&& items[j].src_id < b2
            }
    } by {
        let items = images[i].items@;
        assert forall|j: int| 0 <= j < items.len() implies {
            &&& (#[trigger] items[j]).addr <= MAX_ADDR
            &&& items[j].sym_id < a2
            &&& items[j].src_id < b2
        } by {}
    }
}

/// The image with UUID `u` in `images`, if any.
pub open spec fn image_in(images: Seq<ImageIndex>, u: [u8; 16]) -> Option<ImageIndex> {
    if exists|i: int| 0 <= i < images.len() && images[i].uuid == u {
        Some(images[choose|i: int| 0 <= i < images.len() && images[i].uuid == u])
    } else {
        None
    }
}

/// In an ascending table a UUID stands at one place only.
pub proof fn lemma_image_in(images: Seq<ImageIndex>, i: int)
    requires
        images_ascending(images),
        0 <= i < images.len(),
    ensures
        image_in(images, images[i].uuid) == Some(images[i]),
{
    let u = images[i].uuid;
    let c = choose|c: int| 0 <= c < images.len() && images[c].uuid == u;
    if c < i {
        assert(key_of(images[c].uuid) < key_of(images[i].uuid));
    } else if c > i {
        assert(key_of(images[i].uuid) < key_of(images[c].uuid));
    }
}

proof fn lemma_insert_ascending(before: Seq<IndexItem>, pos: int, x: IndexItem)
    requires
        items_ascending(before),
        0 <= pos <= before.len(),
        forall|j: int| 0 <= j < pos ==> before[j].addr < x.addr,
        forall|j: int| pos <= j < before.len() ==> before[j].addr > x.addr,
    ensures
        items_ascending(before.insert(pos, x)),
{
    let after = before.insert(pos, x);
    assert forall|i: int, j: int| 0 <= i < j < after.len() implies #[trigger] after[i].addr
        < #[trigger] after[j].addr by {
        if j < pos {
        } else if j == pos {
        } else if i < pos {
            assert(after[j] == before[j - 1]);
        } else if i == pos {
            assert(after[j] == before[j - 1]);
        } else {
            assert(before[i - 1].addr < before[j - 1].addr);
        }
    }
}

proof fn lemma_insert_covers(
    before: Seq<IndexItem>,
    old_table: Seq<String>,
    table: Seq<String>,
    input: Seq<(u64, String)>,
    k: int,
    pos: int,
    x: IndexItem,
)
    requires
        covers(before, old_table, input, k),
        0 <= k < input.len(),
        0 <= pos <= before.len(),
        forall|j: int| 0 <= j < before.len() ==> (#[trigger] before[j]).sym_id < old_table.len(),
        old_table.len() <= table.len(),
        forall|i: int| 0 <= i < old_table.len() ==> table[i] == old_table[i],
        x.addr == input[k].0,
        x.sym_id < table.len(),
        table[x.sym_id as int]@ == input[k].1@,
    ensures
        covers(before.insert(pos, x), table, input, k + 1),
{
    reveal(covers);
    let after = before.insert(pos, x);
    assert(after[pos] == x);
    assert forall|m: int| 0 <= m < k + 1 && first_at(input, m) implies exists|j: int|
        0 <= j < after.len() && (#[trigger] after[j]).addr == (#[trigger] input[m]).0
            && table[after[j].sym_id as int]@ == input[m].1@ by {
        if m < k {
            let j0 = choose|j: int|
                0 <= j < before.len() && (#[trigger] before[j]).addr == input[m].0
                    && old_table[before[j].sym_id as int]@ == input[m].1@;
            assert(before[j0].sym_id < old_table.len());
            if j0 < pos {
                assert(after[j0] == before[j0]);
            } else {
                assert(after[j0 + 1] == before[j0]);
            }
        }
    }
    assert forall|j: int| 0 <= j < after.len() implies exists|m: int|
        0 <= m < k + 1 && (#[trigger] after[j]).addr == (#[trigger] input[m]).0 by {
        if j == pos {
            assert(after[j].addr == input[k].0);
        } else {
            let jb = if j < pos { j } else { j - 1 };
            assert(after[j] == before[jb]);
            let m = choose|m: int| 0 <= m < k && (#[trigger] before[jb]).addr == input[m].0;
            assert(after[j].addr == input[m].0);
        }
    }
}

proof fn lemma_skip_covers(
    items: Seq<IndexItem>,
    table: Seq<String>,
    input: Seq<(u64, String)>,
    k: int,
    j: int,
)
    requires
        covers(items, table, input, k),
        0 <= k < input.len(),
        0 <= j < items.len(),
        items[j].addr == input[k].0,
    ensures
        covers(items, table, input, k + 1),
{
    reveal(covers);
    assert(!first_at(input, k)) by {
        let m = choose|m: int| 0 <= m < k && (#[trigger] items[j]).addr == input[m].0;
        assert(input[m].0 == input[k].0);
    }
    assert forall|i: int| 0 <= i < items.len() implies exists|m: int|
        0 <= m < k + 1 && (#[trigger] items[i]).addr == (#[trigger] input[m]).0 by {
        let m = choose|m: int| 0 <= m < k && (#[trigger] items[i]).addr == input[m].0;
        assert(0 <= m < k + 1 && items[i].addr == input[m].0);
    }
}

/// The index items of one variant: the first symbol at each address,
/// ascending by address, with its name interned in `table`.
fn collect_items(table: &mut Vec<String>, src: u64, symbols: &Vec<(u64, String)>) -> (r: Result<
    Vec<IndexItem>,
    Error,
>)
    requires
        old(table)@.len() <= MAX_ID + 1,
    ensures
        final(table)@.len() <= MAX_ID + 1,
        final(table)@.len() >= old(table)@.len(),
        forall|i: int| 0 <= i < old(table)@.len() ==> final(table)@[i] == old(table)@[i],
        (exists|m: int| 0 <= m < symbols@.len() && symbols@[m].0 > MAX_ADDR) ==> r.is_err(),
        (forall|m: int| 0 <= m < symbols@.len() ==> (#[trigger] symbols@[m]).0 <= MAX_ADDR)
            && old(table)@.len() + symbols@.len() <= MAX_ID + 1 ==> r.is_ok(),
        r matches Err(e) ==> (e matches Error::AddressOverflow(_)) || e == Error::TableFull,
        r matches Ok(items) ==> {
            &&& items_ascending(items@)
            &&& forall|j: int|
                0 <= j < items@.len() ==> {
                    &&& (#[trigger] items@[j]).addr <= MAX_ADDR
                    &&& items@[j].sym_id < final(table)@.len()
                    &&& items@[j].src_id == src
                }
            &&& covers(items@, final(table)@, symbols@, symbols@.len() as int)
        },
{
    let mut items: Vec<IndexItem> = Vec::new();
    let mut k: usize = 0;
    proof {
        reveal(covers);
    }
    while k < symbols.len()
        invariant
            table@.len() <= MAX_ID + 1,
            table@.len() >= old(table)@.len(),
            table@.len() <= old(table)@.len() + k,
            forall|i: int| 0 <= i < old(table)@.len() ==> table@[i] == old(table)@[i],
            k <= symbols@.len(),
            forall|m: int| 0 <= m < k ==> (#[trigger] symbols@[m]).0 <= MAX_ADDR,
            items_ascending(items@),
            forall|j: int|
                0 <= j < items@.len() ==> {
                    &&& (#[trigger] items@[j]).addr <= MAX_ADDR
                    &&& items@[j].sym_id < table@.len()
                    &&& items@[j].src_id == src
                },
            covers(items@, table@, symbols@, k as int),
        decreases symbols@.len() - k,
    {
        let addr = symbols[k].0;
        if addr > MAX_ADDR {
            return Err(Error::AddressOverflow(addr));
        }
        let pos = lower_bound(&items, addr);
        if pos < items.len() && items[pos].addr == addr {
            proof {
                lemma_skip_covers(items@, table@, symbols@, k as int, pos as int);
            }
        } else {
            if table.len() as u64 > MAX_ID {
                return Err(Error::TableFull);
            }
            let ghost old_table = table@;
            let ghost before = items@;
            let sym = intern(table, symbols[k].1.as_str()) as u64;
            let x = IndexItem { addr, sym_id: sym, src_id: src };
            items.insert(pos, x);
            proof {
                lemma_insert_ascending(before, pos as int, x);
                lemma_insert_covers(before, old_table, table@, symbols@, k as int, pos as int, x);
                assert forall|j: int| 0 <= j < items@.len() implies {
                    &&& (#[trigger] items@[j]).addr <= MAX_ADDR
                    &&& items@[j].sym_id < table@.len()
                    &&& items@[j].src_id == src
                } by {
                    if j < pos {
                        assert(items@[j] == before[j]);
                    } else if j > pos {
                        assert(items@[j] == before[j - 1]);
                    }
                }
            }
        }
        k += 1;
    }
    Ok(items)
}

proof fn lemma_put_ascending(before: Seq<ImageIndex>, after: Seq<ImageIndex>, pos: int, image: ImageIndex, replaced: bool)
    requires
        images_ascending(before),
        0 <= pos <= before.len(),
        forall|j: int| 0 <= j < pos ==> key_of(before[j].uuid) < key_of(image.uuid),
        forall|j: int| pos <= j < before.len() ==> key_of(before[j].uuid) >= key_of(image.uuid),
        replaced ==> pos < before.len() && key_of(before[pos].uuid) == key_of(image.uuid)
            && after == before.update(pos, image),
        !replaced ==> (pos == before.len() || key_of(before[pos].uuid) != key_of(image.uuid))
            && after == before.insert(pos, image),
    ensures
        images_ascending(after),
{
    assert forall|i: int, j: int| 0 <= i < j < after.len() implies key_of(
        #[trigger] after[i].uuid,
    ) < key_of(#[trigger] after[j].uuid) by {
        if replaced {
            if i != pos && j != pos {
                assert(key_of(before[i].uuid) < key_of(before[j].uuid));
            } else if i == pos {
                assert(key_of(before[pos].uuid) < key_of(before[j].uuid));
            } else {
                assert(key_of(before[i].uuid) < key_of(before[pos].uuid));
            }
        } else {
            if j < pos {
                assert(key_of(before[i].uuid) < key_of(before[j].uuid));
            } else if i > pos {
                assert(key_of(before[i - 1].uuid) < key_of(before[j - 1].uuid));
            } else if i < pos && j > pos {
                assert(after[j] == before[j - 1]);
            } else if i == pos {
                assert(after[j] == before[j - 1]);
                if j - 1 > pos {
                    assert(key_of(before[pos].uuid) < key_of(before[j - 1].uuid));
                }
            }
        }
    }
}

proof fn lemma_put_others(before: Seq<ImageIndex>, after: Seq<ImageIndex>, pos: int, image: ImageIndex, replaced: bool, u: [u8; 16])
    requires
        images_ascending(before),
        images_ascending(after),
        0 <= pos <= before.len(),
        u != image.uuid,
        replaced ==> pos < before.len() && before[pos].uuid == image.uuid
            && after == before.update(pos, image),
        !replaced ==> after == before.insert(pos, image),
    ensures
        image_in(after, u) == image_in(before, u),
{
    if exists|i: int| 0 <= i < before.len() && before[i].uuid == u {
        let i = choose|i: int| 0 <= i < before.len() && before[i].uuid == u;
        lemma_image_in(before, i);
        let i2 = if replaced || i < pos { i } else { i + 1 };
        assert(after[i2] == before[i]);
        lemma_image_in(after, i2);
    } else {
        assert forall|j: int| 0 <= j < after.len() implies after[j].uuid != u by {
            if j != pos {
                if replaced || j < pos {
                    assert(after[j] == before[j]);
                } else {
                    assert(after[j] == before[j - 1]);
                }
            }
        }
    }
}

/// Puts `image` into an ascending table, in place of one with the same UUID.
fn put_image(images: &mut Vec<ImageIndex>, image: ImageIndex)
    requires
        images_ascending(old(images)@),
    ensures
        images_ascending(final(images)@),
        image_in(final(images)@, image.uuid) == Some(image),
        forall|u: [u8; 16]|
            u != image.uuid ==> #[trigger] image_in(final(images)@, u) == image_in(old(images)@, u),
        forall|i: int|
            0 <= i < final(images)@.len() ==> #[trigger] final(images)@[i] == image || exists|j: int|
                0 <= j < old(images)@.len() && final(images)@[i] == old(images)@[j],
{
    let ghost img = image;
    let key = uuid_key(&image.uuid);
    let pos = image_lower_bound(images, key);
    let ghost before = images@;
    let replaced = pos < images.len() && uuid_key(&images[pos].uuid) == key;
    if replaced {
        proof {
            lemma_key_injective(before[pos as int].uuid, img.uuid);
        }
        images.set(pos, image);
    } else {
        images.insert(pos, image);
    }
    proof {
        let after = images@;
        lemma_put_ascending(before, after, pos as int, img, replaced);
        lemma_image_in(after, pos as int);
        assert forall|u: [u8; 16]| u != img.uuid implies #[trigger] image_in(after, u) == image_in(
            before,
            u,
        ) by {
            lemma_put_others(before, after, pos as int, img, replaced, u);
        }
        assert forall|i: int| 0 <= i < after.len() implies #[trigger] after[i] == img || exists|j: int|
            0 <= j < before.len() && after[i] == before[j] by {
            if i != pos {
                if replaced || i < pos {
                    assert(after[i] == before[i]);
                } else {
                    assert(after[i] == before[i - 1]);
                }
            }
        }
    }
}

fn add_size(a: u64, b: u64) -> (r: Result<u64, Error>)
    ensures
        r matches Ok(v) ==> v == a + b,
        r.is_err() ==> a + b > u64::MAX,
{
    match a.checked_add(b) {
        Some(v) => Ok(v),
        None => Err(Error::TooLarge),
    }
}

/// Number of index items of `images[..k]`.
#[verifier::opaque]
pub open spec fn items_before(images: Seq<ImageIndex>, k: int) -> nat
    decreases k,
{
    if k <= 0 {
        0
    } else {
        items_before(images, k - 1) + images[k - 1].items@.len()
    }
}

proof fn lemma_items_before_step(images: Seq<ImageIndex>, k: int)
    requires
        0 <= k,
    ensures
        items_before(images, k + 1) == items_before(images, k) + images[k].items@.len(),
        items_before(images, 0) == 0,
{
    reveal(items_before);
}

proof fn lemma_items_before_mono(images: Seq<ImageIndex>, a: int, b: int)
    requires
        0 <= a <= b,
    ensures
        items_before(images, a) <= items_before(images, b),
    decreases b - a,
{
    if a < b {
        lemma_items_before_mono(images, a, b - 1);
        lemma_items_before_step(images, b - 1);
    }
}

/// `a` begins with `b`.
pub open spec fn extends(a: Seq<u8>, b: Seq<u8>) -> bool {
    a.len() >= b.len() && a.subrange(0, b.len() as int) == b
}

proof fn lemma_extends_trans(a: Seq<u8>, b: Seq<u8>, c: Seq<u8>)
    requires
        extends(a, b),
        extends(b, c),
    ensures
        extends(a, c),
{
    assert(a.subrange(0, c.len() as int) =~= b.subrange(0, c.len() as int));
}

proof fn lemma_extends_window(a: Seq<u8>, b: Seq<u8>, x: int, y: int)
    requires
        extends(a, b),
        0 <= x <= y <= b.len(),
    ensures
        a.subrange(x, y) == b.subrange(x, y),
{
    assert(a.subrange(x, y) =~= a.subrange(0, b.len() as int).subrange(x, y));
}

proof fn lemma_le_extends(a: Seq<u8>, b: Seq<u8>, off: int, n: nat)
    requires
        extends(a, b),
        0 <= off,
        off + n <= b.len(),
    ensures
        le(a, off, n) == le(b, off, n),
    decreases n,
{
    if n > 0 {
        assert(a[off] == a.subrange(0, b.len() as int)[off]);
        lemma_le_extends(a, b, off + 1, (n - 1) as nat);
    }
}

/// The big-endian value of a window is that of the window's bytes.
pub proof fn lemma_be_window(a: Seq<u8>, off: int, n: nat)
    requires
        0 <= off,
        off + n <= a.len(),
    ensures
        be(a, off, n) == be(a.subrange(off, off + n), 0, n),
    decreases n,
{
    if n > 0 {
        lemma_be_window(a, off, (n - 1) as nat);
        let w = a.subrange(off, off + n);
        let w2 = a.subrange(off, off + n - 1);
        lemma_be_prefix(w, w2, (n - 1) as nat);
    }
}

proof fn lemma_be_prefix(w: Seq<u8>, w2: Seq<u8>, n: nat)
    requires
        n <= w2.len(),
        w2.len() <= w.len(),
        forall|i: int| 0 <= i < w2.len() ==> w[i] == w2[i],
    ensures
        be(w, 0, n) == be(w2, 0, n),
    decreases n,
{
    if n > 0 {
        lemma_be_prefix(w, w2, (n - 1) as nat);
    }
}

/// Appends the sixteen bytes of a UUID.
fn push_uuid(out: &mut Vec<u8>, u: &[u8; 16])
    ensures
        final(out)@ == old(out)@ + u@,
{
    let mut k: usize = 0;
    while k < 16
        invariant
            k <= 16,
            u@.len() == 16,
            out@ == old(out)@ + u@.subrange(0, k as int),
        decreases 16 - k,
    {
        out.push(u[k]);
        proof {
            assert(u@.subrange(0, k + 1) =~= u@.subrange(0, k as int).push(u@[k as int]));
        }
        k += 1;
    }
    assert(u@.subrange(0, 16) =~= u@);
}

/// The database's prefix `b[..4]` holds the version.
pub open spec fn starts_with_version(b: Seq<u8>) -> bool {
    b.len() >= 4 && b.subrange(0, 4) == le_bytes(MEMDB_VERSION as nat, 4)
}

proof fn lemma_prefix_kept(before: Seq<u8>, after: Seq<u8>)
    requires
        starts_with_version(before),
        after.len() >= before.len(),
        forall|i: int| 0 <= i < before.len() ==> after[i] == before[i],
    ensures
        starts_with_version(after),
{
    assert(after.subrange(0, 4) =~= before.subrange(0, 4));
}

/// The eight bytes of a string-slice descriptor: a 40-bit offset, a 23-bit
/// length and a clear compression bit.
pub open spec fn slice_bytes(off: nat, len: nat) -> Seq<u8> {
    le_bytes(off, 5) + le_bytes(len % 0x1_0000, 2) + le_bytes(len / 0x1_0000, 1)
}

/// A descriptor written at `p` reads back as its offset and length.
proof fn lemma_slice_at(s: Seq<u8>, p: int, off: nat, len: nat)
    requires
        0 <= p,
        p + 8 <= s.len(),
        s.subrange(p, p + 8) == slice_bytes(off, len),
        off <= MAX_SLICE_OFFSET,
        len <= MAX_SLICE_LEN,
    ensures
        slice_off(s, p) == off,
        slice_len(s, p) == len,
        !slice_compressed(s, p),
{
    lemma_pow256_facts();
    let pre = s.subrange(0, p);
    let post = s.subrange(p + 8, s.len() as int);
    let lo = len % 0x1_0000;
    let hi = len / 0x1_0000;
    assert(hi < 128);
    assert(s =~= pre + s.subrange(p, p + 8) + post);
    lemma_le_bytes(off, 5, pre, le_bytes(lo, 2) + le_bytes(hi, 1) + post);
    lemma_le_bytes(lo, 2, pre + le_bytes(off, 5), le_bytes(hi, 1) + post);
    lemma_le_bytes(hi, 1, pre + le_bytes(off, 5) + le_bytes(lo, 2), post);
    assert(s =~= pre + le_bytes(off, 5) + (le_bytes(lo, 2) + le_bytes(hi, 1) + post));
    assert(s =~= pre + le_bytes(off, 5) + le_bytes(lo, 2) + (le_bytes(hi, 1) + post));
    assert(s =~= pre + le_bytes(off, 5) + le_bytes(lo, 2) + le_bytes(hi, 1) + post);
    assert(le(s, p + 7, 1) == s[p + 7] as nat + 256 * le(s, p + 8, 0));
    assert(s[p + 7] as nat == hi);
    assert(len == lo + 0x1_0000 * hi);
}

/// Appends a string-slice descriptor for `len` bytes at `off`.
fn push_slice(out: &mut Vec<u8>, off: u64, len: u64) -> (r: Result<(), Error>)
    requires
        starts_with_version(old(out)@),
    ensures
        starts_with_version(final(out)@),
        extends(final(out)@, old(out)@),
        final(out)@.len() >= old(out)@.len(),
        r.is_ok() <==> off <= MAX_SLICE_OFFSET && len <= MAX_SLICE_LEN,
        r.is_ok() ==> final(out)@ == old(out)@ + slice_bytes(off as nat, len as nat),
        r.is_ok() ==> final(out)@.len() == old(out)@.len() + 8,
{
    if off > MAX_SLICE_OFFSET || len > MAX_SLICE_LEN {
        assert(out@.subrange(0, out@.len() as int) =~= out@);
        return Err(Error::TooLarge);
    }
    proof {
        lemma_pow256_facts();
    }
    let ghost before = out@;
    push_le(out, off, 5);
    push_le(out, len % 0x1_0000, 2);
    push_le(out, len / 0x1_0000, 1);
    proof {
        lemma_le_bytes(off as nat, 5, seq![], seq![]);
        lemma_le_bytes((len % 0x1_0000) as nat, 2, seq![], seq![]);
        lemma_le_bytes((len / 0x1_0000) as nat, 1, seq![], seq![]);
        assert(out@ =~= before + slice_bytes(off as nat, len as nat));
        lemma_prefix_kept(before, out@);
        assert(out@.subrange(0, before.len() as int) =~= before);
    }
    Ok(())
}

/// Appends the bytes of `s`.
fn push_str(out: &mut Vec<u8>, s: &str)
    requires
        starts_with_version(old(out)@),
    ensures
        starts_with_version(final(out)@),
        extends(final(out)@, old(out)@),
        final(out)@ == old(out)@ + s.spec_bytes(),
        final(out)@.len() == old(out)@.len() + s.spec_bytes().len(),
{
    let b = s.as_bytes();
    let mut k: usize = 0;
    while k < b.len()
        invariant
            k <= b@.len(),
            b@ == s.spec_bytes(),
            out@ == old(out)@ + b@.subrange(0, k as int),
        decreases b@.len() - k,
    {
        out.push(b[k]);
        proof {
            assert(b@.subrange(0, k + 1) =~= b@.subrange(0, k as int).push(b@[k as int]));
        }
        k += 1;
    }
    proof {
        assert(b@.subrange(0, b@.len() as int) =~= b@);
        lemma_prefix_kept(old(out)@, out@);
        assert(out@.subrange(0, old(out)@.len() as int) =~= old(out)@);
    }
}

/// Appends `n` little-endian bytes of `v`.
fn push_field(out: &mut Vec<u8>, v: u64, n: usize)
    requires
        starts_with_version(old(out)@),
        n <= 8,
        v < crate::schema::pow256(n as nat),
    ensures
        starts_with_version(final(out)@),
        final(out)@ == old(out)@ + le_bytes(v as nat, n as nat),
        extends(final(out)@, old(out)@),
        final(out)@.len() == old(out)@.len() + n,
{
    let ghost before = out@;
    push_le(out, v, n);
    proof {
        lemma_le_bytes(v as nat, n as nat, seq![], seq![]);
        lemma_prefix_kept(before, out@);
        assert(out@.subrange(0, before.len() as int) =~= before);
    }
}

/// The UTF-8 bytes of `s`.
pub open spec fn str_bytes(s: String) -> Seq<u8> {
    vstd::utf8::encode_utf8(s@)
}

/// Bytes of the strings `table[..k]`.
#[verifier::opaque]
pub open spec fn str_before(table: Seq<String>, k: int) -> nat
    decreases k,
{
    if k <= 0 {
        0
    } else {
        str_before(table, k - 1) + str_bytes(table[k - 1]).len()
    }
}

proof fn lemma_str_before_step(table: Seq<String>, k: int)
    requires
        0 <= k,
    ensures
        str_before(table, k + 1) == str_before(table, k) + str_bytes(table[k]).len(),
        str_before(table, 0) == 0,
{
    reveal(str_before);
}

proof fn lemma_str_before_mono(table: Seq<String>, a: int, b: int)
    requires
        0 <= a <= b,
    ensures
        str_before(table, a) <= str_before(table, b),
    decreases b - a,
{
    if a < b {
        lemma_str_before_mono(table, a, b - 1);
        lemma_str_before_step(table, b - 1);
    }
}

/// Byte length of a string table's blob; every string must fit a slice.
fn blob_size(table: &Vec<String>) -> (r: Result<u64, Error>)
    ensures
        r matches Ok(t) ==> t == str_before(table@, table@.len() as int) && forall|k: int|
            0 <= k < table@.len() ==> str_bytes(#[trigger] table@[k]).len() <= MAX_SLICE_LEN,
        r.is_err() ==> r == Err::<u64, Error>(Error::TooLarge),
        strings_fit(table@) && str_before(table@, table@.len() as int) <= u64::MAX ==> r.is_ok(),
{
    let mut total: u64 = 0;
    let mut i: usize = 0;
    proof {
        lemma_str_before_step(table@, 0);
    }
    while i < table.len()
        invariant
            i <= table@.len(),
            total == str_before(table@, i as int),
            forall|k: int| 0 <= k < i ==> str_bytes(#[trigger] table@[k]).len() <= MAX_SLICE_LEN,
        decreases table@.len() - i,
    {
        proof {
            lemma_str_before_step(table@, i as int);
            lemma_str_before_mono(table@, i + 1, table@.len() as int);
        }
        let len = table[i].as_str().as_bytes().len() as u64;
        if len > MAX_SLICE_LEN {
            return Err(Error::TooLarge);
        }
        total = match add_size(total, len) {
            Ok(v) => v,
            Err(_) => {
                return Err(Error::TooLarge);
            },
        };
        i += 1;
    }
    Ok(total)
}

/// Every string of a table fits a slice's length field.
pub open spec fn strings_fit(table: Seq<String>) -> bool {
    forall|k: int| 0 <= k < table.len() ==> str_bytes(#[trigger] table[k]).len() <= MAX_SLICE_LEN
}

/// Bytes of the tagged names of `images[..k]`, each with its terminator.
#[verifier::opaque]
pub open spec fn tags_before(images: Seq<ImageIndex>, k: int) -> nat
    decreases k,
{
    if k <= 0 {
        0
    } else {
        tags_before(images, k - 1) + str_bytes(images[k - 1].tag).len() + 1
    }
}

proof fn lemma_tags_before_step(images: Seq<ImageIndex>, k: int)
    requires
        0 <= k,
    ensures
        tags_before(images, k + 1) == tags_before(images, k) + str_bytes(images[k].tag).len() + 1,
        tags_before(images, 0) == 0,
{
    reveal(tags_before);
}

proof fn lemma_tags_before_mono(images: Seq<ImageIndex>, a: int, b: int)
    requires
        0 <= a <= b,
    ensures
        tags_before(images, a) <= tags_before(images, b),
    decreases b - a,
{
    if a < b {
        lemma_tags_before_mono(images, a, b - 1);
        lemma_tags_before_step(images, b - 1);
    }
}

/// Appends the descriptors of a string table whose blob starts at `blob`,
/// right after them, then the blob.
#[verifier::rlimit(60)]
fn push_table(out: &mut Vec<u8>, table: &Vec<String>, blob: u64)
    requires
        starts_with_version(old(out)@),
        blob == old(out)@.len() + 8 * table@.len(),
        blob + str_before(table@, table@.len() as int) <= MAX_SLICE_OFFSET,
        forall|k: int| 0 <= k < table@.len() ==> str_bytes(#[trigger] table@[k]).len() <= MAX_SLICE_LEN,
    ensures
        starts_with_version(final(out)@),
        extends(final(out)@, old(out)@),
        final(out)@.len() == blob + str_before(table@, table@.len() as int),
        forall|k: int|
            0 <= k < table@.len() ==> final(out)@.subrange(
                old(out)@.len() + 8 * k,
                old(out)@.len() + 8 * k + 8,
            ) == slice_bytes(
                (blob + str_before(table@, k)) as nat,
                str_bytes(#[trigger] table@[k]).len(),
            ),
        forall|k: int|
            0 <= k < table@.len() ==> final(out)@.subrange(
                blob + str_before(table@, k),
                blob + str_before(table@, k) + str_bytes(table@[k]).len(),
            ) == str_bytes(#[trigger] table@[k]),
{
    let ghost base = out@;
    proof {
        assert(out@.subrange(0, out@.len() as int) =~= out@);
        lemma_str_before_step(table@, 0);
    }
    let mut off = blob;
    let mut i: usize = 0;
    while i < table.len()
        invariant
            i <= table@.len(),
            base == old(out)@,
            blob == base.len() + 8 * table@.len(),
            blob + str_before(table@, table@.len() as int) <= MAX_SLICE_OFFSET,
            forall|k: int| 0 <= k < table@.len() ==> str_bytes(#[trigger] table@[k]).len() <= MAX_SLICE_LEN,
            starts_with_version(out@),
            extends(out@, base),
            out@.len() == base.len() + 8 * i,
            off == blob + str_before(table@, i as int),
            forall|k: int|
                0 <= k < i ==> out@.subrange(base.len() + 8 * k, base.len() + 8 * k + 8)
                    == slice_bytes(
                    (blob + str_before(table@, k)) as nat,
                    str_bytes(#[trigger] table@[k]).len(),
                ),
        decreases table@.len() - i,
    {
        proof {
            lemma_str_before_step(table@, i as int);
            lemma_str_before_mono(table@, i + 1, table@.len() as int);
        }
        let len = table[i].as_str().as_bytes().len() as u64;
        let ghost before = out@;
        let res = push_slice(out, off, len);
        proof {
            assert(res.is_ok());
            lemma_extends_trans(out@, before, base);
            assert forall|k: int| 0 <= k < i + 1 implies out@.subrange(
                base.len() + 8 * k,
                base.len() + 8 * k + 8,
            ) == slice_bytes(
                (blob + str_before(table@, k)) as nat,
                str_bytes(#[trigger] table@[k]).len(),
            ) by {
                if k < i {
                    assert(out@.subrange(0, before.len() as int) =~= before);
                    lemma_extends_window(out@, before, base.len() + 8 * k, base.len() + 8 * k + 8);
                } else {
                    assert(out@.subrange(base.len() + 8 * k, base.len() + 8 * k + 8) =~= slice_bytes(
                        off as nat,
                        len as nat,
                    ));
                }
            }
        }
        off = off + len;
        i += 1;
    }
    let ghost descs = out@;
    proof {
        assert(out@.subrange(0, out@.len() as int) =~= out@);
    }
    let mut i: usize = 0;
    while i < table.len()
        invariant
            i <= table@.len(),
            base == old(out)@,
            blob == base.len() + 8 * table@.len(),
            descs.len() == blob,
            starts_with_version(out@),
            extends(out@, descs),
            extends(descs, base),
            out@.len() == blob + str_before(table@, i as int),
            forall|k: int|
                0 <= k < i ==> out@.subrange(
                    blob + str_before(table@, k),
                    blob + str_before(table@, k) + str_bytes(table@[k]).len(),
                ) == str_bytes(#[trigger] table@[k]),
        decreases table@.len() - i,
    {
        proof {
            lemma_str_before_step(table@, i as int);
        }
        let ghost before = out@;
        push_str(out, table[i].as_str());
        proof {
            assert(out@ == before + str_bytes(table@[i as int]));
            lemma_extends_trans(out@, before, descs);
            assert forall|k: int| 0 <= k < i + 1 implies out@.subrange(
                blob + str_before(table@, k),
                blob + str_before(table@, k) + str_bytes(table@[k]).len(),
            ) == str_bytes(#[trigger] table@[k]) by {
                if k < i {
                    lemma_str_before_mono(table@, k + 1, i as int);
                    lemma_str_before_step(table@, k);
                    assert(out@.subrange(0, before.len() as int) =~= before);
                    lemma_extends_window(
                        out@,
                        before,
                        blob + str_before(table@, k),
                        blob + str_before(table@, k) + str_bytes(table@[k]).len(),
                    );
                } else {
                    assert(out@.subrange(
                        blob + str_before(table@, k),
                        blob + str_before(table@, k) + str_bytes(table@[k]).len(),
                    ) =~= str_bytes(table@[k]));
                }
            }
        }
        i += 1;
    }
    proof {
        lemma_extends_trans(out@, descs, base);
        assert forall|k: int| 0 <= k < table@.len() implies out@.subrange(
            base.len() + 8 * k,
            base.len() + 8 * k + 8,
        ) == slice_bytes(
            (blob + str_before(table@, k)) as nat,
            str_bytes(#[trigger] table@[k]).len(),
        ) by {
            lemma_extends_window(out@, descs, base.len() + 8 * k, base.len() + 8 * k + 8);
        }
    }
}

/// The index items of every image fit the descriptors' offset and length
/// fields when they start at `items_start`.
pub open spec fn descriptors_fit(images: Seq<ImageIndex>, items_start: nat) -> bool {
    &&& items_start + 11 * items_before(images, images.len() as int) <= MAX_SLICE_OFFSET
    &&& forall|k: int| 0 <= k < images.len() ==> 11 * (#[trigger] images[k]).items@.len() <= MAX_SLICE_LEN
}

/// Appends one (offset, length) descriptor per image for its index items,
/// which will start at `items_start` in image order.
fn write_descriptors(out: &mut Vec<u8>, images: &Vec<ImageIndex>, items_start: u64) -> (r: Result<
    (),
    Error,
>)
    requires
        starts_with_version(old(out)@),
    ensures
        starts_with_version(final(out)@),
        extends(final(out)@, old(out)@),
        r.is_ok() ==> final(out)@.len() == old(out)@.len() + 8 * images@.len(),
        r.is_ok() ==> forall|k: int|
            0 <= k < images@.len() ==> final(out)@.subrange(
                old(out)@.len() + 8 * k,
                old(out)@.len() + 8 * k + 8,
            ) == slice_bytes(
                (items_start + 11 * items_before(images@, k)) as nat,
                (11 * (#[trigger] images@[k]).items@.len()) as nat,
            ),
        r.is_err() ==> r == Err::<(), Error>(Error::TooLarge),
        descriptors_fit(images@, items_start as nat) ==> r.is_ok(),
{
    let ghost fit = descriptors_fit(images@, items_start as nat);
    let ghost base = out@;
    assert(out@.subrange(0, out@.len() as int) =~= out@);
    proof {
        lemma_items_before_step(images@, 0);
    }
    let mut off = items_start;
    let mut i: usize = 0;
    while i < images.len()
        invariant
            i <= images@.len(),
            base == old(out)@,
            starts_with_version(out@),
            extends(out@, base),
            out@.len() == base.len() + 8 * i,
            off == items_start + 11 * items_before(images@, i as int),
            fit == descriptors_fit(images@, items_start as nat),
            forall|k: int|
                0 <= k < i ==> out@.subrange(base.len() + 8 * k, base.len() + 8 * k + 8)
                    == slice_bytes(
                    (items_start + 11 * items_before(images@, k)) as nat,
                    (11 * (#[trigger] images@[k]).items@.len()) as nat,
                ),
        decreases images@.len() - i,
    {
        proof {
            lemma_items_before_step(images@, i as int);
            lemma_items_before_mono(images@, i + 1, images@.len() as int);
            if fit {
                assert(11 * images@[i as int].items@.len() <= MAX_SLICE_LEN);
            }
        }
        let cnt = images[i].items.len() as u64;
        if cnt > 0x0fff_ffff_ffff {
            return Err(Error::TooLarge);
        }
        let ghost before = out@;
        let res = push_slice(out, off, 11 * cnt);
        proof {
            lemma_extends_trans(out@, before, base);
        }
        if res.is_err() {
            return Err(Error::TooLarge);
        }
        proof {
            assert forall|k: int| 0 <= k < i + 1 implies out@.subrange(
                base.len() + 8 * k,
                base.len() + 8 * k + 8,
            ) == slice_bytes(
                (items_start + 11 * items_before(images@, k)) as nat,
                (11 * (#[trigger] images@[k]).items@.len()) as nat,
            ) by {
                if k < i {
                    assert(out@.subrange(0, before.len() as int) =~= before);
                    lemma_extends_window(out@, before, base.len() + 8 * k, base.len() + 8 * k + 8);
                } else {
                    assert(out@.subrange(base.len() + 8 * k, base.len() + 8 * k + 8) =~= slice_bytes(
                        off as nat,
                        (11 * cnt) as nat,
                    ));
                }
            }
        }
        proof {
            lemma_items_before_step(images@, i as int);
        }
        off = match add_size(off, 11 * cnt) {
            Ok(v) => v,
            Err(_) => {
                return Err(Error::TooLarge);
            },
        };
        i += 1;
    }
    Ok(())
}

/// Item `it` is packed at `pos` in `s`.
pub open spec fn item_written(s: Seq<u8>, pos: int, it: IndexItem) -> bool {
    &&& le(s, pos, 5) == it.addr
    &&& le(s, pos + 5, 3) == it.sym_id
    &&& le(s, pos + 8, 3) == it.src_id
}

proof fn lemma_item_written_extends(a: Seq<u8>, b: Seq<u8>, pos: int, it: IndexItem)
    requires
        extends(a, b),
        0 <= pos,
        pos + 11 <= b.len(),
        item_written(b, pos, it),
    ensures
        item_written(a, pos, it),
{
    lemma_le_extends(a, b, pos, 5);
    lemma_le_extends(a, b, pos + 5, 3);
    lemma_le_extends(a, b, pos + 8, 3);
}

/// Appends the packed index items of every image, in image order.
fn write_items(out: &mut Vec<u8>, images: &Vec<ImageIndex>)
    requires
        starts_with_version(old(out)@),
        images_valid(images@, (MAX_ID + 1) as nat, (MAX_ID + 1) as nat),
    ensures
        starts_with_version(final(out)@),
        extends(final(out)@, old(out)@),
        final(out)@.len() == old(out)@.len() + 11 * items_before(images@, images@.len() as int),
        forall|k: int, j: int|
            0 <= k < images@.len() && 0 <= j < images@[k].items@.len() ==> #[trigger] item_written(
                final(out)@,
                old(out)@.len() + 11 * (items_before(images@, k) + j),
                images@[k].items@[j],
            ),
{
    let ghost base = out@;
    assert(out@.subrange(0, out@.len() as int) =~= out@);
    proof {
        lemma_items_before_step(images@, 0);
    }
    let mut i: usize = 0;
    while i < images.len()
        invariant
            images_valid(images@, (MAX_ID + 1) as nat, (MAX_ID + 1) as nat),
            i <= images@.len(),
            base == old(out)@,
            starts_with_version(out@),
            extends(out@, base),
            out@.len() == base.len() + 11 * items_before(images@, i as int),
            forall|k: int, j: int|
                0 <= k < i && 0 <= j < images@[k].items@.len() ==> #[trigger] item_written(
                    out@,
                    base.len() + 11 * (items_before(images@, k) + j),
                    images@[k].items@[j],
                ),
        decreases images@.len() - i,
    {
        proof {
            lemma_pow256_facts();
        }
        let items = &images[i].items;
        let ghost start_i = out@;
        assert(out@.subrange(0, out@.len() as int) =~= out@);
        let mut j: usize = 0;
        while j < items.len()
            invariant
                images_valid(images@, (MAX_ID + 1) as nat, (MAX_ID + 1) as nat),
                i < images@.len(),
                items == &images@[i as int].items,
                j <= items@.len(),
                starts_with_version(out@),
                extends(out@, start_i),
                out@.len() == start_i.len() + 11 * j,
                forall|m: int|
                    0 <= m < j ==> #[trigger] item_written(out@, start_i.len() + 11 * m, items@[m]),
                crate::schema::pow256(5) == 0x100_0000_0000,
                crate::schema::pow256(3) == 0x100_0000,
            decreases items@.len() - j,
        {
            let it = items[j];
            proof {
                assert(images@[i as int].items@[j as int].addr <= MAX_ADDR);
            }
            let ghost before = out@;
            push_field(out, it.addr, 5);
            let ghost a1 = out@;
            push_field(out, it.sym_id, 3);
            let ghost a2 = out@;
            push_field(out, it.src_id, 3);
            proof {
                assert(out@.subrange(0, before.len() as int) =~= before);
                lemma_extends_trans(out@, before, start_i);
                let e1 = le_bytes(it.addr as nat, 5);
                let e2 = le_bytes(it.sym_id as nat, 3);
                let e3 = le_bytes(it.src_id as nat, 3);
                lemma_le_bytes(it.addr as nat, 5, before, e2 + e3);
                lemma_le_bytes(it.sym_id as nat, 3, before + e1, e3);
                lemma_le_bytes(it.src_id as nat, 3, before + e1 + e2, seq![]);
                assert(out@ =~= before + e1 + (e2 + e3));
                assert(out@ =~= before + e1 + e2 + e3);
                assert(out@ =~= before + e1 + e2 + e3 + seq![]);
                assert(item_written(out@, before.len() as int, it));
                assert forall|m: int| 0 <= m < j + 1 implies #[trigger] item_written(
                    out@,
                    start_i.len() + 11 * m,
                    items@[m],
                ) by {
                    if m < j {
                        lemma_item_written_extends(out@, before, start_i.len() + 11 * m, items@[m]);
                    }
                }
            }
            j += 1;
        }
        proof {
            lemma_items_before_step(images@, i as int);
            lemma_extends_trans(out@, start_i, base);
            assert forall|k: int, j: int|
                0 <= k < i + 1 && 0 <= j < images@[k].items@.len() implies #[trigger] item_written(
                    out@,
                    base.len() + 11 * (items_before(images@, k) + j),
                    images@[k].items@[j],
                ) by {
                if k < i {
                    lemma_items_before_mono(images@, k + 1, i as int);
                    lemma_items_before_step(images@, k);
                    lemma_item_written_extends(
                        out@,
                        start_i,
                        base.len() + 11 * (items_before(images@, k) + j),
                        images@[k].items@[j],
                    );
                } else {
                    assert(base.len() + 11 * (items_before(images@, k) + j) == start_i.len() + 11 * j);
                }
            }
        }
        i += 1;
    }
}

proof fn lemma_written_variant(
    images: Seq<ImageIndex>,
    b: Seq<u8>,
    table: Seq<u8>,
    desc: Seq<u8>,
    k: int,
    variants_start: nat,
    items_start: nat,
    total: nat,
)
    requires
        0 <= k < images.len(),
        extends(b, table),
        extends(b, desc),
        uuids_start(b) == HEADER_SIZE,
        le(b, 48, 8) == variants_start,
        le(b, 56, 8) == images.len(),
        table.len() == HEADER_SIZE + 20 * images.len(),
        variants_start == table.len(),
        items_start == variants_start + 8 * images.len(),
        desc.len() == items_start,
        total == items_before(images, images.len() as int),
        items_start + 11 * total <= b.len(),
        le(table, HEADER_SIZE + 20 * k + 16, 4) == k,
        desc.subrange(table.len() + 8 * k, table.len() + 8 * k + 8) == slice_bytes(
            (items_start + 11 * items_before(images, k)) as nat,
            (11 * images[k].items@.len()) as nat,
        ),
        items_start + 11 * items_before(images, k) <= MAX_SLICE_OFFSET,
        11 * images[k].items@.len() <= MAX_SLICE_LEN,
    ensures
        variant_items(b, k) == Some(
            ((items_start + 11 * items_before(images, k)) as nat, images[k].items@.len()),
        ),
{
    let n = images.len();
    let len_k = images[k].items@.len();
    let off_k = (items_start + 11 * items_before(images, k)) as nat;
    lemma_le_extends(b, table, HEADER_SIZE + 20 * k + 16, 4);
    let p = variants_start + 8 * k;
    lemma_extends_window(b, desc, p, p + 8);
    lemma_items_before_mono(images, k + 1, n as int);
    lemma_items_before_step(images, k);
    lemma_slice_at(b, p, off_k, (11 * len_k) as nat);
    assert((11 * len_k) / 11 == len_k);
}

proof fn lemma_written_items(
    images: Seq<ImageIndex>,
    b: Seq<u8>,
    itemsec: Seq<u8>,
    k: int,
    items_start: nat,
)
    requires
        0 <= k < images.len(),
        extends(b, itemsec),
        itemsec.len() == items_start + 11 * items_before(images, images.len() as int),
        items_ascending(images[k].items@),
        forall|j: int|
            0 <= j < images[k].items@.len() ==> #[trigger] le(
                itemsec,
                items_start + 11 * (items_before(images, k) + j),
                5,
            ) == images[k].items@[j].addr,
    ensures
        items_sorted(
            b,
            (items_start + 11 * items_before(images, k)) as nat,
            images[k].items@.len(),
        ),
        forall|x: int|
            0 <= x < images[k].items@.len() ==> #[trigger] item_addr(
                b,
                (items_start + 11 * items_before(images, k)) as nat,
                x,
            ) == images[k].items@[x].addr,
{
    let len_k = images[k].items@.len();
    let off_k = (items_start + 11 * items_before(images, k)) as nat;
    lemma_items_before_mono(images, k + 1, images.len() as int);
    lemma_items_before_step(images, k);
    let items = images[k].items@;
    assert forall|x: int, y: int| 0 <= x < y < len_k implies #[trigger] item_addr(b, off_k, x)
        < #[trigger] item_addr(b, off_k, y) by {
        lemma_le_extends(b, itemsec, off_k + 11 * x, 5);
        lemma_le_extends(b, itemsec, off_k + 11 * y, 5);
        assert(le(itemsec, items_start + 11 * (items_before(images, k) + x), 5) == items[x].addr);
        assert(le(itemsec, items_start + 11 * (items_before(images, k) + y), 5) == items[y].addr);
    }
    assert forall|x: int| 0 <= x < len_k implies #[trigger] item_addr(b, off_k, x)
        == images[k].items@[x].addr by {
        lemma_le_extends(b, itemsec, off_k + 11 * x, 5);
        assert(le(itemsec, items_start + 11 * (items_before(images, k) + x), 5) == items[x].addr);
    }
}

/// UUID entry `k` of `b` indexes exactly `items`, in order.
pub open spec fn index_written(b: Seq<u8>, items: Seq<IndexItem>, k: int) -> bool {
    variant_items(b, k) matches Some((off, cnt)) && cnt == items.len() && forall|j: int|
        0 <= j < cnt ==> #[trigger] item_addr(b, off, j) == items[j].addr
}

/// Every index-item array of a written file is ascending.
proof fn lemma_written_all(
    images: Seq<ImageIndex>,
    b: Seq<u8>,
    table: Seq<u8>,
    desc: Seq<u8>,
    itemsec: Seq<u8>,
    variants_start: nat,
    items_start: nat,
    total: nat,
)
    requires
        forall|k: int| 0 <= k < images.len() ==> items_ascending(#[trigger] images[k].items@),
        extends(b, table),
        extends(b, desc),
        extends(b, itemsec),
        uuids_start(b) == HEADER_SIZE,
        uuids_count(b) == images.len(),
        le(b, 48, 8) == variants_start,
        le(b, 56, 8) == images.len(),
        table.len() == HEADER_SIZE + 20 * images.len(),
        variants_start == table.len(),
        items_start == variants_start + 8 * images.len(),
        desc.len() == items_start,
        total == items_before(images, images.len() as int),
        itemsec.len() == items_start + 11 * total,
        forall|k: int| 0 <= k < images.len() ==> #[trigger] le(table, HEADER_SIZE + 20 * k + 16, 4) == k,
        forall|k: int|
            0 <= k < images.len() ==> desc.subrange(table.len() + 8 * k, table.len() + 8 * k + 8)
                == slice_bytes(
                (items_start + 11 * items_before(images, k)) as nat,
                (11 * (#[trigger] images[k]).items@.len()) as nat,
            ),
        items_start + 11 * total <= MAX_SLICE_OFFSET,
        forall|k: int| 0 <= k < images.len() ==> 11 * (#[trigger] images[k]).items@.len() <= MAX_SLICE_LEN,
        forall|k: int, j: int|
            0 <= k < images.len() && 0 <= j < images[k].items@.len() ==> #[trigger] item_written(
                itemsec,
                items_start + 11 * (items_before(images, k) + j),
                images[k].items@[j],
            ),
    ensures
        all_items_sorted(b),
        forall|k: int| 0 <= k < images.len() ==> index_written(b, #[trigger] images[k].items@, k),
{
    assert forall|k: int| 0 <= k < images.len() implies index_written(
        b,
        #[trigger] images[k].items@,
        k,
    ) by {
        assert(le(table, HEADER_SIZE + 20 * k + 16, 4) == k);
        assert(items_ascending(images[k].items@));
        lemma_items_before_mono(images, k + 1, images.len() as int);
        lemma_items_before_mono(images, k, k + 1);
        assert(11 * images[k].items@.len() <= MAX_SLICE_LEN);
        lemma_written_variant(images, b, table, desc, k, variants_start, items_start, total);
        assert forall|j: int| 0 <= j < images[k].items@.len() implies #[trigger] le(
            itemsec,
            items_start + 11 * (items_before(images, k) + j),
            5,
        ) == images[k].items@[j].addr by {
            assert(item_written(
                itemsec,
                items_start + 11 * (items_before(images, k) + j),
                images[k].items@[j],
            ));
        }
        lemma_written_items(images, b, itemsec, k, items_start);
    }
    assert forall|k: int|
        0 <= k < uuids_count(b) && (#[trigger] variant_items(b, k)).is_some() implies items_sorted(
        b,
        variant_items(b, k).unwrap().0,
        variant_items(b, k).unwrap().1,
    ) by {
        assert(le(table, HEADER_SIZE + 20 * k + 16, 4) == k);
        assert(items_ascending(images[k].items@));
        lemma_items_before_mono(images, k + 1, images.len() as int);
        lemma_items_before_mono(images, k, k + 1);
        assert(11 * images[k].items@.len() <= MAX_SLICE_LEN);
        lemma_written_variant(images, b, table, desc, k, variants_start, items_start, total);
        assert forall|j: int| 0 <= j < images[k].items@.len() implies #[trigger] le(
            itemsec,
            items_start + 11 * (items_before(images, k) + j),
            5,
        ) == images[k].items@[j].addr by {
            assert(item_written(
                itemsec,
                items_start + 11 * (items_before(images, k) + j),
                images[k].items@[j],
            ));
        }
        lemma_written_items(images, b, itemsec, k, items_start);
    }
}

/// Entry `id` of a string table that `push_table` wrote at `tstart` reads
/// back as the string.
proof fn lemma_written_string(
    b: Seq<u8>,
    sec: Seq<u8>,
    tstart: nat,
    table: Seq<String>,
    id: int,
    field_at: usize,
)
    requires
        0 <= id < table.len(),
        field_at <= 96,
        extends(b, sec),
        le(b, field_at as int, 8) == tstart,
        le(b, field_at + 8, 8) == table.len(),
        tstart + 8 * table.len() + str_before(table, table.len() as int) <= sec.len(),
        tstart + 8 * table.len() + str_before(table, table.len() as int) <= MAX_SLICE_OFFSET,
        str_bytes(table[id]).len() <= MAX_SLICE_LEN,
        sec.subrange(tstart + 8 * id, tstart + 8 * id + 8) == slice_bytes(
            (tstart + 8 * table.len() + str_before(table, id)) as nat,
            str_bytes(table[id]).len(),
        ),
        sec.subrange(
            (tstart + 8 * table.len() + str_before(table, id)) as int,
            (tstart + 8 * table.len() + str_before(table, id) + str_bytes(table[id]).len()) as int,
        ) == str_bytes(table[id]),
    ensures
        table_string(b, field(b, field_at), field(b, (field_at + 8) as usize), id as nat) == Some(
            table[id]@,
        ),
{
    let n = table.len();
    let blob = tstart + 8 * n;
    let p = tstart + 8 * id;
    let len = str_bytes(table[id]).len();
    lemma_str_before_mono(table, id + 1, n as int);
    lemma_str_before_step(table, id);
    lemma_extends_window(b, sec, p, p + 8);
    let off = (blob + str_before(table, id)) as nat;
    lemma_slice_at(b, p, off, len);
    lemma_extends_window(b, sec, off as int, (off + len) as int);
    vstd::utf8::encode_utf8_valid_utf8(table[id]@);
    vstd::utf8::encode_utf8_decode_utf8(table[id]@);
    assert(b.subrange(off as int, (off + len) as int) == str_bytes(table[id]));
    assert(string_at(b, p) == Some(table[id]@));
    assert(range_ok(b, tstart, n, 8));
}

/// In a written file, every item of every image is found by its image's
/// UUID and its address, with its object name and symbol.
proof fn lemma_written_lookup(
    images: Seq<ImageIndex>,
    symbols: Seq<String>,
    names: Seq<String>,
    b: Seq<u8>,
    itemsec: Seq<u8>,
    symsec: Seq<u8>,
    namesec: Seq<u8>,
    k: int,
    j: int,
    off_k: nat,
    items_start: nat,
    symbols_start: nat,
    names_start: nat,
)
    requires
        0 <= k < images.len(),
        0 <= j < images[k].items@.len(),
        images_valid(images, symbols.len(), names.len()),
        uuid_table_ok(b),
        uuids_sorted(b),
        uuids_count(b) == images.len(),
        uuid_key_at(b, k) == key_of(images[k].uuid),
        variant_items(b, k) == Some((off_k, images[k].items@.len())),
        items_sorted(b, off_k, images[k].items@.len()),
        off_k == items_start + 11 * items_before(images, k),
        extends(b, itemsec),
        extends(b, symsec),
        extends(b, namesec),
        item_written(
            itemsec,
            items_start + 11 * (items_before(images, k) + j),
            images[k].items@[j],
        ),
        items_start + 11 * (items_before(images, k) + j) + 11 <= itemsec.len(),
        le(b, 64, 8) == symbols_start,
        le(b, 72, 8) == symbols.len(),
        le(b, 80, 8) == names_start,
        le(b, 88, 8) == names.len(),
        symbols_start + 8 * symbols.len() + str_before(symbols, symbols.len() as int) <= symsec.len(),
        symbols_start + 8 * symbols.len() + str_before(symbols, symbols.len() as int)
            <= MAX_SLICE_OFFSET,
        names_start + 8 * names.len() + str_before(names, names.len() as int) <= namesec.len(),
        names_start + 8 * names.len() + str_before(names, names.len() as int) <= MAX_SLICE_OFFSET,
        forall|x: int| 0 <= x < symbols.len() ==> str_bytes(#[trigger] symbols[x]).len() <= MAX_SLICE_LEN,
        forall|x: int| 0 <= x < names.len() ==> str_bytes(#[trigger] names[x]).len() <= MAX_SLICE_LEN,
        forall|x: int|
            0 <= x < symbols.len() ==> symsec.subrange(
                symbols_start + 8 * x,
                symbols_start + 8 * x + 8,
            ) == slice_bytes(
                (symbols_start + 8 * symbols.len() + str_before(symbols, x)) as nat,
                str_bytes(#[trigger] symbols[x]).len(),
            ),
        forall|x: int|
            0 <= x < symbols.len() ==> symsec.subrange(
                (symbols_start + 8 * symbols.len() + str_before(symbols, x)) as int,
                (symbols_start + 8 * symbols.len() + str_before(symbols, x) + str_bytes(
                    symbols[x],
                ).len()) as int,
            ) == str_bytes(#[trigger] symbols[x]),
        forall|x: int|
            0 <= x < names.len() ==> namesec.subrange(names_start + 8 * x, names_start + 8 * x + 8)
                == slice_bytes(
                (names_start + 8 * names.len() + str_before(names, x)) as nat,
                str_bytes(#[trigger] names[x]).len(),
            ),
        forall|x: int|
            0 <= x < names.len() ==> namesec.subrange(
                (names_start + 8 * names.len() + str_before(names, x)) as int,
                (names_start + 8 * names.len() + str_before(names, x) + str_bytes(names[x]).len())
                    as int,
            ) == str_bytes(#[trigger] names[x]),
    ensures
        lookup_spec(b, key_of(images[k].uuid), images[k].items@[j].addr as nat) == Ok::<
            Option<(Seq<char>, Seq<char>)>,
            (),
        >(
            Some(
                (
                    names[images[k].items@[j].src_id as int]@,
                    symbols[images[k].items@[j].sym_id as int]@,
                ),
            ),
        ),
{
    let key = key_of(images[k].uuid);
    let it = images[k].items@[j];
    // the UUID is found at its own place
    assert(0 <= k < uuids_count(b) && uuid_key_at(b, k) == key);
    let c = choose|i: int| 0 <= i < uuids_count(b) && uuid_key_at(b, i) == key;
    if c < k {
        assert(uuid_key_at(b, c) < uuid_key_at(b, k));
    } else if c > k {
        assert(uuid_key_at(b, k) < uuid_key_at(b, c));
    }
    assert(uuid_pos(b, key) == Some(k));
    // the item is found at its own place
    let pos = items_start + 11 * (items_before(images, k) + j);
    lemma_item_written_extends(b, itemsec, pos, it);
    assert(off_k + 11 * j == pos);
    assert(item_addr(b, off_k, j) == it.addr);
    let len_k = images[k].items@.len();
    assert(0 <= j < len_k && item_addr(b, off_k, j) == it.addr as nat);
    let d = choose|x: int| 0 <= x < len_k && item_addr(b, off_k, x) == it.addr as nat;
    if d < j {
        assert(item_addr(b, off_k, d) < item_addr(b, off_k, j));
    } else if d > j {
        assert(item_addr(b, off_k, j) < item_addr(b, off_k, d));
    }
    assert(addr_pos(b, off_k, len_k, it.addr as nat) == Some(j));
    // its strings
    assert(item_src(b, off_k, j) == it.src_id);
    assert(item_sym(b, off_k, j) == it.sym_id);
    assert(it.sym_id < symbols.len() && it.src_id < names.len());
    lemma_written_string(b, symsec, symbols_start, symbols, it.sym_id as int, H_SYMBOLS_START);
    lemma_written_string(b, namesec, names_start, names, it.src_id as int, H_NAMES_START);
}

/// Every item of a written file is found by its image's UUID and its
/// address, with its object name and symbol.
proof fn lemma_written_all_lookups(
    images: Seq<ImageIndex>,
    symbols: Seq<String>,
    names: Seq<String>,
    b: Seq<u8>,
    table: Seq<u8>,
    desc: Seq<u8>,
    itemsec: Seq<u8>,
    symsec: Seq<u8>,
    namesec: Seq<u8>,
    variants_start: nat,
    items_start: nat,
    total: nat,
    symbols_start: nat,
    names_start: nat,
)
    requires
        forall|k: int| 0 <= k < images.len() ==> items_ascending(#[trigger] images[k].items@),
        extends(b, table),
        extends(b, desc),
        extends(b, itemsec),
        uuids_start(b) == HEADER_SIZE,
        uuids_count(b) == images.len(),
        le(b, 48, 8) == variants_start,
        le(b, 56, 8) == images.len(),
        table.len() == HEADER_SIZE + 20 * images.len(),
        variants_start == table.len(),
        items_start == variants_start + 8 * images.len(),
        desc.len() == items_start,
        total == items_before(images, images.len() as int),
        itemsec.len() == items_start + 11 * total,
        forall|k: int| 0 <= k < images.len() ==> #[trigger] le(table, HEADER_SIZE + 20 * k + 16, 4) == k,
        forall|k: int|
            0 <= k < images.len() ==> desc.subrange(table.len() + 8 * k, table.len() + 8 * k + 8)
                == slice_bytes(
                (items_start + 11 * items_before(images, k)) as nat,
                (11 * (#[trigger] images[k]).items@.len()) as nat,
            ),
        items_start + 11 * total <= MAX_SLICE_OFFSET,
        forall|k: int| 0 <= k < images.len() ==> 11 * (#[trigger] images[k]).items@.len() <= MAX_SLICE_LEN,
        forall|k: int, j: int|
            0 <= k < images.len() && 0 <= j < images[k].items@.len() ==> #[trigger] item_written(
                itemsec,
                items_start + 11 * (items_before(images, k) + j),
                images[k].items@[j],
            ),
        images_valid(images, symbols.len(), names.len()),
        uuid_table_ok(b),
        uuids_sorted(b),
        forall|k: int| 0 <= k < images.len() ==> #[trigger] uuid_key_at(b, k) == key_of(images[k].uuid),
        extends(b, symsec),
        extends(b, namesec),
        le(b, 64, 8) == symbols_start,
        le(b, 72, 8) == symbols.len(),
        le(b, 80, 8) == names_start,
        le(b, 88, 8) == names.len(),
        symbols_start + 8 * symbols.len() + str_before(symbols, symbols.len() as int) <= symsec.len(),
        symbols_start + 8 * symbols.len() + str_before(symbols, symbols.len() as int)
            <= MAX_SLICE_OFFSET,
        names_start + 8 * names.len() + str_before(names, names.len() as int) <= namesec.len(),
        names_start + 8 * names.len() + str_before(names, names.len() as int) <= MAX_SLICE_OFFSET,
        forall|x: int| 0 <= x < symbols.len() ==> str_bytes(#[trigger] symbols[x]).len() <= MAX_SLICE_LEN,
        forall|x: int| 0 <= x < names.len() ==> str_bytes(#[trigger] names[x]).len() <= MAX_SLICE_LEN,
        forall|x: int|
            0 <= x < symbols.len() ==> symsec.subrange(
                symbols_start + 8 * x,
                symbols_start + 8 * x + 8,
            ) == slice_bytes(
                (symbols_start + 8 * symbols.len() + str_before(symbols, x)) as nat,
                str_bytes(#[trigger] symbols[x]).len(),
            ),
        forall|x: int|
            0 <= x < symbols.len() ==> symsec.subrange(
                (symbols_start + 8 * symbols.len() + str_before(symbols, x)) as int,
                (symbols_start + 8 * symbols.len() + str_before(symbols, x) + str_bytes(
                    symbols[x],
                ).len()) as int,
            ) == str_bytes(#[trigger] symbols[x]),
        forall|x: int|
            0 <= x < names.len() ==> namesec.subrange(names_start + 8 * x, names_start + 8 * x + 8)
                == slice_bytes(
                (names_start + 8 * names.len() + str_before(names, x)) as nat,
                str_bytes(#[trigger] names[x]).len(),
            ),
        forall|x: int|
            0 <= x < names.len() ==> namesec.subrange(
                (names_start + 8 * names.len() + str_before(names, x)) as int,
                (names_start + 8 * names.len() + str_before(names, x) + str_bytes(names[x]).len())
                    as int,
            ) == str_bytes(#[trigger] names[x]),
    ensures
        forall|k: int, j: int|
            0 <= k < images.len() && 0 <= j < images[k].items@.len() ==> #[trigger] lookup_spec(
                b,
                key_of(images[k].uuid),
                images[k].items@[j].addr as nat,
            ) == Ok::<Option<(Seq<char>, Seq<char>)>, ()>(
                Some(
                    (
                        names[images[k].items@[j].src_id as int]@,
                        symbols[images[k].items@[j].sym_id as int]@,
                    ),
                ),
            ),
{
    assert forall|k: int, j: int|
        0 <= k < images.len() && 0 <= j < images[k].items@.len() implies #[trigger] lookup_spec(
        b,
        key_of(images[k].uuid),
        images[k].items@[j].addr as nat,
    ) == Ok::<Option<(Seq<char>, Seq<char>)>, ()>(
        Some(
            (
                names[images[k].items@[j].src_id as int]@,
                symbols[images[k].items@[j].sym_id as int]@,
            ),
        ),
    ) by {
        assert(le(table, HEADER_SIZE + 20 * k + 16, 4) == k);
        assert(items_ascending(images[k].items@));
        lemma_items_before_mono(images, k + 1, images.len() as int);
        lemma_items_before_step(images, k);
        assert(11 * images[k].items@.len() <= MAX_SLICE_LEN);
        lemma_written_variant(images, b, table, desc, k, variants_start, items_start, total);
        assert forall|x: int| 0 <= x < images[k].items@.len() implies #[trigger] le(
            itemsec,
            items_start + 11 * (items_before(images, k) + x),
            5,
        ) == images[k].items@[x].addr by {
            assert(item_written(
                itemsec,
                items_start + 11 * (items_before(images, k) + x),
                images[k].items@[x],
            ));
        }
        lemma_written_items(images, b, itemsec, k, items_start);
        assert(item_written(
            itemsec,
            items_start + 11 * (items_before(images, k) + j),
            images[k].items@[j],
        ));
        assert(uuid_key_at(b, k) == key_of(images[k].uuid));
        lemma_written_lookup(
            images,
            symbols,
            names,
            b,
            itemsec,
            symsec,
            namesec,
            k,
            j,
            (items_start + 11 * items_before(images, k)) as nat,
            items_start,
            symbols_start,
            names_start,
        );
    }
}

/// No tagged name holds a 0 byte.
pub open spec fn tags_nul_free(images: Seq<ImageIndex>) -> bool {
    forall|k: int, i: int|
        0 <= k < images.len() && 0 <= i < str_bytes(images[k].tag).len() ==> #[trigger] str_bytes(
            images[k].tag,
        )[i] != 0
}

/// Image `m` is the first whose tagged name is `str_bytes(images[m].tag)`.
pub open spec fn first_tag(images: Seq<ImageIndex>, m: int) -> bool {
    forall|k: int| 0 <= k < m ==> str_bytes(#[trigger] images[k].tag) != str_bytes(images[m].tag)
}

proof fn lemma_nul_at(b: Seq<u8>, off: int, len: nat)
    requires
        0 <= off,
        off + len < b.len(),
        forall|i: int| off <= i < off + len ==> b[i] != 0,
        b[off + len] == 0,
    ensures
        nul_from(b, off) == off + len,
    decreases len,
{
    if len > 0 {
        lemma_nul_at(b, off + 1, (len - 1) as nat);
    }
}

/// Scanning the tagged names of a written file from entry `k` finds
/// entry `m`, the first equal to `target`.
proof fn lemma_tag_scan(
    b: Seq<u8>,
    images: Seq<ImageIndex>,
    start: int,
    end: int,
    target: Seq<u8>,
    k: int,
    m: int,
)
    requires
        0 <= start,
        0 <= k <= m < images.len(),
        end == start + tags_before(images, images.len() as int),
        end <= b.len(),
        tags_nul_free(images),
        str_bytes(images[m].tag) == target,
        forall|x: int| k <= x < m ==> str_bytes(#[trigger] images[x].tag) != target,
        forall|x: int|
            0 <= x < images.len() ==> b.subrange(
                start + tags_before(images, x),
                start + tags_before(images, x) + str_bytes(images[x].tag).len(),
            ) == str_bytes(#[trigger] images[x].tag) && b[start + tags_before(images, x)
                + str_bytes(images[x].tag).len()] == 0,
    ensures
        find_tagged(b, start + tags_before(images, k), end, target, k) == Ok::<Option<int>, ()>(
            Some(m),
        ),
    decreases m - k,
{
    let off = start + tags_before(images, k);
    let tag = str_bytes(images[k].tag);
    let len = tag.len();
    lemma_tags_before_step(images, k);
    lemma_tags_before_mono(images, k + 1, images.len() as int);
    assert(b.subrange(off, off + len) == tag);
    assert forall|i: int| off <= i < off + len implies b[i] != 0 by {
        assert(b[i] == b.subrange(off, off + len)[i - off]);
        assert(tag[i - off] != 0);
    }
    lemma_nul_at(b, off, len);
    vstd::utf8::encode_utf8_valid_utf8(images[k].tag@);
    if k < m {
        lemma_tag_scan(b, images, start, end, target, k + 1, m);
    }
}

/// The tagged names of a written file lead to their images.
proof fn lemma_written_tagged(b: Seq<u8>, tsec: Seq<u8>, images: Seq<ImageIndex>, start: int, end: int)
    requires
        0 <= start,
        extends(b, tsec),
        end == start + tags_before(images, images.len() as int),
        end <= tsec.len(),
        forall|x: int|
            0 <= x < images.len() ==> tsec.subrange(
                start + tags_before(images, x),
                start + tags_before(images, x) + str_bytes(images[x].tag).len(),
            ) == str_bytes(#[trigger] images[x].tag) && tsec[start + tags_before(images, x)
                + str_bytes(images[x].tag).len()] == 0,
    ensures
        tags_nul_free(images) ==> forall|m: int|
            0 <= m < images.len() && first_tag(images, m) ==> #[trigger] find_tagged(
                b,
                start,
                end,
                str_bytes(images[m].tag),
                0,
            ) == Ok::<Option<int>, ()>(Some(m)),
{
    assert forall|x: int| 0 <= x < images.len() implies b.subrange(
        start + tags_before(images, x),
        start + tags_before(images, x) + str_bytes(images[x].tag).len(),
    ) == str_bytes(#[trigger] images[x].tag) && b[start + tags_before(images, x) + str_bytes(
        images[x].tag,
    ).len()] == 0 by {
        lemma_tags_before_step(images, x);
        lemma_tags_before_mono(images, x + 1, images.len() as int);
        let o = start + tags_before(images, x);
        let l = str_bytes(images[x].tag).len();
        lemma_extends_window(b, tsec, o, o + l);
        assert(b[o + l] == b.subrange(0, tsec.len() as int)[o + l]);
    }
    if tags_nul_free(images) {
        assert forall|m: int| 0 <= m < images.len() && first_tag(images, m) implies #[trigger] find_tagged(
            b,
            start,
            end,
            str_bytes(images[m].tag),
            0,
        ) == Ok::<Option<int>, ()>(Some(m)) by {
            lemma_tags_before_step(images, 0);
            lemma_tag_scan(b, images, start, end, str_bytes(images[m].tag), 0, m);
        }
    }
}

/// Collects the symbols and images of a bundle, then writes the database.
pub struct Writer {
    info: SdkInfo,
    symbols: Vec<String>,
    object_names: Vec<String>,
    images: Vec<ImageIndex>,
}

/// Returns the id of `s` in `table`, adding it at the end if it is new.
fn intern(table: &mut Vec<String>, s: &str) -> (r: usize)
    ensures
        r < final(table)@.len(),
        final(table)@[r as int]@ == s@,
        forall|i: int| 0 <= i < old(table)@.len() ==> final(table)@[i] == old(table)@[i],
        final(table)@.len() == old(table)@.len() || (final(table)@.len() == old(table)@.len() + 1
            && forall|i: int| 0 <= i < old(table)@.len() ==> old(table)@[i]@ != s@),
        forall|i: int| 0 <= i < old(table)@.len() && old(table)@[i]@ == s@ ==> r <= i,
{
    let mut i: usize = 0;
    while i < table.len()
        invariant
            i <= table@.len(),
            table@ == old(table)@,
            forall|k: int| 0 <= k < i ==> table@[k]@ != s@,
        decreases table@.len() - i,
    {
        if str_eq(table[i].as_str(), s) {
            return i;
        }
        i += 1;
    }
    table.push(s.to_owned());
    table.len() - 1
}

impl Writer {
    pub closed spec fn symbols(&self) -> Seq<String> {
        self.symbols@
    }

    pub closed spec fn object_names(&self) -> Seq<String> {
        self.object_names@
    }

    pub closed spec fn images(&self) -> Seq<ImageIndex> {
        self.images@
    }

    pub closed spec fn spec_info(&self) -> SdkInfo {
        self.info
    }

    /// The tables are consistent: images and items ascending, every id in
    /// bounds of its table and of its packed field.
    pub open spec fn wf(&self) -> bool {
        &&& images_ascending(self.images())
        &&& self.symbols().len() <= MAX_ID + 1
        &&& self.object_names().len() <= MAX_ID + 1
        &&& images_valid(self.images(), self.symbols().len(), self.object_names().len())
    }

    /// The file `b` answers the lookup of every item of every image with
    /// the item's object name and symbol.
    pub open spec fn answered_by(&self, b: Seq<u8>) -> bool {
        forall|k: int, j: int|
            0 <= k < self.images().len() && 0 <= j < self.images()[k].items@.len()
                ==> #[trigger] lookup_spec(
                b,
                key_of(self.images()[k].uuid),
                self.images()[k].items@[j].addr as nat,
            ) == Ok::<Option<(Seq<char>, Seq<char>)>, ()>(
                Some(
                    (
                        self.object_names()[self.images()[k].items@[j].src_id as int]@,
                        self.symbols()[self.images()[k].items@[j].sym_id as int]@,
                    ),
                ),
            )
    }

    /// UUID entry `k` of the file `b` indexes exactly the items of image
    /// `k`: the same count, the same addresses, in order.
    pub open spec fn indexes_written(&self, b: Seq<u8>) -> bool {
        forall|k: int|
            0 <= k < self.images().len() ==> index_written(b, #[trigger] self.images()[k].items@, k)
    }

    /// Where no tagged name holds a 0 byte, scanning the tagged names of
    /// the file `b` for an image's tag finds the first image with that tag.
    pub open spec fn tags_written(&self, b: Seq<u8>) -> bool {
        tags_nul_free(self.images()) ==> forall|m: int|
            0 <= m < self.images().len() && first_tag(self.images(), m) ==> #[trigger] find_tagged(
                b,
                field(b, H_TAGGED_START) as int,
                field(b, H_TAGGED_END) as int,
                str_bytes(self.images()[m].tag),
                0,
            ) == Ok::<Option<int>, ()>(Some(m))
    }

    /// The index of the image with this UUID, if one was added.
    pub open spec fn image_of(&self, u: [u8; 16]) -> Option<ImageIndex> {
        image_in(self.images(), u)
    }

    /// A writer with no images yet.
    pub fn new(info: SdkInfo) -> (r: Writer)
        ensures
            r.wf(),
            r.spec_info() == info,
            r.images().len() == 0,
            r.symbols().len() == 0,
            r.object_names().len() == 0,
    {
        Writer { info, symbols: Vec::new(), object_names: Vec::new(), images: Vec::new() }
    }

    /// The SDK info the database will record.
    pub fn info(&self) -> (r: &SdkInfo)
        ensures
            *r == self.spec_info(),
    {
        &self.info
    }

    /// Number of distinct symbol strings so far.
    pub fn symbol_count(&self) -> (r: usize)
        ensures
            r == self.symbols().len(),
    {
        self.symbols.len()
    }

    /// Number of images so far.
    pub fn image_count(&self) -> (r: usize)
        ensures
            r == self.images().len(),
    {
        self.images.len()
    }
    /// Adds the symbols of one image variant: `(address, name)` pairs in
    /// the order the object reported them. Of several symbols at one
    /// address the first is kept; an image with the same UUID is replaced.
    pub fn add_variant(
        &mut self,
        object_name: &str,
        arch: &str,
        uuid: &[u8; 16],
        symbols: &Vec<(u64, String)>,
    ) -> (r: Result<(), Error>)
        requires
            old(self).wf(),
        ensures
            final(self).wf(),
            final(self).spec_info() == old(self).spec_info(),
            forall|i: int|
                0 <= i < old(self).symbols().len() ==> final(self).symbols()[i] == old(
                    self,
                ).symbols()[i],
            forall|i: int|
                0 <= i < old(self).object_names().len() ==> final(self).object_names()[i] == old(
                    self,
                ).object_names()[i],
            (exists|m: int| 0 <= m < symbols@.len() && symbols@[m].0 > MAX_ADDR) ==> r.is_err(),
            (forall|m: int| 0 <= m < symbols@.len() ==> (#[trigger] symbols@[m]).0 <= MAX_ADDR)
                && old(self).object_names().len() <= MAX_ID && old(self).symbols().len()
                + symbols@.len() <= MAX_ID + 1 ==> r.is_ok(),
            r matches Err(e) ==> (e matches Error::AddressOverflow(_)) || e == Error::TableFull,
            r.is_err() ==> final(self).images() == old(self).images(),
            r.is_ok() ==> {
                &&& final(self).image_of(*uuid) is Some
                &&& ({
                    let img = final(self).image_of(*uuid).unwrap();
                    &&& img.tag@ == object_name@ + seq![':'] + arch@
                    &&& covers(img.items@, final(self).symbols(), symbols@, symbols@.len() as int)
                    &&& forall|j: int|
                        0 <= j < img.items@.len() ==> final(self).object_names()[(
                        #[trigger] img.items@[j]).src_id as int]@ == object_name@
                })
                &&& forall|u: [u8; 16]|
                    u != *uuid ==> #[trigger] final(self).image_of(u) == old(self).image_of(u)
            },
    {
        if self.object_names.len() as u64 > MAX_ID {
            return Err(Error::TableFull);
        }
        let src = intern(&mut self.object_names, object_name) as u64;
        let res = collect_items(&mut self.symbols, src, symbols);
        proof {
            lemma_images_valid_grow(
                self.images@,
                old(self).symbols().len(),
                old(self).object_names().len(),
                self.symbols@.len(),
                self.object_names@.len(),
            );
        }
        let items = match res {
            Ok(items) => items,
            Err(e) => {
                return Err(e);
            },
        };
        let mut tag = String::new();
        tag.append(object_name);
        tag.append(":");
        tag.append(arch);
        proof {
            reveal_strlit(":");
        }
        let image = ImageIndex { uuid: *uuid, tag, items };
        let ghost before = self.images@;
        put_image(&mut self.images, image);
        proof {
            let after = self.images@;
            assert forall|i: int| 0 <= i < after.len() implies {
                let items = (#[trigger] after[i]).items@;
                &&& items_ascending(items)
                &&& forall|j: int|
                    0 <= j < items.len() ==> {
                        &&& (#[trigger] items[j]).addr <= MAX_ADDR
                        &&& items[j].sym_id < self.symbols@.len()
                        &&& items[j].src_id < self.object_names@.len()
                    }
            } by {
                if after[i] != image {
                    let j = choose|j: int| 0 <= j < before.len() && after[i] == before[j];
                    assert(before[j] == after[i]);
                }
            }
        }
        Ok(())
    }

    /// Size in bytes of the file `finish` writes.
    pub open spec fn file_size(&self) -> int {
        let n = self.images().len() as int;
        HEADER_SIZE + 28 * n + 11 * items_before(self.images(), n) + 8 * self.symbols().len()
            + str_before(self.symbols(), self.symbols().len() as int) + 8
            * self.object_names().len() + str_before(
            self.object_names(),
            self.object_names().len() as int,
        ) + tags_before(self.images(), n) + str_bytes(self.spec_info().name).len() + str_bytes(
            self.spec_info().build,
        ).len()
    }

    /// Every offset and length of the file fits its field: `finish`
    /// succeeds.
    pub open spec fn fits_format(&self) -> bool {
        &&& self.images().len() <= 0xffff_ffff
        &&& forall|k: int|
            0 <= k < self.images().len() ==> 11 * (#[trigger] self.images()[k]).items@.len()
                <= MAX_SLICE_LEN
        &&& strings_fit(self.symbols())
        &&& strings_fit(self.object_names())
        &&& str_bytes(self.spec_info().name).len() <= MAX_SLICE_LEN
        &&& str_bytes(self.spec_info().build).len() <= MAX_SLICE_LEN
        &&& self.file_size() <= MAX_SLICE_OFFSET
    }

    /// Item count, tagged-name bytes and the two string blobs' sizes.
    fn sizes(&self) -> (r: Result<(u64, u64, u64, u64), Error>)
        requires
            self.wf(),
        ensures
            r.is_err() ==> r == Err::<(u64, u64, u64, u64), Error>(Error::TooLarge),
            self.fits_format() ==> r.is_ok(),
            r matches Ok((total, tags, ssize, nsize)) ==> {
                &&& total == items_before(self.images(), self.images().len() as int)
                &&& forall|k: int|
                    0 <= k < self.images().len() ==> 11 * (
                    #[trigger] self.images()[k]).items@.len() <= MAX_SLICE_LEN
                &&& tags == tags_before(self.images(), self.images().len() as int)
                &&& ssize == str_before(self.symbols(), self.symbols().len() as int)
                &&& strings_fit(self.symbols())
                &&& nsize == str_before(self.object_names(), self.object_names().len() as int)
                &&& strings_fit(self.object_names())
            },
    {
        let ghost fit = self.fits_format();
        let ghost nimg = self.images@.len() as int;
        proof {
            lemma_items_before_step(self.images@, 0);
            lemma_tags_before_step(self.images@, 0);
        }
        let mut total: u64 = 0;
        let mut i: usize = 0;
        while i < self.images.len()
            invariant
                i <= self.images@.len(),
                nimg == self.images@.len(),
                fit == self.fits_format(),
                total == items_before(self.images@, i as int),
                forall|k: int|
                    0 <= k < i ==> 11 * (#[trigger] self.images@[k]).items@.len() <= MAX_SLICE_LEN,
            decreases self.images@.len() - i,
        {
            proof {
                lemma_items_before_step(self.images@, i as int);
                lemma_items_before_mono(self.images@, i + 1, nimg);
                if fit {
                    assert(11 * self.images@[i as int].items@.len() <= MAX_SLICE_LEN);
                }
            }
            if self.images[i].items.len() as u64 > MAX_SLICE_LEN / 11 {
                return Err(Error::TooLarge);
            }
            total = match add_size(total, self.images[i].items.len() as u64) {
                Ok(v) => v,
                Err(_) => {
                    return Err(Error::TooLarge);
                },
            };
            i += 1;
        }
        let mut tags: u64 = 0;
        let mut i: usize = 0;
        while i < self.images.len()
            invariant
                i <= self.images@.len(),
                nimg == self.images@.len(),
                fit == self.fits_format(),
                tags == tags_before(self.images@, i as int),
            decreases self.images@.len() - i,
        {
            proof {
                lemma_tags_before_step(self.images@, i as int);
                lemma_tags_before_mono(self.images@, i + 1, nimg);
            }
            let len = self.images[i].tag.as_str().as_bytes().len() as u64;
            tags = match add_size(tags, len) {
                Ok(v) => v,
                Err(_) => {
                    return Err(Error::TooLarge);
                },
            };
            tags = match add_size(tags, 1) {
                Ok(v) => v,
                Err(_) => {
                    return Err(Error::TooLarge);
                },
            };
            i += 1;
        }
        let ssize = match blob_size(&self.symbols) {
            Ok(t) => t,
            Err(_) => {
                return Err(Error::TooLarge);
            },
        };
        let nsize = match blob_size(&self.object_names) {
            Ok(t) => t,
            Err(_) => {
                return Err(Error::TooLarge);
            },
        };
        Ok((total, tags, ssize, nsize))
    }

    /// Writes the database: header, UUID table (ascending), variant
    /// descriptors, index items, symbol table, object-name table, tagged
    /// names in UUID order, and the SDK name and build.
    #[verifier::spinoff_prover]
    #[verifier::rlimit(100)]
    pub fn finish(&self) -> (r: Result<Vec<u8>, Error>)
        requires
            self.wf(),
        ensures
            r.is_err() ==> r == Err::<Vec<u8>, Error>(Error::TooLarge),
            self.fits_format() ==> r.is_ok(),
            r matches Ok(b) ==> {
                &&& b@.len() >= HEADER_SIZE
                &&& version_of(b@) == MEMDB_VERSION
                &&& uuid_table_ok(b@)
                &&& uuids_count(b@) == self.images().len()
                &&& forall|k: int|
                    0 <= k < self.images().len() ==> uuid_bytes(b@, k) == (
                    #[trigger] self.images()[k]).uuid@
                &&& uuids_sorted(b@)
                &&& db_sorted(b@)
                &&& self.answered_by(b@)
                &&& self.indexes_written(b@)
                &&& self.tags_written(b@)
            },
    {
        proof {
            lemma_pow256_facts();
        }
        let n = self.images.len() as u64;
        let (total, tagged_len, symbols_size, names_size) = match self.sizes() {
            Ok(t) => t,
            Err(_) => {
                return Err(Error::TooLarge);
            },
        };
        let ns = self.symbols.len() as u64;
        let nn = self.object_names.len() as u64;
        assert(n == self.images@.len());
        if n > 0xffff_ffff || total > 0x0fff_ffff_ffff || ns > 0x0fff_ffff_ffff || nn
            > 0x0fff_ffff_ffff {
            return Err(Error::TooLarge);
        }
        let uuids_start = HEADER_SIZE as u64;
        let variants_start = match add_size(uuids_start, 20 * n) {
            Ok(v) => v,
            Err(_) => {
                return Err(Error::TooLarge);
            },
        };
        let items_start = match add_size(variants_start, 8 * n) {
            Ok(v) => v,
            Err(_) => {
                return Err(Error::TooLarge);
            },
        };
        let symbols_start = match add_size(items_start, 11 * total) {
            Ok(v) => v,
            Err(_) => {
                return Err(Error::TooLarge);
            },
        };
        let symbols_blob = match add_size(symbols_start, 8 * ns) {
            Ok(v) => v,
            Err(_) => {
                return Err(Error::TooLarge);
            },
        };
        let names_start = match add_size(symbols_blob, symbols_size) {
            Ok(v) => v,
            Err(_) => {
                return Err(Error::TooLarge);
            },
        };
        let names_blob = match add_size(names_start, 8 * nn) {
            Ok(v) => v,
            Err(_) => {
                return Err(Error::TooLarge);
            },
        };
        let tagged_start = match add_size(names_blob, names_size) {
            Ok(v) => v,
            Err(_) => {
                return Err(Error::TooLarge);
            },
        };
        let tagged_end = match add_size(tagged_start, tagged_len) {
            Ok(v) => v,
            Err(_) => {
                return Err(Error::TooLarge);
            },
        };
        let info_name = tagged_end;
        let info_build = match add_size(info_name, self.info.name.as_str().as_bytes().len() as u64) {
            Ok(v) => v,
            Err(_) => {
                return Err(Error::TooLarge);
            },
        };

        let mut out: Vec<u8> = Vec::new();
        push_le(&mut out, MEMDB_VERSION as u64, 4);
        proof {
            lemma_le_bytes(MEMDB_VERSION as nat, 4, seq![], seq![]);
            assert(out@ =~= le_bytes(MEMDB_VERSION as nat, 4));
            assert(out@.subrange(0, 4) =~= out@);
        }
        if self.info.version_major as u64 >= 0x1_0000_0000 {
            return Err(Error::TooLarge);
        }
        push_field(&mut out, self.info.version_major as u64, 4);
        push_field(&mut out, self.info.version_minor as u64, 4);
        push_field(&mut out, self.info.version_patchlevel as u64, 4);
        if push_slice(&mut out, info_name, self.info.name.as_str().as_bytes().len() as u64).is_err() {
            return Err(Error::TooLarge);
        }
        if push_slice(&mut out, info_build, self.info.build.as_str().as_bytes().len() as u64).is_err() {
            return Err(Error::TooLarge);
        }
        if uuids_start > MAX_SLICE_OFFSET || variants_start > MAX_SLICE_OFFSET || symbols_start
            > MAX_SLICE_OFFSET || names_start > MAX_SLICE_OFFSET || tagged_end
            > MAX_SLICE_OFFSET {
            return Err(Error::TooLarge);
        }
        let ghost p32 = out@;
        push_field(&mut out, uuids_start, 8);
        push_field(&mut out, n, 8);
        proof {
            assert(out@ == p32 + le_bytes(uuids_start as nat, 8) + le_bytes(n as nat, 8));
            lemma_le_bytes(uuids_start as nat, 8, p32, le_bytes(n as nat, 8));
            lemma_le_bytes(n as nat, 8, p32 + le_bytes(uuids_start as nat, 8), seq![]);
            assert(out@ =~= p32 + le_bytes(uuids_start as nat, 8) + le_bytes(n as nat, 8) + seq![]);
            assert(le(out@, 32, 8) == uuids_start);
            assert(le(out@, 40, 8) == n);
        }
        let ghost p48 = out@;
        push_field(&mut out, variants_start, 8);
        push_field(&mut out, n, 8);
        proof {
            lemma_le_bytes(variants_start as nat, 8, p48, le_bytes(n as nat, 8));
            lemma_le_bytes(n as nat, 8, p48 + le_bytes(variants_start as nat, 8), seq![]);
            assert(out@ =~= p48 + le_bytes(variants_start as nat, 8) + le_bytes(n as nat, 8) + seq![]);
            assert(le(out@, 48, 8) == variants_start);
            assert(le(out@, 56, 8) == n);
        }
        let ghost p64 = out@;
        push_field(&mut out, symbols_start, 8);
        push_field(&mut out, ns, 8);
        push_field(&mut out, names_start, 8);
        push_field(&mut out, nn, 8);
        proof {
            let f1 = le_bytes(symbols_start as nat, 8);
            let f2 = le_bytes(ns as nat, 8);
            let f3 = le_bytes(names_start as nat, 8);
            let f4 = le_bytes(nn as nat, 8);
            lemma_le_bytes(symbols_start as nat, 8, p64, f2 + f3 + f4);
            lemma_le_bytes(ns as nat, 8, p64 + f1, f3 + f4);
            lemma_le_bytes(names_start as nat, 8, p64 + f1 + f2, f4);
            lemma_le_bytes(nn as nat, 8, p64 + f1 + f2 + f3, seq![]);
            assert(out@ =~= p64 + f1 + (f2 + f3 + f4));
            assert(out@ =~= p64 + f1 + f2 + (f3 + f4));
            assert(out@ =~= p64 + f1 + f2 + f3 + f4);
            assert(out@ =~= p64 + f1 + f2 + f3 + f4 + seq![]);
        }
        let ghost p96 = out@;
        assert(le(p96, 64, 8) == symbols_start);
        assert(le(p96, 72, 8) == ns);
        assert(le(p96, 80, 8) == names_start);
        assert(le(p96, 88, 8) == nn);
        push_field(&mut out, tagged_start, 8);
        push_field(&mut out, tagged_end, 8);
        // UUID table
        let ghost hdr = out@;
        proof {
            lemma_le_bytes(tagged_start as nat, 8, p96, le_bytes(tagged_end as nat, 8));
            lemma_le_bytes(tagged_end as nat, 8, p96 + le_bytes(tagged_start as nat, 8), seq![]);
            assert(hdr =~= p96 + le_bytes(tagged_start as nat, 8) + le_bytes(tagged_end as nat, 8) + seq![]);
            assert(le(hdr, 96, 8) == tagged_start);
            assert(le(hdr, 104, 8) == tagged_end);
            assert(hdr.subrange(0, p48.len() as int) =~= p48);
            lemma_le_extends(hdr, p48, 32, 8);
            lemma_le_extends(hdr, p48, 40, 8);
            assert(hdr.subrange(0, p64.len() as int) =~= p64);
            lemma_le_extends(hdr, p64, 48, 8);
            lemma_le_extends(hdr, p64, 56, 8);
            assert(hdr.subrange(0, p96.len() as int) =~= p96);
            assert(out@.subrange(0, out@.len() as int) =~= out@);
        }
        let mut i: usize = 0;
        while i < self.images.len()
            invariant
                i <= self.images@.len(),
                self.images@.len() <= 0xffff_ffff,
                starts_with_version(out@),
                hdr.len() == HEADER_SIZE,
                le(hdr, 32, 8) == HEADER_SIZE,
                le(hdr, 40, 8) == self.images@.len(),
                le(hdr, 48, 8) == variants_start,
                le(hdr, 56, 8) == self.images@.len(),
                extends(out@, hdr),
                forall|k: int| 0 <= k < i ==> #[trigger] le(out@, HEADER_SIZE + 20 * k + 16, 4) == k,
                out@.len() == HEADER_SIZE + 20 * i,
                forall|k: int|
                    0 <= k < i ==> out@.subrange(HEADER_SIZE + 20 * k, HEADER_SIZE + 20 * k + 16)
                        == (#[trigger] self.images@[k]).uuid@,
            decreases self.images@.len() - i,
        {
            proof {
                lemma_pow256_facts();
            }
            let ghost before = out@;
            push_uuid(&mut out, &self.images[i].uuid);
            proof {
                lemma_prefix_kept(before, out@);
            }
            let ghost mid = out@;
            push_field(&mut out, i as u64, 4);
            proof {
                assert(out@.subrange(0, before.len() as int) =~= before);
                lemma_extends_trans(out@, before, hdr);
                lemma_le_bytes(i as nat, 4, mid, seq![]);
                assert(out@ =~= mid + le_bytes(i as nat, 4) + seq![]);
                assert forall|k: int| 0 <= k < i + 1 implies #[trigger] le(
                    out@,
                    HEADER_SIZE + 20 * k + 16,
                    4,
                ) == k by {
                    if k < i {
                        lemma_le_extends(out@, before, HEADER_SIZE + 20 * k + 16, 4);
                    }
                }
                assert forall|k: int| 0 <= k < i + 1 implies out@.subrange(
                    HEADER_SIZE + 20 * k,
                    HEADER_SIZE + 20 * k + 16,
                ) == (#[trigger] self.images@[k]).uuid@ by {
                    if k < i {
                        lemma_extends_window(
                            out@,
                            before,
                            HEADER_SIZE + 20 * k,
                            HEADER_SIZE + 20 * k + 16,
                        );
                    } else {
                        assert(out@.subrange(HEADER_SIZE + 20 * k, HEADER_SIZE + 20 * k + 16)
                            =~= self.images@[k].uuid@);
                    }
                }
            }
            i += 1;
        }
        let ghost table = out@;
        assert(out@.subrange(0, out@.len() as int) =~= out@);
        // variant descriptors
        if write_descriptors(&mut out, &self.images, items_start).is_err() {
            return Err(Error::TooLarge);
        }
        let ghost desc = out@;
        proof {
            lemma_extends_trans(desc, table, table);
            lemma_images_valid_grow(
                self.images@,
                self.symbols@.len(),
                self.object_names@.len(),
                (MAX_ID + 1) as nat,
                (MAX_ID + 1) as nat,
            );
        }
        // index items
        write_items(&mut out, &self.images);
        let ghost itemsec = out@;
        assert(out@.subrange(0, out@.len() as int) =~= out@);
        let ghost before = out@;
        push_table(&mut out, &self.symbols, symbols_blob);
        let ghost symsec = out@;
        proof {
            lemma_extends_trans(out@, before, itemsec);
        }
        let ghost before = out@;
        push_table(&mut out, &self.object_names, names_blob);
        let ghost namesec = out@;
        proof {
            lemma_extends_trans(out@, before, itemsec);
            assert(out@.subrange(0, out@.len() as int) =~= out@);
        }
        // tagged names
        let mut i: usize = 0;
        proof {
            lemma_tags_before_step(self.images@, 0);
        }
        while i < self.images.len()
            invariant
                i <= self.images@.len(),
                starts_with_version(out@),
                extends(out@, namesec),
                namesec.len() == tagged_start,
                out@.len() == tagged_start + tags_before(self.images@, i as int),
                forall|x: int|
                    0 <= x < i ==> out@.subrange(
                        tagged_start + tags_before(self.images@, x),
                        tagged_start + tags_before(self.images@, x) + str_bytes(
                            self.images@[x].tag,
                        ).len(),
                    ) == str_bytes(#[trigger] self.images@[x].tag) && out@[tagged_start
                        + tags_before(self.images@, x) + str_bytes(self.images@[x].tag).len()]
                        == 0,
            decreases self.images@.len() - i,
        {
            proof {
                lemma_pow256_facts();
                lemma_tags_before_step(self.images@, i as int);
            }
            let ghost before = out@;
            push_str(&mut out, self.images[i].tag.as_str());
            push_field(&mut out, 0, 1);
            proof {
                assert(out@.subrange(0, before.len() as int) =~= before);
                lemma_extends_trans(out@, before, namesec);
                assert(le_bytes(0, 1) =~= seq![0u8]);
                let t = str_bytes(self.images@[i as int].tag);
                assert(out@ =~= before + t + seq![0u8]);
                assert forall|x: int| 0 <= x < i + 1 implies out@.subrange(
                    tagged_start + tags_before(self.images@, x),
                    tagged_start + tags_before(self.images@, x) + str_bytes(
                        self.images@[x].tag,
                    ).len(),
                ) == str_bytes(#[trigger] self.images@[x].tag) && out@[tagged_start
                    + tags_before(self.images@, x) + str_bytes(self.images@[x].tag).len()] == 0 by {
                    if x < i {
                        lemma_tags_before_step(self.images@, x);
                        lemma_tags_before_mono(self.images@, x + 1, i as int);
                        let o = tagged_start + tags_before(self.images@, x);
                        let l = str_bytes(self.images@[x].tag).len();
                        lemma_extends_window(out@, before, o, o + l);
                        assert(out@[o + l] == before[o + l]);
                    } else {
                        assert(out@.subrange(before.len() as int, (before.len() + t.len()) as int) =~= t);
                    }
                }
            }
            i += 1;
        }
        let ghost tsec = out@;
        assert(out@.subrange(0, out@.len() as int) =~= out@);
        let ghost before = out@;
        push_str(&mut out, self.info.name.as_str());
        push_str(&mut out, self.info.build.as_str());
        proof {
            assert(out@.subrange(0, before.len() as int) =~= before);
            lemma_extends_trans(out@, before, tsec);
            lemma_extends_trans(out@, tsec, namesec);
            lemma_extends_trans(out@, namesec, symsec);
            lemma_extends_trans(out@, namesec, itemsec);
            lemma_le_bytes(MEMDB_VERSION as nat, 4, seq![], out@.subrange(4, out@.len() as int));
            assert(out@ =~= seq![] + le_bytes(MEMDB_VERSION as nat, 4) + out@.subrange(
                4,
                out@.len() as int,
            ));
            lemma_extends_trans(itemsec, desc, table);
            lemma_extends_trans(out@, itemsec, table);
            lemma_extends_trans(out@, table, hdr);
            lemma_le_extends(out@, hdr, 32, 8);
            lemma_le_extends(out@, hdr, 40, 8);
            let b = out@;
            assert forall|k: int| 0 <= k < self.images@.len() implies uuid_bytes(b, k)
                == (#[trigger] self.images@[k]).uuid@ && uuid_key_at(b, k) == key_of(
                self.images@[k].uuid,
            ) by {
                lemma_extends_window(b, table, HEADER_SIZE + 20 * k, HEADER_SIZE + 20 * k + 16);
                lemma_be_window(b, HEADER_SIZE + 20 * k, 16);
            }
            assert(uuids_count(b) == self.images@.len());
            assert(uuid_table_ok(b));
            assert forall|x: int, y: int| 0 <= x < y < uuids_count(b) implies #[trigger] uuid_key_at(
                b,
                x,
            ) < #[trigger] uuid_key_at(b, y) by {
                assert(key_of(self.images@[x].uuid) < key_of(self.images@[y].uuid));
            }
            lemma_le_extends(b, hdr, 48, 8);
            lemma_le_extends(b, hdr, 56, 8);
            lemma_extends_trans(b, itemsec, desc);
            lemma_written_all(
                self.images@,
                b,
                table,
                desc,
                itemsec,
                variants_start as nat,
                items_start as nat,
                total as nat,
            );
            lemma_extends_trans(b, hdr, p96);
            lemma_le_extends(b, p96, 64, 8);
            lemma_le_extends(b, p96, 72, 8);
            lemma_le_extends(b, p96, 80, 8);
            lemma_le_extends(b, p96, 88, 8);
            lemma_images_valid_grow(
                self.images@,
                self.symbols@.len(),
                self.object_names@.len(),
                self.symbols@.len(),
                self.object_names@.len(),
            );
            lemma_le_extends(b, hdr, 96, 8);
            lemma_le_extends(b, hdr, 104, 8);
            lemma_written_tagged(
                b,
                tsec,
                self.images@,
                tagged_start as int,
                tagged_end as int,
            );
            lemma_written_all_lookups(
                self.images@,
                self.symbols@,
                self.object_names@,
                b,
                table,
                desc,
                itemsec,
                symsec,
                namesec,
                variants_start as nat,
                items_start as nat,
                total as nat,
                symbols_start as nat,
                names_start as nat,
            );
        }
        Ok(out)
    }

}

} // verus!
