//! Reading a symbol database: header validation and the lookups by UUID,
//! by tagged name and by address.
use vstd::prelude::*;
use vstd::string::StringSliceAdditionalSpecFns;
use vstd::utf8::{decode_utf8, valid_utf8};

use crate::error::Error;
use crate::schema::{
    be, le, lemma_pow256_facts, read_be16, read_le, uuid_key, H_NAMES_COUNT, H_NAMES_START, H_SYMBOLS_COUNT,
    H_SYMBOLS_START, H_TAGGED_END, H_TAGGED_START, H_UUIDS_COUNT, H_UUIDS_START,
    H_VARIANTS_COUNT, H_VARIANTS_START, HEADER_SIZE, INDEXED_UUID_SIZE, INDEX_ITEM_SIZE,
    MEMDB_VERSION, STORED_SLICE_SIZE,
};
use crate::sdk::{chars_of, rfind_before, rfind_char, SdkInfo};
use crate::uuids::{hyphenated, parse_uuid, uuid_text_of};

verus! {

// ---- the file, as a sequence of bytes ----

pub open spec fn field(b: Seq<u8>, at: usize) -> nat {
    le(b, at as int, 8)
}

pub open spec fn version_of(b: Seq<u8>) -> nat {
    le(b, 0, 4)
}

pub open spec fn range_ok(b: Seq<u8>, start: nat, count: nat, size: nat) -> bool {
    start + count * size <= b.len()
}

/// Offset of a string-slice descriptor's data.
pub open spec fn slice_off(b: Seq<u8>, p: int) -> nat {
    le(b, p, 5)
}

/// Length of a string-slice descriptor's data (23 bits).
pub open spec fn slice_len(b: Seq<u8>, p: int) -> nat {
    le(b, p + 5, 2) + 0x1_0000 * (b[p + 7] as nat % 128)
}

pub open spec fn slice_compressed(b: Seq<u8>, p: int) -> bool {
    b[p + 7] >= 128
}

/// The string a descriptor at `p` points to: in bounds, not compressed,
/// valid UTF-8.
pub open spec fn string_at(b: Seq<u8>, p: int) -> Option<Seq<char>> {
    let off = slice_off(b, p);
    let len = slice_len(b, p);
    let data = b.subrange(off as int, (off + len) as int);
    if off + len <= b.len() && !slice_compressed(b, p) && valid_utf8(data) {
        Some(decode_utf8(data))
    } else {
        None
    }
}

/// Entry `id` of a descriptor table at `start` with `count` entries.
pub open spec fn table_string(b: Seq<u8>, start: nat, count: nat, id: nat) -> Option<Seq<char>> {
    if id < count && range_ok(b, start, count, 8) {
        string_at(b, (start + 8 * id) as int)
    } else {
        None
    }
}

pub open spec fn uuids_start(b: Seq<u8>) -> nat {
    field(b, H_UUIDS_START)
}

pub open spec fn uuids_count(b: Seq<u8>) -> nat {
    field(b, H_UUIDS_COUNT)
}

pub open spec fn uuid_table_ok(b: Seq<u8>) -> bool {
    range_ok(b, uuids_start(b), uuids_count(b), 20)
}

pub open spec fn uuid_entry(b: Seq<u8>, i: int) -> int {
    uuids_start(b) + 20 * i
}

/// The raw bytes of UUID table entry `i`.
pub open spec fn uuid_bytes(b: Seq<u8>, i: int) -> Seq<u8> {
    b.subrange(uuid_entry(b, i), uuid_entry(b, i) + 16)
}

/// Entry `i`'s UUID as a big-endian number: its order is the raw byte order.
pub open spec fn uuid_key_at(b: Seq<u8>, i: int) -> nat {
    be(b, uuid_entry(b, i), 16)
}

/// The UUID table is strictly ascending in raw byte order.
pub open spec fn uuids_sorted(b: Seq<u8>) -> bool {
    forall|i: int, j: int|
        0 <= i < j < uuids_count(b) ==> #[trigger] uuid_key_at(b, i) < #[trigger] uuid_key_at(b, j)
}

/// The table position of a UUID.
pub open spec fn uuid_pos(b: Seq<u8>, key: nat) -> Option<int> {
    if exists|i: int| 0 <= i < uuids_count(b) && uuid_key_at(b, i) == key {
        Some(choose|i: int| 0 <= i < uuids_count(b) && uuid_key_at(b, i) == key)
    } else {
        None
    }
}

/// Where the index items of UUID entry `i` lie: (offset, count).
pub open spec fn variant_items(b: Seq<u8>, i: int) -> Option<(nat, nat)> {
    let vidx = le(b, uuid_entry(b, i) + 16, 4);
    let vs = field(b, H_VARIANTS_START);
    let vc = field(b, H_VARIANTS_COUNT);
    let p = (vs + 8 * vidx) as int;
    if vidx < vc && range_ok(b, vs, vc, 8) && slice_off(b, p) + slice_len(b, p) <= b.len() {
        Some((slice_off(b, p), slice_len(b, p) / 11))
    } else {
        None
    }
}

pub open spec fn item_addr(b: Seq<u8>, off: nat, j: int) -> nat {
    le(b, off + 11 * j, 5)
}

pub open spec fn item_sym(b: Seq<u8>, off: nat, j: int) -> nat {
    le(b, off + 11 * j + 5, 3)
}

pub open spec fn item_src(b: Seq<u8>, off: nat, j: int) -> nat {
    le(b, off + 11 * j + 8, 3)
}

/// An index-item array is strictly ascending by address.
pub open spec fn items_sorted(b: Seq<u8>, off: nat, count: nat) -> bool {
    forall|i: int, j: int|
        0 <= i < j < count ==> #[trigger] item_addr(b, off, i) < #[trigger] item_addr(b, off, j)
}

/// Every UUID's index-item array is ascending.
pub open spec fn all_items_sorted(b: Seq<u8>) -> bool {
    forall|i: int|
        0 <= i < uuids_count(b) && (#[trigger] variant_items(b, i)).is_some() ==> items_sorted(
            b,
            variant_items(b, i).unwrap().0,
            variant_items(b, i).unwrap().1,
        )
}

/// The tables are ordered as binary search needs them.
pub open spec fn db_sorted(b: Seq<u8>) -> bool {
    uuids_sorted(b) && all_items_sorted(b)
}

pub open spec fn addr_pos(b: Seq<u8>, off: nat, count: nat, addr: nat) -> Option<int> {
    if exists|j: int| 0 <= j < count && item_addr(b, off, j) == addr {
        Some(choose|j: int| 0 <= j < count && item_addr(b, off, j) == addr)
    } else {
        None
    }
}

/// (object name, symbol) of item `j`.
pub open spec fn item_strings(b: Seq<u8>, off: nat, j: int) -> Option<(Seq<char>, Seq<char>)> {
    let name = table_string(
        b,
        field(b, H_NAMES_START),
        field(b, H_NAMES_COUNT),
        item_src(b, off, j),
    );
    let sym = table_string(
        b,
        field(b, H_SYMBOLS_START),
        field(b, H_SYMBOLS_COUNT),
        item_sym(b, off, j),
    );
    if name.is_some() && sym.is_some() {
        Some((name.unwrap(), sym.unwrap()))
    } else {
        None
    }
}

/// Where the index items of a UUID lie: `Err` where the file is
/// inconsistent on the way.
pub open spec fn index_spec(b: Seq<u8>, key: nat) -> Result<Option<(nat, nat)>, ()> {
    if !uuid_table_ok(b) {
        Err(())
    } else {
        match uuid_pos(b, key) {
            None => Ok(None),
            Some(i) => match variant_items(b, i) {
                None => Err(()),
                Some(x) => Ok(Some(x)),
            },
        }
    }
}

/// What a lookup by UUID and address finds: `Err` where the file is
/// inconsistent on the way.
pub open spec fn lookup_spec(b: Seq<u8>, key: nat, addr: nat) -> Result<
    Option<(Seq<char>, Seq<char>)>,
    (),
> {
    if !uuid_table_ok(b) {
        Err(())
    } else {
        match uuid_pos(b, key) {
            None => Ok(None),
            Some(i) => match variant_items(b, i) {
                None => Err(()),
                Some((off, count)) => match addr_pos(b, off, count, addr) {
                    None => Ok(None),
                    Some(j) => match item_strings(b, off, j) {
                        None => Err(()),
                        Some(s) => Ok(Some(s)),
                    },
                },
            },
        }
    }
}

/// Index of the first 0 byte at or after `i`, or -1.
pub open spec fn nul_from(b: Seq<u8>, i: int) -> int
    decreases b.len() - i,
{
    if i < 0 || i >= b.len() {
        -1
    } else if b[i] == 0 {
        i
    } else {
        nul_from(b, i + 1)
    }
}

/// Position of the first tagged name in `b[off..end]` equal to `target`,
/// counting from `idx`; `Err` on an unterminated or non-UTF-8 entry met first.
pub open spec fn find_tagged(b: Seq<u8>, off: int, end: int, target: Seq<u8>, idx: int) -> Result<
    Option<int>,
    (),
>
    decreases b.len() - off,
{
    if off >= end {
        Ok(None)
    } else {
        let z = nul_from(b, off);
        if z < off {
            Err(())
        } else if z >= b.len() {
            Err(())
        } else if !valid_utf8(b.subrange(off, z)) {
            Err(())
        } else if b.subrange(off, z) == target {
            Ok(Some(idx))
        } else {
            find_tagged(b, z + 1, end, target, idx + 1)
        }
    }
}

/// The tagged name `"<name>:<arch>"`, as bytes.
pub open spec fn tag_bytes(name: Seq<char>, arch: Seq<char>) -> Seq<u8> {
    vstd::utf8::encode_utf8(name + seq![':'] + arch)
}

/// The UUID an object name and architecture resolve to.
pub open spec fn find_uuid_spec(b: Seq<u8>, name: Seq<char>, arch: Seq<char>) -> Result<
    Option<Seq<u8>>,
    (),
> {
    match find_tagged(
        b,
        field(b, H_TAGGED_START) as int,
        field(b, H_TAGGED_END) as int,
        tag_bytes(name, arch),
        0,
    ) {
        Err(_) => Err(()),
        Ok(None) => Ok(None),
        Ok(Some(k)) => if uuid_table_ok(b) && k < uuids_count(b) {
            Ok(Some(uuid_bytes(b, k)))
        } else {
            Err(())
        },
    }
}

/// What `find_uuid_fuzzy` finds, given what the text parsed to as a UUID.
pub open spec fn fuzzy_spec(b: Seq<u8>, s: Seq<char>, parsed: Option<Seq<u8>>) -> Result<
    Option<Seq<u8>>,
    (),
> {
    match parsed {
        Some(u) => if !uuid_table_ok(b) {
            Err(())
        } else if uuid_pos(b, be(u, 0, 16)).is_some() {
            Ok(Some(u))
        } else {
            Ok(None)
        },
        None => {
            let c = rfind_before(s, ':', s.len() as int);
            if c < 0 {
                Ok(None)
            } else {
                find_uuid_spec(b, s.subrange(0, c), s.subrange(c + 1, s.len() as int))
            }
        },
    }
}

// ---- the reader ----

/// A string of the header: the one its descriptor at `p` points to, or
/// the empty string where that descriptor is unreadable.
pub open spec fn header_string(b: Seq<u8>, p: int) -> Seq<char> {
    match string_at(b, p) {
        Some(s) => s,
        None => Seq::empty(),
    }
}

/// The SDK identity the header of a well-formed file records.
pub open spec fn header_info_ok(b: Seq<u8>, info: SdkInfo) -> bool {
    &&& info.name@ == header_string(b, 16)
    &&& info.build@ == header_string(b, 24)
    &&& info.version_major == le(b, 4, 4)
    &&& info.version_minor == le(b, 8, 4)
    &&& info.version_patchlevel == le(b, 12, 4)
    &&& info.flavour.is_none()
}

pub open spec fn opt_view(u: Option<[u8; 16]>) -> Option<Seq<u8>> {
    match u {
        Some(x) => Some(x@),
        None => None,
    }
}

/// A symbol found in a database.
#[derive(Debug, Clone)]
pub struct Symbol {
    pub object_uuid: [u8; 16],
    pub object_name: String,
    pub symbol: String,
    pub addr: u64,
}

impl Symbol {
    /// The UUID of the image.
    pub fn object_uuid(&self) -> (r: [u8; 16])
        ensures
            r == self.object_uuid,
    {
        self.object_uuid
    }

    /// The name of the image.
    pub fn object_name(&self) -> (r: &str)
        ensures
            r@ == self.object_name@,
    {
        self.object_name.as_str()
    }

    /// The symbol's name.
    pub fn symbol(&self) -> (r: &str)
        ensures
            r@ == self.symbol@,
    {
        self.symbol.as_str()
    }

    /// The symbol's address.
    pub fn addr(&self) -> (r: u64)
        ensures
            r == self.addr,
    {
        self.addr
    }
}

/// Relies on `std::str::from_utf8`: it succeeds exactly on valid UTF-8 and
/// gives its characters.
#[verifier::external_body]
fn utf8_string(b: &Vec<u8>, start: usize, end: usize) -> (r: Option<String>)
    requires
        start <= end <= b@.len(),
    ensures
        r.is_some() == valid_utf8(b@.subrange(start as int, end as int)),
        r.is_some() ==> r.unwrap()@ == decode_utf8(b@.subrange(start as int, end as int)),
{
    match std::str::from_utf8(&b[start..end]) {
        Ok(s) => Some(s.to_owned()),
        Err(_) => None,
    }
}

fn fits(start: u64, count: u64, size: u64, len: usize) -> (r: bool)
    requires
        1 <= size <= 20,
    ensures
        r == (start + count * size <= len),
{
    let len = len as u64;
    if count > len / size {
        assert(count * size > len) by (nonlinear_arith)
            requires
                count > len / size,
                size >= 1,
        ;
        false
    } else {
        assert(count * size <= len) by (nonlinear_arith)
            requires
                count <= len / size,
                size >= 1,
        ;
        start <= len - count * size
    }
}

/// A database file held in memory.
pub struct MemDb {
    bytes: Vec<u8>,
    info: SdkInfo,
}

impl MemDb {
    /// The bytes of the file.
    pub closed spec fn data(&self) -> Seq<u8> {
        self.bytes@
    }

    pub closed spec fn spec_info(&self) -> SdkInfo {
        self.info
    }

    /// The header is there and has the supported version.
    pub open spec fn wf(&self) -> bool {
        &&& self.data().len() >= HEADER_SIZE
        &&& self.data().len() <= usize::MAX
        &&& version_of(self.data()) == MEMDB_VERSION
    }

    fn field(&self, at: usize) -> (r: u64)
        requires
            self.wf(),
            at + 8 <= HEADER_SIZE,
        ensures
            r == field(self.data(), at),
    {
        read_le(&self.bytes, at, 8)
    }

    /// Reads the string a descriptor at `p` points to.
    fn string_at(&self, p: usize) -> (r: Result<String, Error>)
        requires
            self.wf(),
            p + 8 <= self.data().len(),
        ensures
            r.is_ok() == string_at(self.data(), p as int).is_some(),
            r.is_ok() ==> r.unwrap()@ == string_at(self.data(), p as int).unwrap(),
            r.is_err() ==> r == Err::<String, Error>(Error::BadMemDb),
    {
        let off = read_le(&self.bytes, p, 5);
        proof {
            lemma_pow256_facts();
        }
        let len = read_le(&self.bytes, p + 5, 2) + 0x1_0000 * ((self.bytes[p + 7] % 128) as u64);
        let n = self.bytes.len() as u64;
        if self.bytes[p + 7] >= 128 || off > n || len > n - off {
            return Err(Error::BadMemDb);
        }
        match utf8_string(&self.bytes, off as usize, (off + len) as usize) {
            Some(s) => Ok(s),
            None => Err(Error::BadMemDb),
        }
    }

    /// Entry `id` of the descriptor table whose (start, count) header
    /// fields are at `start_at` and `count_at`.
    fn table_string(&self, start_at: usize, count_at: usize, id: usize) -> (r: Result<
        String,
        Error,
    >)
        requires
            self.wf(),
            start_at + 8 <= HEADER_SIZE,
            count_at + 8 <= HEADER_SIZE,
        ensures
            ({
                let t = table_string(
                    self.data(),
                    field(self.data(), start_at),
                    field(self.data(), count_at),
                    id as nat,
                );
                &&& r.is_ok() == t.is_some()
                &&& r.is_ok() ==> r.unwrap()@ == t.unwrap()
                &&& r.is_err() ==> r == Err::<String, Error>(Error::BadMemDb)
            }),
    {
        let start = self.field(start_at);
        let count = self.field(count_at);
        if id as u64 >= count || !fits(start, count, 8, self.bytes.len()) {
            return Err(Error::BadMemDb);
        }
        let start = start as usize;
        let count = count as usize;
        assert(start + 8 * id + 8 <= start + count * 8) by (nonlinear_arith)
            requires
                id < count,
        ;
        self.string_at(start + 8 * id)
    }

    /// Finds the table position of a UUID by binary search.
    fn search_uuid(&self, key: u128) -> (r: Result<Option<usize>, Error>)
        requires
            self.wf(),
        ensures
            r.is_err() == !uuid_table_ok(self.data()),
            r.is_err() ==> r == Err::<Option<usize>, Error>(Error::BadMemDb),
            r matches Ok(Some(i)) ==> i < uuids_count(self.data()) && uuid_key_at(self.data(), i as int) == key,
            uuids_sorted(self.data()) && r.is_ok() ==> r == Ok::<Option<usize>, Error>(
                match uuid_pos(self.data(), key as nat) {
                    Some(i) => Some(i as usize),
                    None => None,
                },
            ),
    {
        let ghost b = self.data();
        let start = self.field(H_UUIDS_START);
        let count = self.field(H_UUIDS_COUNT);
        if !fits(start, count, INDEXED_UUID_SIZE as u64, self.bytes.len()) {
            return Err(Error::BadMemDb);
        }
        let start = start as usize;
        let count = count as usize;
        let mut lo: usize = 0;
        let mut hi: usize = count;
        while lo < hi
            invariant
                b == self.data(),
                self.wf(),
                start == uuids_start(b),
                count == uuids_count(b),
                start + count * 20 <= b.len(),
                lo <= hi <= count,
                uuids_sorted(b) ==> forall|k: int| 0 <= k < lo ==> #[trigger] uuid_key_at(b, k) < key,
                uuids_sorted(b) ==> forall|k: int|
                    hi <= k < count ==> #[trigger] uuid_key_at(b, k) > key,
            decreases hi - lo,
        {
            let mid = lo + (hi - lo) / 2;
            assert(start + 20 * mid + 16 <= b.len()) by (nonlinear_arith)
                requires
                    mid < count,
                    start + count * 20 <= b.len(),
            ;
            let k = read_be16(&self.bytes, start + 20 * mid);
            if k == key {
                proof {
                    if uuids_sorted(b) {
                        assert(0 <= mid < uuids_count(b) && uuid_key_at(b, mid as int) == key);
                        let c = choose|i: int| 0 <= i < uuids_count(b) && uuid_key_at(b, i) == key;
                        assert(0 <= c < count && uuid_key_at(b, c) == key);
                        if c < mid {
                            assert(uuid_key_at(b, c) < uuid_key_at(b, mid as int));
                        } else if c > mid {
                            assert(uuid_key_at(b, mid as int) < uuid_key_at(b, c));
                        }
                    }
                }
                return Ok(Some(mid));
            } else if k < key {
                proof {
                    if uuids_sorted(b) {
                        assert forall|j: int| 0 <= j < mid + 1 implies #[trigger] uuid_key_at(b, j)
                            < key by {
                            if j < mid {
                                assert(uuid_key_at(b, j) < uuid_key_at(b, mid as int));
                            }
                        }
                    }
                }
                lo = mid + 1;
            } else {
                proof {
                    if uuids_sorted(b) {
                        assert forall|j: int| mid <= j < count implies #[trigger] uuid_key_at(b, j)
                            > key by {
                            if j > mid {
                                assert(uuid_key_at(b, mid as int) < uuid_key_at(b, j));
                            }
                        }
                    }
                }
                hi = mid;
            }
        }
        proof {
            if uuids_sorted(b) {
                assert(!exists|i: int| 0 <= i < uuids_count(b) && uuid_key_at(b, i) == key);
            }
        }
        Ok(None)
    }

    /// Where the index items of UUID entry `i` lie.
    fn variant_items(&self, i: usize) -> (r: Result<(usize, usize), Error>)
        requires
            self.wf(),
            uuid_table_ok(self.data()),
            i < uuids_count(self.data()),
        ensures
            r.is_ok() == variant_items(self.data(), i as int).is_some(),
            r matches Ok((off, count)) ==> variant_items(self.data(), i as int) == Some(
                (off as nat, count as nat),
            ),
            r matches Ok((off, count)) ==> off + count * 11 <= self.data().len(),
            r.is_err() ==> r == Err::<(usize, usize), Error>(Error::BadMemDb),
    {
        let ghost b = self.data();
        let us = self.field(H_UUIDS_START) as usize;
        assert(us + 20 * i + 20 <= b.len()) by (nonlinear_arith)
            requires
                i < uuids_count(b),
                us == uuids_start(b),
                us + uuids_count(b) * 20 <= b.len(),
        ;
        let vidx = read_le(&self.bytes, us + 20 * i + 16, 4);
        let vs = self.field(H_VARIANTS_START);
        let vc = self.field(H_VARIANTS_COUNT);
        if vidx >= vc || !fits(vs, vc, STORED_SLICE_SIZE as u64, self.bytes.len()) {
            return Err(Error::BadMemDb);
        }
        let vidx = vidx as usize;
        let vs = vs as usize;
        let vc = vc as usize;
        assert(vs + 8 * vidx + 8 <= vs + vc * 8) by (nonlinear_arith)
            requires
                vidx < vc,
        ;
        let p = vs + 8 * vidx;
        let off = read_le(&self.bytes, p, 5);
        proof {
            lemma_pow256_facts();
        }
        let len = read_le(&self.bytes, p + 5, 2) + 0x1_0000 * ((self.bytes[p + 7] % 128) as u64);
        let n = self.bytes.len() as u64;
        if off > n || len > n - off {
            return Err(Error::BadMemDb);
        }
        let off = off as usize;
        let len = len as usize;
        assert((len / 11) * 11 <= len) by (nonlinear_arith);
        Ok((off, len / INDEX_ITEM_SIZE))
    }

    /// Finds the item with exactly address `addr` by binary search.
    fn search_addr(&self, off: usize, count: usize, addr: u64) -> (r: Option<usize>)
        requires
            self.wf(),
            off + count * 11 <= self.data().len(),
        ensures
            r matches Some(j) ==> j < count && item_addr(self.data(), off as nat, j as int) == addr,
            items_sorted(self.data(), off as nat, count as nat) ==> r == match addr_pos(
                self.data(),
                off as nat,
                count as nat,
                addr as nat,
            ) {
                Some(j) => Some(j as usize),
                None => None::<usize>,
            },
    {
        let ghost b = self.data();
        let ghost o = off as nat;
        let mut lo: usize = 0;
        let mut hi: usize = count;
        while lo < hi
            invariant
                b == self.data(),
                self.wf(),
                off + count * 11 <= b.len(),
                lo <= hi <= count,
                o == off,
                items_sorted(b, o, count as nat) ==> forall|k: int|
                    0 <= k < lo ==> #[trigger] item_addr(b, o, k) < addr,
                items_sorted(b, o, count as nat) ==> forall|k: int|
                    hi <= k < count ==> #[trigger] item_addr(b, o, k) > addr,
            decreases hi - lo,
        {
            let mid = lo + (hi - lo) / 2;
            assert(off + 11 * mid + 11 <= b.len()) by (nonlinear_arith)
                requires
                    mid < count,
                    off + count * 11 <= b.len(),
            ;
            let a = read_le(&self.bytes, off + 11 * mid, 5);
            if a == addr {
                proof {
                    if items_sorted(b, o, count as nat) {
                        assert(0 <= mid < count && item_addr(b, o, mid as int) == addr);
                        let c = choose|j: int| 0 <= j < count && item_addr(b, o, j) == addr;
                        if c < mid {
                            assert(item_addr(b, o, c) < item_addr(b, o, mid as int));
                        } else if c > mid {
                            assert(item_addr(b, o, mid as int) < item_addr(b, o, c));
                        }
                    }
                }
                return Some(mid);
            } else if a < addr {
                proof {
                    if items_sorted(b, o, count as nat) {
                        assert forall|j: int| 0 <= j < mid + 1 implies #[trigger] item_addr(
                            b,
                            o,
                            j,
                        ) < addr by {
                            if j < mid {
                                assert(item_addr(b, o, j) < item_addr(b, o, mid as int));
                            }
                        }
                    }
                }
                lo = mid + 1;
            } else {
                proof {
                    if items_sorted(b, o, count as nat) {
                        assert forall|j: int| mid <= j < count implies #[trigger] item_addr(
                            b,
                            o,
                            j,
                        ) > addr by {
                            if j > mid {
                                assert(item_addr(b, o, mid as int) < item_addr(b, o, j));
                            }
                        }
                    }
                }
                hi = mid;
            }
        }
        proof {
            if items_sorted(b, o, count as nat) {
                assert(!exists|j: int| 0 <= j < count && item_addr(b, o, j) == addr);
            }
        }
        None
    }

    /// The symbol that index item `j` at `off` stands for.
    fn item_to_symbol(&self, off: usize, j: usize, uuid: &[u8; 16]) -> (r: Result<Symbol, Error>)
        requires
            self.wf(),
            off + 11 * j + 11 <= self.data().len(),
        ensures
            r.is_ok() == item_strings(self.data(), off as nat, j as int).is_some(),
            r matches Ok(s) ==> ({
                let t = item_strings(self.data(), off as nat, j as int).unwrap();
                &&& s.object_name@ == t.0
                &&& s.symbol@ == t.1
                &&& s.addr == item_addr(self.data(), off as nat, j as int)
                &&& s.object_uuid == *uuid
            }),
            r.is_err() ==> r == Err::<Symbol, Error>(Error::BadMemDb),
    {
        proof {
            lemma_pow256_facts();
        }
        let p = off + 11 * j;
        let addr = read_le(&self.bytes, p, 5);
        let sym_id = read_le(&self.bytes, p + 5, 3) as usize;
        let src_id = read_le(&self.bytes, p + 8, 3) as usize;
        let object_name = match self.table_string(H_NAMES_START, H_NAMES_COUNT, src_id) {
            Ok(s) => s,
            Err(e) => {
                return Err(e);
            },
        };
        let symbol = match self.table_string(H_SYMBOLS_START, H_SYMBOLS_COUNT, sym_id) {
            Ok(s) => s,
            Err(e) => {
                return Err(e);
            },
        };
        Ok(Symbol { object_uuid: *uuid, object_name, symbol, addr })
    }

    /// Loads a database from its bytes: the header must be there and have
    /// the supported version. An SDK name or build whose descriptor is out
    /// of bounds, compressed or not UTF-8 reads as empty.
    pub fn from_vec(bytes: Vec<u8>) -> (r: Result<MemDb, Error>)
        ensures
            bytes@.len() < HEADER_SIZE ==> r == Err::<MemDb, Error>(Error::BadMemDb),
            bytes@.len() >= HEADER_SIZE && version_of(bytes@) != MEMDB_VERSION ==> r == Err::<
                MemDb,
                Error,
            >(Error::UnsupportedMemDbVersion),
            bytes@.len() >= HEADER_SIZE && version_of(bytes@) == MEMDB_VERSION ==> r.is_ok(),
            r matches Ok(db) ==> db.wf() && db.data() == bytes@ && header_info_ok(
                bytes@,
                db.spec_info(),
            ),
    {
        if bytes.len() < HEADER_SIZE {
            return Err(Error::BadMemDb);
        }
        if read_le(&bytes, 0, 4) != MEMDB_VERSION as u64 {
            return Err(Error::UnsupportedMemDbVersion);
        }
        let major = read_le(&bytes, 4, 4);
        let minor = read_le(&bytes, 8, 4);
        let patch = read_le(&bytes, 12, 4);
        proof {
            lemma_pow256_facts();
        }
        let placeholder = SdkInfo {
            name: String::new(),
            version_major: 0,
            version_minor: 0,
            version_patchlevel: 0,
            build: String::new(),
            flavour: None,
        };
        let db = MemDb { bytes, info: placeholder };
        let name = match db.string_at(16) {
            Ok(s) => s,
            Err(_) => String::new(),
        };
        let build = match db.string_at(24) {
            Ok(s) => s,
            Err(_) => String::new(),
        };
        let info = SdkInfo {
            name,
            version_major: major as u32,
            version_minor: minor as u32,
            version_patchlevel: patch as u32,
            build,
            flavour: None,
        };
        Ok(MemDb { bytes: db.bytes, info })
    }

    /// Loads a database from a copy of a byte slice.
    pub fn from_slice(buffer: &[u8]) -> (r: Result<MemDb, Error>)
        ensures
            buffer@.len() < HEADER_SIZE ==> r == Err::<MemDb, Error>(Error::BadMemDb),
            buffer@.len() >= HEADER_SIZE && version_of(buffer@) != MEMDB_VERSION ==> r == Err::<
                MemDb,
                Error,
            >(Error::UnsupportedMemDbVersion),
            buffer@.len() >= HEADER_SIZE && version_of(buffer@) == MEMDB_VERSION ==> r.is_ok(),
            r matches Ok(db) ==> db.wf() && db.data() == buffer@ && header_info_ok(
                buffer@,
                db.spec_info(),
            ),
    {
        MemDb::from_vec(vstd::slice::slice_to_vec(buffer))
    }

    /// The SDK info recorded in the header.
    pub fn info(&self) -> (r: &SdkInfo)
        ensures
            *r == self.spec_info(),
    {
        &self.info
    }

    /// Finds the symbol at exactly `addr` in the image with UUID `uuid`.
    pub fn lookup_impl(&self, uuid: &[u8; 16], addr: u64) -> (r: Result<Option<Symbol>, Error>)
        requires
            self.wf(),
        ensures
            r.is_err() ==> r == Err::<Option<Symbol>, Error>(Error::BadMemDb),
            r matches Ok(Some(s)) ==> s.addr == addr && s.object_uuid == *uuid,
            db_sorted(self.data()) ==> match (
                r,
                lookup_spec(self.data(), be(uuid@, 0, 16), addr as nat),
            ) {
                (Err(_), Err(_)) => true,
                (Ok(None), Ok(None)) => true,
                (Ok(Some(s)), Ok(Some(t))) => s.object_name@ == t.0 && s.symbol@ == t.1,
                _ => false,
            },
    {
        let ghost b = self.data();
        let ghost key = be(uuid@, 0, 16);
        let (off, count) = match self.get_index(uuid) {
            Err(e) => {
                return Err(e);
            },
            Ok(None) => {
                return Ok(None);
            },
            Ok(Some(x)) => x,
        };
        proof {
            if db_sorted(b) {
                let i = uuid_pos(b, key).unwrap();
                assert(variant_items(b, i).is_some());
                assert(0 <= i < uuids_count(b));
                assert(items_sorted(b, off as nat, count as nat));
            }
        }
        match self.search_addr(off, count, addr) {
            None => Ok(None),
            Some(j) => {
                assert(off + 11 * j + 11 <= self.data().len()) by (nonlinear_arith)
                    requires
                        j < count,
                        off + count * 11 <= self.data().len(),
                ;
                match self.item_to_symbol(off, j, uuid) {
                    Ok(s) => Ok(Some(s)),
                    Err(e) => Err(e),
                }
            },
        }
    }

    /// Finds a symbol by UUID and address; `None` where there is none or
    /// the file is inconsistent on the way.
    pub fn lookup_by_uuid(&self, uuid: &[u8; 16], addr: u64) -> (r: Option<Symbol>)
        requires
            self.wf(),
        ensures
            r matches Some(s) ==> s.addr == addr && s.object_uuid == *uuid,
            db_sorted(self.data()) ==> match (
                r,
                lookup_spec(self.data(), be(uuid@, 0, 16), addr as nat),
            ) {
                (None, Ok(None)) => true,
                (None, Err(_)) => true,
                (Some(s), Ok(Some(t))) => s.object_name@ == t.0 && s.symbol@ == t.1,
                _ => false,
            },
    {
        match self.lookup_impl(uuid, addr) {
            Ok(Some(s)) => Some(s),
            _ => None,
        }
    }

    fn read_uuid(&self, p: usize) -> (r: [u8; 16])
        requires
            self.wf(),
            p + 16 <= self.data().len(),
        ensures
            r@ == self.data().subrange(p as int, p + 16),
    {
        let b = &self.bytes;
        let r = [
            b[p],
            b[p + 1],
            b[p + 2],
            b[p + 3],
            b[p + 4],
            b[p + 5],
            b[p + 6],
            b[p + 7],
            b[p + 8],
            b[p + 9],
            b[p + 10],
            b[p + 11],
            b[p + 12],
            b[p + 13],
            b[p + 14],
            b[p + 15],
        ];
        assert(r@ =~= self.data().subrange(p as int, p + 16));
        r
    }

    /// Given an object name and architecture, finds the image UUID: the
    /// first tagged name `"<name>:<arch>"` gives the position in the UUID
    /// table.
    pub fn find_uuid(&self, object_name: &str, arch: &str) -> (r: Result<Option<[u8; 16]>, Error>)
        requires
            self.wf(),
        ensures
            r.is_err() ==> r == Err::<Option<[u8; 16]>, Error>(Error::BadMemDb),
            match (r, find_uuid_spec(self.data(), object_name@, arch@)) {
                (Err(_), Err(_)) => true,
                (Ok(None), Ok(None)) => true,
                (Ok(Some(u)), Ok(Some(v))) => u@ == v,
                _ => false,
            },
    {
        let ghost b = self.data();
        let mut tag = String::new();
        tag.append(object_name);
        tag.append(":");
        tag.append(arch);
        proof {
            reveal_strlit(":");
            assert(tag@ == object_name@ + seq![':'] + arch@);
        }
        let t = tag.as_str().as_bytes();
        let ghost target = tag_bytes(object_name@, arch@);
        assert(t@ == target);
        let n = self.bytes.len();
        let start = self.field(H_TAGGED_START);
        let end = self.field(H_TAGGED_END);
        let mut off: u64 = start;
        let mut idx: usize = 0;
        while off < end
            invariant
                b == self.data(),
                self.wf(),
                n == b.len(),
                t@ == target,
                target == tag_bytes(object_name@, arch@),
                end == field(b, H_TAGGED_END),
                start == field(b, H_TAGGED_START),
                idx <= off,
                find_tagged(b, start as int, end as int, target, 0) == find_tagged(
                    b,
                    off as int,
                    end as int,
                    target,
                    idx as int,
                ),
            decreases n as int - off as int,
        {
            if off >= n as u64 {
                assert(nul_from(b, off as int) == -1);
                assert(find_tagged(b, off as int, end as int, target, idx as int).is_err());
                return Err(Error::BadMemDb);
            }
            let o = off as usize;
            let z = match self.scan_nul(o) {
                Some(z) => z,
                None => {
                    assert(find_tagged(b, off as int, end as int, target, idx as int).is_err());
                    return Err(Error::BadMemDb);
                },
            };
            if utf8_string(&self.bytes, o, z).is_none() {
                assert(find_tagged(b, off as int, end as int, target, idx as int).is_err());
                return Err(Error::BadMemDb);
            }
            if self.bytes_eq(o, z, t) {
                assert(find_tagged(b, off as int, end as int, target, idx as int) == Ok::<
                    Option<int>,
                    (),
                >(Some(idx as int)));
                let us = self.field(H_UUIDS_START);
                let uc = self.field(H_UUIDS_COUNT);
                if idx as u64 >= uc || !fits(us, uc, INDEXED_UUID_SIZE as u64, n) {
                    return Err(Error::BadMemDb);
                }
                let us = us as usize;
                assert(us + 20 * idx + 16 <= b.len()) by (nonlinear_arith)
                    requires
                        idx < uc,
                        us + uc * 20 <= b.len(),
                ;
                return Ok(Some(self.read_uuid(us + 20 * idx)));
            }
            off = z as u64 + 1;
            idx += 1;
        }
        Ok(None)
    }

    /// The first 0 byte at or after `i`.
    fn scan_nul(&self, i: usize) -> (r: Option<usize>)
        requires
            self.wf(),
            i < self.data().len(),
        ensures
            r.is_none() ==> nul_from(self.data(), i as int) == -1,
            r matches Some(z) ==> z == nul_from(self.data(), i as int) && i <= z < self.data().len(),
    {
        let mut k = i;
        while k < self.bytes.len()
            invariant
                i <= k <= self.data().len(),
                nul_from(self.data(), k as int) == nul_from(self.data(), i as int),
            decreases self.data().len() - k,
        {
            if self.bytes[k] == 0 {
                return Some(k);
            }
            k += 1;
        }
        None
    }

    /// Whether `data[i..j]` holds exactly the bytes of `t`.
    fn bytes_eq(&self, i: usize, j: usize, t: &[u8]) -> (r: bool)
        requires
            i <= j <= self.data().len(),
        ensures
            r == (self.data().subrange(i as int, j as int) == t@),
    {
        if j - i != t.len() {
            return false;
        }
        let mut k: usize = 0;
        while k < t.len()
            invariant
                i <= j <= self.data().len(),
                j - i == t@.len(),
                k <= t@.len(),
                forall|m: int| 0 <= m < k ==> self.data()[i + m] == t@[m],
            decreases t@.len() - k,
        {
            if self.bytes[i + k] != t[k] {
                assert(self.data().subrange(i as int, j as int)[k as int] != t@[k as int]);
                return false;
            }
            k += 1;
        }
        assert(self.data().subrange(i as int, j as int) =~= t@);
        true
    }

    /// Finds a UUID given the text of a UUID or `"<name>:<arch>"`, and what
    /// that text parsed to as a UUID.
    pub fn find_uuid_fuzzy_parsed(&self, name_or_uuid: &str, parsed: Option<[u8; 16]>) -> (r: Result<
        Option<[u8; 16]>,
        Error,
    >)
        requires
            self.wf(),
        ensures
            r.is_err() ==> r == Err::<Option<[u8; 16]>, Error>(Error::BadMemDb),
            uuids_sorted(self.data()) ==> match (
                r,
                fuzzy_spec(self.data(), name_or_uuid@, opt_view(parsed)),
            ) {
                (Err(_), Err(_)) => true,
                (Ok(None), Ok(None)) => true,
                (Ok(Some(u)), Ok(Some(v))) => u@ == v,
                _ => false,
            },
    {
        match parsed {
            Some(u) => {
                match self.search_uuid(uuid_key(&u)) {
                    Err(e) => Err(e),
                    Ok(Some(_)) => Ok(Some(u)),
                    Ok(None) => Ok(None),
                }
            },
            None => {
                let s = chars_of(name_or_uuid);
                let n = s.len();
                match rfind_char(&s, ':', n) {
                    None => Ok(None),
                    Some(c) => {
                        let name = name_or_uuid.substring_char(0, c);
                        let arch = name_or_uuid.substring_char(c + 1, n);
                        self.find_uuid(name, arch)
                    },
                }
            },
        }
    }

    /// Finds a UUID given the text of a UUID or `"<name>:<arch>"`. The
    /// hyphenated form of a UUID is read as that UUID.
    pub fn find_uuid_fuzzy(&self, name_or_uuid: &str) -> (r: Result<Option<[u8; 16]>, Error>)
        requires
            self.wf(),
        ensures
            r.is_err() ==> r == Err::<Option<[u8; 16]>, Error>(Error::BadMemDb),
            forall|u: Seq<u8>|
                u.len() == 16 && name_or_uuid@ == #[trigger] hyphenated(u) && uuids_sorted(
                    self.data(),
                ) ==> match (r, fuzzy_spec(self.data(), name_or_uuid@, Some(u))) {
                    (Err(_), Err(_)) => true,
                    (Ok(None), Ok(None)) => true,
                    (Ok(Some(x)), Ok(Some(v))) => x@ == v,
                    _ => false,
                },
            uuids_sorted(self.data()) ==> match (
                r,
                fuzzy_spec(self.data(), name_or_uuid@, uuid_text_of(name_or_uuid@)),
            ) {
                (Err(_), Err(_)) => true,
                (Ok(None), Ok(None)) => true,
                (Ok(Some(x)), Ok(Some(v))) => x@ == v,
                _ => false,
            },
    {
        let parsed = parse_uuid(name_or_uuid);
        self.find_uuid_fuzzy_parsed(name_or_uuid, parsed)
    }

    /// Finds a symbol by object name, architecture and address.
    pub fn lookup_by_object_name(&self, object_name: &str, arch: &str, addr: u64) -> (r: Option<
        Symbol,
    >)
        requires
            self.wf(),
        ensures
            r matches Some(s) ==> s.addr == addr,
            db_sorted(self.data()) ==> match find_uuid_spec(self.data(), object_name@, arch@) {
                Ok(Some(v)) => match (r, lookup_spec(self.data(), be(v, 0, 16), addr as nat)) {
                    (None, Ok(None)) => true,
                    (None, Err(_)) => true,
                    (Some(s), Ok(Some(t))) => s.object_name@ == t.0 && s.symbol@ == t.1
                        && s.object_uuid@ == v,
                    _ => false,
                },
                _ => r.is_none(),
            },
    {
        match self.find_uuid(object_name, arch) {
            Ok(Some(uuid)) => match self.lookup_impl(&uuid, addr) {
                Ok(Some(s)) => Some(s),
                _ => None,
            },
            _ => None,
        }
    }

    /// All symbols of the image with UUID `uuid`, in address order.
    #[verifier::rlimit(50)]
    pub fn iter_symbols(&self, uuid: &[u8; 16]) -> (r: Result<Vec<Symbol>, Error>)
        requires
            self.wf(),
        ensures
            r.is_err() ==> r == Err::<Vec<Symbol>, Error>(Error::BadMemDb),
            uuids_sorted(self.data()) ==> match index_spec(self.data(), be(uuid@, 0, 16)) {
                Err(_) => r.is_err(),
                Ok(None) => r matches Ok(v) && v.len() == 0,
                Ok(Some((off, count))) => (r.is_ok() <==> forall|j: int|
                    0 <= j < count ==> (#[trigger] item_strings(self.data(), off, j)).is_some())
                    && (r matches Ok(v) ==> v.len() == count && forall|j: int|
                    0 <= j < count ==> {
                        let t = item_strings(self.data(), off, j).unwrap();
                        &&& (#[trigger] v@[j]).object_name@ == t.0
                        &&& v@[j].symbol@ == t.1
                        &&& v@[j].addr == item_addr(self.data(), off, j)
                        &&& v@[j].object_uuid == *uuid
                    }),
            },
    {
        let mut out: Vec<Symbol> = Vec::new();
        let (off, count) = match self.get_index(uuid) {
            Err(e) => {
                return Err(e);
            },
            Ok(None) => {
                return Ok(out);
            },
            Ok(Some(x)) => x,
        };
        let ghost o = off as nat;
        let mut j: usize = 0;
        while j < count
            invariant
                self.wf(),
                j <= count,
                off + count * 11 <= self.data().len(),
                o == off,
                uuids_sorted(self.data()) ==> index_spec(self.data(), be(uuid@, 0, 16)) == Ok::<
                    Option<(nat, nat)>,
                    (),
                >(Some((o, count as nat))),
                out@.len() == j,
                forall|m: int| 0 <= m < j ==> (#[trigger] item_strings(self.data(), o, m)).is_some(),
                forall|m: int|
                    0 <= m < j ==> {
                        let t = item_strings(self.data(), o, m).unwrap();
                        &&& (#[trigger] out@[m]).object_name@ == t.0
                        &&& out@[m].symbol@ == t.1
                        &&& out@[m].addr == item_addr(self.data(), o, m)
                        &&& out@[m].object_uuid == *uuid
                    },
            decreases count - j,
        {
            assert(off + 11 * j + 11 <= self.data().len()) by (nonlinear_arith)
                requires
                    j < count,
                    off + count * 11 <= self.data().len(),
            ;
            match self.item_to_symbol(off, j, uuid) {
                Ok(s) => out.push(s),
                Err(e) => {
                    assert(item_strings(self.data(), o, j as int).is_none());
                    return Err(e);
                },
            }
            j += 1;
        }
        Ok(out)
    }

    /// Finds the index-item array of a UUID.
    fn get_index(&self, uuid: &[u8; 16]) -> (r: Result<Option<(usize, usize)>, Error>)
        requires
            self.wf(),
        ensures
            r.is_err() ==> r == Err::<Option<(usize, usize)>, Error>(Error::BadMemDb),
            r matches Ok(Some((off, count))) ==> off + count * 11 <= self.data().len(),
            uuids_sorted(self.data()) ==> match (r, index_spec(self.data(), be(uuid@, 0, 16))) {
                (Err(_), Err(_)) => true,
                (Ok(None), Ok(None)) => true,
                (Ok(Some((o, c))), Ok(Some((o2, c2)))) => o == o2 && c == c2,
                _ => false,
            },
    {
        let key = uuid_key(uuid);
        match self.search_uuid(key)? {
            None => Ok(None),
            Some(i) => {
                let (off, count) = self.variant_items(i)?;
                Ok(Some((off, count)))
            },
        }
    }
}

} // verus!
