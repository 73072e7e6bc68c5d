//! Properties that relate the library's operations.
use vstd::prelude::*;

use crate::memdb::{
    addr_pos, find_uuid_spec, fuzzy_spec, index_spec, item_addr, items_sorted, lookup_spec,
    uuid_key_at, uuid_pos, uuid_table_ok, uuids_count, uuids_sorted, variant_items,
};
use crate::schema::be;
use crate::sdk::rfind_before;
use crate::uuids::hyphenated;
use crate::memdb::{tag_bytes, uuid_bytes, uuid_entry};
use crate::writer::{
    first_tag, index_written, str_bytes, tags_nul_free,
    covers, first_at, images_ascending, items_ascending, key_of, lemma_be_window,
    lemma_key_injective, Writer,
};

verus! {

/// A writer's images are strictly ascending by raw UUID bytes, and every
/// image's index items strictly ascending by address.
pub proof fn law_writer_tables_ascending(w: Writer)
    requires
        w.wf(),
    ensures
        images_ascending(w.images()),
        forall|i: int| 0 <= i < w.images().len() ==> items_ascending(#[trigger] w.images()[i].items@),
{
}

/// Round trip: once a writer holds the symbols of an image, the file it
/// writes answers a lookup of the image's UUID and the address of a symbol
/// (the first one reported there) with that symbol and the image's object
/// name.
pub proof fn law_round_trip(
    w: Writer,
    b: Seq<u8>,
    u: [u8; 16],
    input: Seq<(u64, String)>,
    name: Seq<char>,
    m: int,
)
    requires
        w.answered_by(b),
        w.image_of(u).is_some(),
        covers(w.image_of(u).unwrap().items@, w.symbols(), input, input.len() as int),
        forall|j: int|
            0 <= j < w.image_of(u).unwrap().items@.len() ==> w.object_names()[(
            #[trigger] w.image_of(u).unwrap().items@[j]).src_id as int]@ == name,
        0 <= m < input.len(),
        first_at(input, m),
    ensures
        lookup_spec(b, key_of(u), input[m].0 as nat) == Ok::<Option<(Seq<char>, Seq<char>)>, ()>(
            Some((name, input[m].1@)),
        ),
{
    reveal(covers);
    let img = w.image_of(u).unwrap();
    let c = choose|i: int| 0 <= i < w.images().len() && w.images()[i].uuid == u;
    assert(w.images()[c] == img);
    let j = choose|j: int|
        0 <= j < img.items@.len() && (#[trigger] img.items@[j]).addr == (#[trigger] input[m]).0
            && w.symbols()[img.items@[j].sym_id as int]@ == input[m].1@;
    assert(w.object_names()[img.items@[j].src_id as int]@ == name);
    assert(lookup_spec(b, key_of(w.images()[c].uuid), w.images()[c].items@[j].addr as nat)
        == Ok::<Option<(Seq<char>, Seq<char>)>, ()>(
        Some(
            (
                w.object_names()[w.images()[c].items@[j].src_id as int]@,
                w.symbols()[w.images()[c].items@[j].sym_id as int]@,
            ),
        ),
    ));
}

/// A file as `finish` writes it for `w`: its UUID table holds the images'
/// UUIDs in order and each entry indexes exactly its image's items.
pub open spec fn written_for(w: Writer, b: Seq<u8>) -> bool {
    &&& uuid_table_ok(b)
    &&& uuids_sorted(b)
    &&& uuids_count(b) == w.images().len()
    &&& forall|k: int|
        0 <= k < w.images().len() ==> uuid_bytes(b, k) == (#[trigger] w.images()[k]).uuid@
    &&& w.indexes_written(b)
}

proof fn lemma_written_key(w: Writer, b: Seq<u8>, k: int)
    requires
        written_for(w, b),
        0 <= k < w.images().len(),
    ensures
        uuid_key_at(b, k) == key_of(w.images()[k].uuid),
{
    assert(uuid_bytes(b, k) == w.images()[k].uuid@);
    lemma_be_window(b, uuid_entry(b, k), 16);
}

/// A file written for `w` resolves `"<name>:<arch>"` to the UUID of the
/// first image with that tagged name.
pub proof fn law_written_alias(w: Writer, b: Seq<u8>, m: int, name: Seq<char>, arch: Seq<char>)
    requires
        written_for(w, b),
        w.tags_written(b),
        tags_nul_free(w.images()),
        0 <= m < w.images().len(),
        w.images()[m].tag@ == name + seq![':'] + arch,
        first_tag(w.images(), m),
    ensures
        find_uuid_spec(b, name, arch) == Ok::<Option<Seq<u8>>, ()>(Some(w.images()[m].uuid@)),
{
    assert(tag_bytes(name, arch) == str_bytes(w.images()[m].tag));
    assert(uuid_bytes(b, m) == w.images()[m].uuid@);
}

/// A file written for `w` finds nothing under a UUID that `w` holds no
/// image for.
pub proof fn law_unwritten_uuid_misses(w: Writer, b: Seq<u8>, u: [u8; 16], addr: nat)
    requires
        written_for(w, b),
        w.image_of(u).is_none(),
    ensures
        lookup_spec(b, key_of(u), addr) == Ok::<Option<(Seq<char>, Seq<char>)>, ()>(None),
{
    assert forall|i: int| 0 <= i < uuids_count(b) implies uuid_key_at(b, i) != key_of(u) by {
        lemma_written_key(w, b, i);
        if uuid_key_at(b, i) == key_of(u) {
            lemma_key_injective(w.images()[i].uuid, u);
        }
    }
}

/// A file written for `w` finds nothing under an image's UUID at an
/// address that none of the image's items has: no range match.
pub proof fn law_unwritten_address_misses(w: Writer, b: Seq<u8>, u: [u8; 16], addr: nat)
    requires
        written_for(w, b),
        w.image_of(u).is_some(),
        forall|j: int|
            0 <= j < w.image_of(u).unwrap().items@.len() ==> (#[trigger] w.image_of(
                u,
            ).unwrap().items@[j]).addr != addr,
    ensures
        lookup_spec(b, key_of(u), addr) == Ok::<Option<(Seq<char>, Seq<char>)>, ()>(None),
{
    let c = choose|i: int| 0 <= i < w.images().len() && w.images()[i].uuid == u;
    lemma_written_key(w, b, c);
    let key = key_of(u);
    let d = choose|i: int| 0 <= i < uuids_count(b) && uuid_key_at(b, i) == key;
    if d < c {
        assert(uuid_key_at(b, d) < uuid_key_at(b, c));
    } else if d > c {
        assert(uuid_key_at(b, c) < uuid_key_at(b, d));
    }
    assert(uuid_pos(b, key) == Some(c));
    let items = w.images()[c].items@;
    assert(index_written(b, items, c));
    let (off, cnt) = variant_items(b, c).unwrap();
    assert forall|j: int| 0 <= j < cnt implies item_addr(b, off, j) != addr by {
        assert(item_addr(b, off, j) == items[j].addr);
        assert(items[j] == w.image_of(u).unwrap().items@[j]);
    }
}

/// The first symbol of `input` at the address of symbol `m`.
proof fn lemma_first_at(input: Seq<(u64, String)>, m: int) -> (f: int)
    requires
        0 <= m < input.len(),
    ensures
        0 <= f <= m,
        input[f].0 == input[m].0,
        first_at(input, f),
    decreases m,
{
    if exists|k: int| 0 <= k < m && input[k].0 == input[m].0 {
        let k = choose|k: int| 0 <= k < m && input[k].0 == input[m].0;
        lemma_first_at(input, k)
    } else {
        m
    }
}

/// Round trip, both ways: for an image the writer holds, the written file
/// finds a symbol at an address exactly when the image's input had one
/// there, and then the first one reported there, with the image's name.
pub proof fn law_round_trip_exact(
    w: Writer,
    b: Seq<u8>,
    u: [u8; 16],
    input: Seq<(u64, String)>,
    name: Seq<char>,
    a: u64,
)
    requires
        w.answered_by(b),
        written_for(w, b),
        w.image_of(u).is_some(),
        covers(w.image_of(u).unwrap().items@, w.symbols(), input, input.len() as int),
        forall|j: int|
            0 <= j < w.image_of(u).unwrap().items@.len() ==> w.object_names()[(
            #[trigger] w.image_of(u).unwrap().items@[j]).src_id as int]@ == name,
    ensures
        (exists|m: int| 0 <= m < input.len() && input[m].0 == a) ==> exists|m: int|
            0 <= m < input.len() && input[m].0 == a && first_at(input, m) && lookup_spec(
                b,
                key_of(u),
                a as nat,
            ) == Ok::<Option<(Seq<char>, Seq<char>)>, ()>(Some((name, input[m].1@))),
        !(exists|m: int| 0 <= m < input.len() && input[m].0 == a) ==> lookup_spec(
            b,
            key_of(u),
            a as nat,
        ) == Ok::<Option<(Seq<char>, Seq<char>)>, ()>(None),
{
    if exists|m: int| 0 <= m < input.len() && input[m].0 == a {
        let m0 = choose|m: int| 0 <= m < input.len() && input[m].0 == a;
        let f = lemma_first_at(input, m0);
        law_round_trip(w, b, u, input, name, f);
    } else {
        reveal(covers);
        let items = w.image_of(u).unwrap().items@;
        assert forall|j: int| 0 <= j < items.len() implies (#[trigger] items[j]).addr != a by {
            let m = choose|m: int| 0 <= m < input.len() && items[j].addr == (#[trigger] input[m]).0;
        }
        law_unwritten_address_misses(w, b, u, a as nat);
    }
}

/// In a file whose UUID table is ascending, the text form of a UUID that
/// the table holds finds that UUID.
pub proof fn law_uuid_text_finds_itself(b: Seq<u8>, u: Seq<u8>, i: int)
    requires
        u.len() == 16,
        uuid_table_ok(b),
        uuids_sorted(b),
        0 <= i < uuids_count(b),
        uuid_key_at(b, i) == be(u, 0, 16),
    ensures
        fuzzy_spec(b, hyphenated(u), Some(u)) == Ok::<Option<Seq<u8>>, ()>(Some(u)),
{
    assert(uuid_pos(b, be(u, 0, 16)).is_some());
}

proof fn lemma_last_colon(name: Seq<char>, arch: Seq<char>, end: int)
    requires
        forall|k: int| 0 <= k < arch.len() ==> arch[k] != ':',
        name.len() + 1 <= end <= name.len() + 1 + arch.len(),
    ensures
        rfind_before(name + seq![':'] + arch, ':', end) == name.len(),
    decreases end,
{
    let s = name + seq![':'] + arch;
    if end > name.len() + 1 {
        assert(s[end - 1] == arch[end - 1 - name.len() - 1]);
        lemma_last_colon(name, arch, end - 1);
    } else {
        assert(s[end - 1] == ':');
    }
}

/// A tagged name `"<name>:<arch>"`, whose architecture holds no `:`, that
/// is not a UUID's text resolves as the name lookup does.
pub proof fn law_tagged_name_finds_uuid(b: Seq<u8>, name: Seq<char>, arch: Seq<char>)
    requires
        forall|k: int| 0 <= k < arch.len() ==> arch[k] != ':',
    ensures
        fuzzy_spec(b, name + seq![':'] + arch, None) == find_uuid_spec(b, name, arch),
{
    let s = name + seq![':'] + arch;
    lemma_last_colon(name, arch, s.len() as int);
    assert(s.subrange(0, name.len() as int) =~= name);
    assert(s.subrange(name.len() as int + 1, s.len() as int) =~= arch);
}

/// In an ascending index, an item's own address finds exactly that item.
pub proof fn law_exact_address(b: Seq<u8>, off: nat, count: nat, j: int)
    requires
        items_sorted(b, off, count),
        0 <= j < count,
    ensures
        addr_pos(b, off, count, item_addr(b, off, j)) == Some(j),
{
    let a = item_addr(b, off, j);
    let c = choose|c: int| 0 <= c < count && item_addr(b, off, c) == a;
    if c < j {
        assert(item_addr(b, off, c) < item_addr(b, off, j));
    } else if c > j {
        assert(item_addr(b, off, j) < item_addr(b, off, c));
    }
}

/// An address that no item holds finds nothing.
pub proof fn law_other_address(b: Seq<u8>, off: nat, count: nat, a: nat)
    requires
        forall|j: int| 0 <= j < count ==> item_addr(b, off, j) != a,
    ensures
        addr_pos(b, off, count, a).is_none(),
{
}

/// A UUID the table does not hold is not found: not an error.
pub proof fn law_unknown_uuid(b: Seq<u8>, key: nat, addr: nat)
    requires
        uuid_table_ok(b),
        forall|i: int| 0 <= i < uuids_count(b) ==> uuid_key_at(b, i) != key,
    ensures
        lookup_spec(b, key, addr) == Ok::<Option<(Seq<char>, Seq<char>)>, ()>(None),
        index_spec(b, key) == Ok::<Option<(nat, nat)>, ()>(None),
{
}

/// An index-item array that lies past the end of the file makes the
/// lookup of its UUID fail.
pub proof fn law_index_out_of_bounds(b: Seq<u8>, key: nat, addr: nat)
    requires
        uuid_table_ok(b),
        uuid_pos(b, key).is_some(),
        variant_items(b, uuid_pos(b, key).unwrap()).is_none(),
    ensures
        lookup_spec(b, key, addr).is_err(),
        index_spec(b, key).is_err(),
{
}

} // verus!
