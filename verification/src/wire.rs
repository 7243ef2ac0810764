//! The bytes a packet table travels as.
//!
//! A table is a list of named byte strings. On the wire it is what
//! `bincode::serialize` (bincode 1.3, its default configuration) writes for a
//! `Vec<(String, Vec<u8>)>`: the number of entries as a little-endian `u64`,
//! then each entry as the byte length of its name (`u64`), the name's UTF-8
//! bytes, the length of its data (`u64`) and the data.

use vstd::prelude::*;
use vstd::utf8::*;

verus! {

/// One entry of a table: the name's characters and the data bytes.
pub type WireEntry = (Seq<char>, Seq<u8>);

/// The eight bytes of `n`, least significant first.
pub open spec fn le_u64(n: u64) -> Seq<u8> {
    seq![
        n as u8,
        (n >> 8u64) as u8,
        (n >> 16u64) as u8,
        (n >> 24u64) as u8,
        (n >> 32u64) as u8,
        (n >> 40u64) as u8,
        (n >> 48u64) as u8,
        (n >> 56u64) as u8,
    ]
}

/// A length as bincode writes it.
pub open spec fn len_prefix(n: nat) -> Seq<u8> {
    le_u64(n as u64)
}

/// The bytes of one entry.
pub open spec fn entry_wire(e: WireEntry) -> Seq<u8> {
    len_prefix(encode_utf8(e.0).len()) + encode_utf8(e.0) + len_prefix(e.1.len()) + e.1
}

/// The bytes of a run of entries, one after the other.
pub open spec fn entries_wire(s: Seq<WireEntry>) -> Seq<u8>
    decreases s.len(),
{
    if s.len() == 0 {
        Seq::empty()
    } else {
        entry_wire(s[0]) + entries_wire(s.drop_first())
    }
}

/// The bytes of a whole table.
pub open spec fn table_wire(s: Seq<WireEntry>) -> Seq<u8> {
    len_prefix(s.len()) + entries_wire(s)
}

/// Every length in the entry fits the `u64` it is written as.
pub open spec fn entry_fits(e: WireEntry) -> bool {
    encode_utf8(e.0).len() <= u64::MAX && e.1.len() <= u64::MAX
}

/// Every length in the table fits the `u64` it is written as (true of any table held in memory).
pub open spec fn wire_ok(s: Seq<WireEntry>) -> bool {
    &&& s.len() <= u64::MAX
    &&& forall|i: int| 0 <= i < s.len() ==> entry_fits(#[trigger] s[i])
}

/// The bytes begin with the wire form of some table.
pub open spec fn is_table_wire(bytes: Seq<u8>) -> bool {
    exists|s: Seq<WireEntry>| wire_ok(s) && #[trigger] table_wire(s).is_prefix_of(bytes)
}

/// The table whose wire form the bytes begin with (there is at most one: see
/// `lemma_table_wire_unique`).
pub open spec fn wire_table(bytes: Seq<u8>) -> Seq<WireEntry> {
    choose|s: Seq<WireEntry>| wire_ok(s) && #[trigger] table_wire(s).is_prefix_of(bytes)
}

/// The entries of a list of (name, data) pairs.
pub open spec fn pairs_view(v: Seq<(String, Vec<u8>)>) -> Seq<WireEntry> {
    v.map_values(|p: (String, Vec<u8>)| (p.0@, p.1@))
}

proof fn lemma_le_u64_injective(a: u64, b: u64)
    requires
        le_u64(a) == le_u64(b),
    ensures
        a == b,
{
    assert(le_u64(a)[0] == le_u64(b)[0]);
    assert(le_u64(a)[1] == le_u64(b)[1]);
    assert(le_u64(a)[2] == le_u64(b)[2]);
    assert(le_u64(a)[3] == le_u64(b)[3]);
    assert(le_u64(a)[4] == le_u64(b)[4]);
    assert(le_u64(a)[5] == le_u64(b)[5]);
    assert(le_u64(a)[6] == le_u64(b)[6]);
    assert(le_u64(a)[7] == le_u64(b)[7]);
    assert(a == b) by (bit_vector)
        requires
            a as u8 == b as u8,
            (a >> 8u64) as u8 == (b >> 8u64) as u8,
            (a >> 16u64) as u8 == (b >> 16u64) as u8,
            (a >> 24u64) as u8 == (b >> 24u64) as u8,
            (a >> 32u64) as u8 == (b >> 32u64) as u8,
            (a >> 40u64) as u8 == (b >> 40u64) as u8,
            (a >> 48u64) as u8 == (b >> 48u64) as u8,
            (a >> 56u64) as u8 == (b >> 56u64) as u8,
    ;
}

proof fn lemma_len_prefix_injective(m: nat, n: nat)
    requires
        m <= u64::MAX,
        n <= u64::MAX,
        len_prefix(m) == len_prefix(n),
    ensures
        m == n,
{
    lemma_le_u64_injective(m as u64, n as u64);
}

/// If `x + y` begins `b`, then `x` begins `b` and `y` begins what follows it.
proof fn lemma_prefix_split(x: Seq<u8>, y: Seq<u8>, b: Seq<u8>)
    requires
        (x + y).is_prefix_of(b),
    ensures
        x.is_prefix_of(b),
        y.is_prefix_of(b.skip(x.len() as int)),
{
    assert(x =~= (x + y).subrange(0, x.len() as int));
    assert(y =~= (x + y).subrange(x.len() as int, (x + y).len() as int));
    assert(x =~= b.subrange(0, x.len() as int));
    assert(y =~= b.skip(x.len() as int).subrange(0, y.len() as int));
}

/// Two prefixes of one sequence with the same length are equal.
proof fn lemma_prefix_same_len(x: Seq<u8>, y: Seq<u8>, b: Seq<u8>)
    requires
        x.is_prefix_of(b),
        y.is_prefix_of(b),
        x.len() == y.len(),
    ensures
        x == y,
{
    assert(x =~= y);
}

proof fn lemma_entry_wire_unique(e1: WireEntry, e2: WireEntry, b: Seq<u8>)
    requires
        entry_fits(e1),
        entry_fits(e2),
        entry_wire(e1).is_prefix_of(b),
        entry_wire(e2).is_prefix_of(b),
    ensures
        e1 == e2,
{
    let n1 = encode_utf8(e1.0);
    let n2 = encode_utf8(e2.0);
    let p1 = len_prefix(n1.len());
    let p2 = len_prefix(n2.len());
    let q1 = len_prefix(e1.1.len());
    let q2 = len_prefix(e2.1.len());
    assert(entry_wire(e1) == ((p1 + n1) + q1) + e1.1);
    assert(entry_wire(e2) == ((p2 + n2) + q2) + e2.1);
    lemma_prefix_split((p1 + n1) + q1, e1.1, b);
    lemma_prefix_split(p1 + n1, q1, b);
    lemma_prefix_split(p1, n1, b);
    lemma_prefix_split((p2 + n2) + q2, e2.1, b);
    lemma_prefix_split(p2 + n2, q2, b);
    lemma_prefix_split(p2, n2, b);
    lemma_prefix_same_len(p1, p2, b);
    lemma_len_prefix_injective(n1.len(), n2.len());
    let b1 = b.skip(8);
    lemma_prefix_same_len(n1, n2, b1);
    encode_utf8_decode_utf8(e1.0);
    encode_utf8_decode_utf8(e2.0);
    let b2 = b.skip(8 + n1.len() as int);
    assert(b1.skip(n1.len() as int) =~= b2);
    assert((p1 + n1).len() == 8 + n1.len());
    assert(b.skip((p1 + n1).len() as int) =~= b2);
    lemma_prefix_same_len(q1, q2, b2);
    lemma_len_prefix_injective(e1.1.len(), e2.1.len());
    let b3 = b.skip(16 + n1.len() as int);
    assert(b.skip(((p1 + n1) + q1).len() as int) =~= b3);
    assert(b.skip(((p2 + n2) + q2).len() as int) =~= b3);
    lemma_prefix_same_len(e1.1, e2.1, b3);
}

proof fn lemma_entries_wire_unique(s1: Seq<WireEntry>, s2: Seq<WireEntry>, b: Seq<u8>)
    requires
        s1.len() == s2.len(),
        forall|i: int| 0 <= i < s1.len() ==> entry_fits(#[trigger] s1[i]),
        forall|i: int| 0 <= i < s2.len() ==> entry_fits(#[trigger] s2[i]),
        entries_wire(s1).is_prefix_of(b),
        entries_wire(s2).is_prefix_of(b),
    ensures
        s1 == s2,
    decreases s1.len(),
{
    if s1.len() == 0 {
        assert(s1 =~= s2);
    } else {
        let r1 = s1.drop_first();
        let r2 = s2.drop_first();
        lemma_prefix_split(entry_wire(s1[0]), entries_wire(r1), b);
        lemma_prefix_split(entry_wire(s2[0]), entries_wire(r2), b);
        lemma_entry_wire_unique(s1[0], s2[0], b);
        let rest = b.skip(entry_wire(s1[0]).len() as int);
        assert forall|i: int| 0 <= i < r1.len() implies entry_fits(#[trigger] r1[i]) by {
            assert(r1[i] == s1[i + 1]);
        }
        assert forall|i: int| 0 <= i < r2.len() implies entry_fits(#[trigger] r2[i]) by {
            assert(r2[i] == s2[i + 1]);
        }
        lemma_entries_wire_unique(r1, r2, rest);
        assert(s1 =~= s2) by {
            assert(s1 == seq![s1[0]] + r1);
            assert(s2 == seq![s2[0]] + r2);
        }
    }
}

/// The wire form is prefix-free: at most one table's wire form begins any byte string.
pub proof fn lemma_table_wire_unique(s1: Seq<WireEntry>, s2: Seq<WireEntry>, b: Seq<u8>)
    requires
        wire_ok(s1),
        wire_ok(s2),
        table_wire(s1).is_prefix_of(b),
        table_wire(s2).is_prefix_of(b),
    ensures
        s1 == s2,
{
    lemma_prefix_split(len_prefix(s1.len()), entries_wire(s1), b);
    lemma_prefix_split(len_prefix(s2.len()), entries_wire(s2), b);
    lemma_prefix_same_len(len_prefix(s1.len()), len_prefix(s2.len()), b);
    lemma_len_prefix_injective(s1.len(), s2.len());
    lemma_entries_wire_unique(s1, s2, b.skip(8));
}

/// Any bytes that begin with a table's wire form decode to that table.
pub proof fn lemma_wire_table_of(s: Seq<WireEntry>, b: Seq<u8>)
    requires
        wire_ok(s),
        table_wire(s).is_prefix_of(b),
    ensures
        is_table_wire(b),
        wire_table(b) == s,
{
    let t = wire_table(b);
    lemma_table_wire_unique(s, t, b);
}

proof fn lemma_entries_wire_len(s: Seq<WireEntry>)
    ensures
        entries_wire(s).len() >= 16 * s.len(),
        forall|i: int|
            0 <= i < s.len() ==> #[trigger] entry_wire(s[i]).len() <= entries_wire(s).len(),
    decreases s.len(),
{
    if s.len() > 0 {
        let r = s.drop_first();
        lemma_entries_wire_len(r);
        assert forall|i: int| 0 <= i < s.len() implies #[trigger] entry_wire(s[i]).len()
            <= entries_wire(s).len() by {
            if i > 0 {
                assert(s[i] == r[i - 1]);
            }
        }
    }
}

/// A table whose wire form fits in memory has every length in range.
pub proof fn lemma_wire_ok_from_len(s: Seq<WireEntry>)
    requires
        table_wire(s).len() <= u64::MAX,
    ensures
        wire_ok(s),
{
    lemma_entries_wire_len(s);
    assert forall|i: int| 0 <= i < s.len() implies entry_fits(#[trigger] s[i]) by {
        assert(entry_wire(s[i]).len() <= entries_wire(s).len());
    }
}

/// `bincode::serialize` on a list of (name, data) pairs.
///
/// bincode 1.3's `serialize` writes integers in fixed size, little end first:
/// a sequence as its length (`u64`) and then its items, a tuple as its fields
/// in order, a string as its UTF-8 byte length (`u64`) and those bytes, and a
/// `Vec<u8>` as its length and its bytes. The contract states that layout
/// (`table_wire`). Writing these types into a `Vec` cannot fail (no size limit
/// is set, and the lengths are known), so the `Result` is unwrapped.
#[verifier::external_body]
pub(crate) fn bincode_serialize_pairs(pairs: &Vec<(String, Vec<u8>)>) -> (res: Vec<u8>)
    ensures
        res@ == table_wire(pairs_view(pairs@)),
{
    bincode::serialize(pairs).unwrap()
}

/// `bincode::deserialize` into a list of (name, data) pairs.
///
/// It reads the layout that `bincode_serialize_pairs` writes and ignores any
/// bytes that follow (bincode's functions allow trailing bytes). It fails when
/// the bytes run out before the table ends or a name is not UTF-8, that is,
/// exactly when the bytes begin with no table's wire form. The contract claims
/// that, and that the lengths of what it returns fit in a `u64`.
#[verifier::external_body]
pub(crate) fn bincode_deserialize_pairs(bytes: &[u8]) -> (res: Option<Vec<(String, Vec<u8>)>>)
    ensures
        match res {
            Some(v) => wire_ok(pairs_view(v@)) && table_wire(pairs_view(v@)).is_prefix_of(bytes@),
            None => !is_table_wire(bytes@),
        },
{
    bincode::deserialize::<Vec<(String, Vec<u8>)>>(bytes).ok()
}

} // verus!
