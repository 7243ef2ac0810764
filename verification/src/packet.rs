//! Packets and packet tables.
//!
//! A `Packet` is a value already serialized to bytes. A `Packets` table maps
//! names to packets; it is what a client or a server sends in one datagram.

use vstd::prelude::*;
use crate::table::{
    index_of, keys, keys_unique, lemma_index_of, lemma_index_of_is, lemma_index_of_none,
    law_from_pairs_unique, law_upsert_keeps_keys_unique, from_pairs, lookup, upsert,
};
use crate::wire::{
    bincode_deserialize_pairs, bincode_serialize_pairs, is_table_wire, lemma_wire_ok_from_len,
    lemma_wire_table_of, pairs_view, table_wire, wire_ok, wire_table, WireEntry,
};

verus! {

/// A serialized value.
#[derive(Debug)]
pub struct Packet {
    pub data: Vec<u8>,
}

impl View for Packet {
    type V = Seq<u8>;

    open spec fn view(&self) -> Seq<u8> {
        self.data@
    }
}

impl Clone for Packet {
    fn clone(&self) -> (res: Self)
        ensures
            res@ == self@,
    {
        Packet { data: copy_bytes(&self.data) }
    }
}

/// A copy of a byte vector.
pub(crate) fn copy_bytes(data: &Vec<u8>) -> (res: Vec<u8>)
    ensures
        res@ == data@,
{
    let res = data.clone();
    assert(res@ =~= data@);
    res
}

impl Packet {
    /// A packet holding the given serialized bytes.
    pub fn new(data: Vec<u8>) -> (res: Self)
        ensures
            res@ == data@,
    {
        Packet { data }
    }
}

/// What a received datagram holds, as a table: the table its bytes begin
/// with, a later entry winning over an earlier one with the same name; `None`
/// when they begin with no table.
pub open spec fn decode_packets(bytes: Seq<u8>) -> Option<Seq<WireEntry>> {
    if is_table_wire(bytes) {
        Some(from_pairs(wire_table(bytes)))
    } else {
        None
    }
}

/// Total length of the data in a table.
pub open spec fn data_len(s: Seq<WireEntry>) -> nat
    decreases s.len(),
{
    if s.len() == 0 {
        0
    } else {
        data_len(s.drop_last()) + s.last().1.len()
    }
}

/// Packets by name. The view lists the (name, data) entries in the order in
/// which their names were first inserted; no name occurs twice.
pub struct Packets {
    entries: Vec<(String, Vec<u8>)>,
}

impl View for Packets {
    type V = Seq<WireEntry>;

    closed spec fn view(&self) -> Seq<WireEntry> {
        pairs_view(self.entries@)
    }
}

impl Default for Packets {
    fn default() -> (res: Self)
        ensures
            res@ == Seq::<WireEntry>::empty(),
    {
        Packets::new()
    }
}

impl Packets {
    #[verifier::type_invariant]
    spec fn names_unique(&self) -> bool {
        keys_unique(pairs_view(self.entries@))
    }

    /// An empty table.
    pub fn new() -> (res: Self)
        ensures
            res@ == Seq::<WireEntry>::empty(),
    {
        let res = Packets { entries: Vec::new() };
        assert(res@ =~= Seq::<WireEntry>::empty());
        res
    }

    /// Number of entries.
    pub fn len(&self) -> (n: usize)
        ensures
            n == self@.len(),
    {
        self.entries.len()
    }

    /// Position of the entry named `name`.
    fn find(&self, name: &String) -> (res: Option<usize>)
        ensures
            match res {
                Some(i) => index_of(self@, name@) == i,
                None => index_of(self@, name@) == -1,
            },
    {
        let n = self.entries.len();
        let mut i: usize = 0;
        while i < n
            invariant
                n == self.entries@.len(),
                i <= n,
                forall|j: int| 0 <= j < i ==> #[trigger] self@[j].0 != name@,
            decreases n - i,
        {
            if self.entries[i].0 == *name {
                proof {
                    lemma_index_of_is(self@, name@, i as int);
                }
                return Some(i);
            }
            i = i + 1;
        }
        proof {
            lemma_index_of_none(self@, name@);
        }
        None
    }

    /// Stores `packet` under `name`, replacing what was stored there.
    pub fn insert(&mut self, name: String, packet: Packet)
        ensures
            final(self)@ == upsert(old(self)@, name@, packet@),
    {
        proof {
            use_type_invariant(&*self);
            lemma_index_of(self@, name@);
            law_upsert_keeps_keys_unique(self@, name@, packet@);
        }
        let found = self.find(&name);
        let mut entries: Vec<(String, Vec<u8>)> = Vec::new();
        std::mem::swap(&mut entries, &mut self.entries);
        let ghost before = entries@;
        match found {
            Some(i) => {
                entries.set(i, (name, packet.data));
            },
            None => {
                entries.push((name, packet.data));
            },
        }
        assert(pairs_view(entries@) =~= upsert(pairs_view(before), name@, packet@));
        self.entries = entries;
    }

    /// The packet stored under `key`.
    pub fn get(&self, key: &str) -> (res: Option<Packet>)
        ensures
            match lookup(self@, key@) {
                Some(d) => res is Some && res->0@ == d,
                None => res is None,
            },
    {
        let name = key.to_owned();
        proof {
            lemma_index_of(self@, name@);
        }
        match self.find(&name) {
            Some(i) => Some(Packet { data: copy_bytes(&self.entries[i].1) }),
            None => None,
        }
    }

    /// The names, in table order.
    pub fn names(&self) -> (res: Vec<String>)
        ensures
            res@.map_values(|s: String| s@) == keys(self@),
    {
        let n = self.entries.len();
        let mut res: Vec<String> = Vec::new();
        let mut i: usize = 0;
        while i < n
            invariant
                n == self.entries@.len(),
                i <= n,
                res@.map_values(|s: String| s@) =~= keys(self@).take(i as int),
            decreases n - i,
        {
            res.push(self.entries[i].0.clone());
            assert(keys(self@).take(i as int + 1) =~= keys(self@).take(i as int).push(self@[i as int].0));
            i = i + 1;
        }
        assert(keys(self@).take(n as int) =~= keys(self@));
        res
    }

    /// `start` plus the total length of the data, or `None` when that exceeds `usize::MAX`.
    pub fn total_data_len(&self, start: usize) -> (res: Option<usize>)
        ensures
            match res {
                Some(t) => t == start + data_len(self@),
                None => start + data_len(self@) > usize::MAX,
            },
    {
        let n = self.entries.len();
        let mut total: usize = start;
        let mut i: usize = 0;
        while i < n
            invariant
                n == self.entries@.len(),
                i <= n,
                total == start + data_len(self@.take(i as int)),
            decreases n - i,
        {
            assert(self@.take(i as int + 1).drop_last() =~= self@.take(i as int));
            let len = self.entries[i].1.len();
            if total > usize::MAX - len {
                proof {
                    lemma_data_len_prefix(self@, i as int + 1);
                }
                return None;
            }
            total = total + len;
            i = i + 1;
        }
        assert(self@.take(n as int) =~= self@);
        Some(total)
    }

    /// The table's wire form: what bincode writes for its entries.
    ///
    /// Decoding those bytes, followed by anything, gives the table back.
    pub fn serialize(&self) -> (res: Vec<u8>)
        ensures
            res@ == table_wire(self@),
            forall|suffix: Seq<u8>| #[trigger] decode_packets(res@ + suffix) == Some(self@),
    {
        proof {
            use_type_invariant(self);
        }
        let res = bincode_serialize_pairs(&self.entries);
        // The bytes are in memory, so their length, and every length written
        // into them, fits in a `u64`.
        let _len = res.len();
        proof {
            lemma_wire_ok_from_len(self@);
            assert forall|suffix: Seq<u8>| #[trigger] decode_packets(res@ + suffix) == Some(
                self@,
            ) by {
                law_wire_roundtrip(self@, suffix);
            }
        }
        res
    }

    /// The table that `data` holds; `None` when it holds none.
    pub fn try_deserialize(data: &[u8]) -> (res: Option<Packets>)
        ensures
            match decode_packets(data@) {
                Some(t) => res is Some && res->0@ == t,
                None => res is None,
            },
    {
        match bincode_deserialize_pairs(data) {
            Some(pairs) => {
                proof {
                    lemma_wire_table_of(pairs_view(pairs@), data@);
                }
                Some(Self::from_pairs_vec(&pairs))
            },
            None => None,
        }
    }

    /// The table that `data` holds.
    pub fn deserialize(data: &[u8]) -> (res: Packets)
        requires
            is_table_wire(data@),
        ensures
            Some(res@) == decode_packets(data@),
    {
        match Self::try_deserialize(data) {
            Some(p) => p,
            None => {
                proof {
                    assert(false);
                }
                Packets::new()
            },
        }
    }

    /// The table built by inserting each pair in turn.
    fn from_pairs_vec(pairs: &Vec<(String, Vec<u8>)>) -> (res: Packets)
        ensures
            res@ == from_pairs(pairs_view(pairs@)),
    {
        let ghost s = pairs_view(pairs@);
        let mut table = Packets::new();
        let n = pairs.len();
        let mut i: usize = 0;
        assert(s.take(0) =~= Seq::<WireEntry>::empty());
        while i < n
            invariant
                n == pairs@.len(),
                s == pairs_view(pairs@),
                i <= n,
                table@ == from_pairs(s.take(i as int)),
            decreases n - i,
        {
            let name = pairs[i].0.clone();
            let data = copy_bytes(&pairs[i].1);
            table.insert(name, Packet { data });
            assert(s.take(i as int + 1).drop_last() =~= s.take(i as int));
            i = i + 1;
        }
        assert(s.take(n as int) =~= s);
        table
    }
}

proof fn lemma_data_len_prefix(s: Seq<WireEntry>, i: int)
    requires
        0 <= i <= s.len(),
    ensures
        data_len(s.take(i)) <= data_len(s),
    decreases s.len() - i,
{
    if i < s.len() {
        lemma_data_len_prefix(s, i + 1);
        assert(s.take(i + 1).drop_last() =~= s.take(i));
    } else {
        assert(s.take(i) =~= s);
    }
}

/// A table's wire form, followed by any bytes, decodes to that table.
pub proof fn law_wire_roundtrip(s: Seq<WireEntry>, suffix: Seq<u8>)
    requires
        keys_unique(s),
        wire_ok(s),
    ensures
        decode_packets(table_wire(s) + suffix) == Some(s),
{
    let b = table_wire(s) + suffix;
    assert(table_wire(s).is_prefix_of(b)) by {
        assert(table_wire(s) =~= b.subrange(0, table_wire(s).len() as int));
    }
    lemma_wire_table_of(s, b);
    law_from_pairs_unique(s);
}

/// The data length of a table counts every entry: it adds up over joined
/// tables, and a one-entry table counts its data's length.
pub proof fn law_data_len_adds(s1: Seq<WireEntry>, s2: Seq<WireEntry>, e: WireEntry)
    ensures
        data_len(s1 + s2) == data_len(s1) + data_len(s2),
        data_len(seq![e]) == e.1.len(),
    decreases s2.len(),
{
    assert(seq![e].drop_last() =~= Seq::<WireEntry>::empty());
    assert(data_len(Seq::<WireEntry>::empty()) == 0);
    assert(seq![e].last() == e);
    if s2.len() == 0 {
        assert(s1 + s2 =~= s1);
    } else {
        law_data_len_adds(s1, s2.drop_last(), e);
        assert((s1 + s2).drop_last() =~= s1 + s2.drop_last());
        assert((s1 + s2).last() == s2.last());
    }
}

} // verus!
