//! The binary codec for name statistics.
//!
//! The wire format is little-endian throughout: a twelve-byte header
//! (start year, year span, record count, each a 32-bit value) followed by
//! the records in stored order. Each record holds a sex byte, a name-length
//! byte, the UTF-8 bytes of the name, and one 32-bit count per year.
//!
//! Decoding is all-or-nothing: the first malformed part of the input turns
//! the whole run into an error. Records that share a name overwrite one
//! another, last write wins, as a mapping insert would.
use vstd::prelude::*;
use vstd::bytes::{spec_u32_from_le_bytes, spec_u32_to_le_bytes, u32_from_le_bytes, u32_to_le_bytes};
use vstd::utf8::{decode_utf8, encode_utf8, valid_utf8};
use vstd::utf8::{encode_utf8_decode_utf8, encode_utf8_valid_utf8};
use vstd::slice::{slice_subrange, slice_to_vec};
use crate::names::{Info, START_YEAR, YEARS};

verus! {

/// Why a buffer failed to decode.
#[derive(PartialEq, Eq, Debug, Clone, Copy, Structural)]
pub enum DecodeError {
    /// Fewer bytes were available than the header or a record requires.
    Truncated,
    /// The header's start year or year span is not the one this codec speaks.
    UnsupportedSchema,
    /// A name field is not valid UTF-8.
    InvalidEncoding,
}

/// One decoded record, as mathematics: the name's characters, the sex
/// byte, and the yearly counts in chronological order.
pub ghost struct Record {
    pub name: Seq<char>,
    pub sex: u8,
    pub counts: Seq<u32>,
}

/// The record that a name and its raw statistics stand for.
pub open spec fn record_of(name: Seq<char>, info: Info) -> Record {
    Record { name, sex: info.sex, counts: info.year_count@ }
}

/// A record the wire format can carry: the full year span, and a name
/// whose encoding fits the one-byte length field.
pub open spec fn encodable_record(r: Record) -> bool {
    &&& r.counts.len() == YEARS
    &&& encode_utf8(r.name).len() <= 255
}

/// A record sequence the wire format can carry.
pub open spec fn encodable(rs: Seq<Record>) -> bool {
    &&& rs.len() <= u32::MAX
    &&& forall|i: int| 0 <= i < rs.len() ==> encodable_record(#[trigger] rs[i])
}

/// The counts of one record on the wire, four bytes each.
pub open spec fn encode_counts(counts: Seq<u32>) -> Seq<u8>
    decreases counts.len(),
{
    if counts.len() == 0 {
        Seq::empty()
    } else {
        spec_u32_to_le_bytes(counts[0]) + encode_counts(counts.drop_first())
    }
}

/// One record on the wire: sex byte, name-length byte, name bytes, counts.
pub open spec fn encode_record(r: Record) -> Seq<u8> {
    seq![r.sex, encode_utf8(r.name).len() as u8] + encode_utf8(r.name) + encode_counts(r.counts)
}

/// A record sequence on the wire, in stored order.
pub open spec fn encode_records(rs: Seq<Record>) -> Seq<u8>
    decreases rs.len(),
{
    if rs.len() == 0 {
        Seq::empty()
    } else {
        encode_record(rs[0]) + encode_records(rs.drop_first())
    }
}

/// The header: start year, year span, record count.
pub open spec fn encode_header(n: u32) -> Seq<u8> {
    spec_u32_to_le_bytes(START_YEAR) + spec_u32_to_le_bytes(YEARS as u32) + spec_u32_to_le_bytes(n)
}

/// A whole buffer on the wire: header, then the records.
pub open spec fn spec_encode(rs: Seq<Record>) -> Seq<u8> {
    encode_header(rs.len() as u32) + encode_records(rs)
}

/// The counts read back from a 160-byte region.
pub open spec fn decode_counts(bytes: Seq<u8>) -> Seq<u32> {
    Seq::new(YEARS as nat, |i: int| spec_u32_from_le_bytes(bytes.subrange(4 * i, 4 * i + 4)))
}

/// What decoding `n` records from `bytes` yields. Mirrors one record's
/// layout, then recurses; bytes left over after the last record are
/// ignored, as a reader would leave them unread.
pub open spec fn spec_decode_records(bytes: Seq<u8>, n: nat) -> Result<Seq<Record>, DecodeError>
    decreases n,
{
    if n == 0 {
        Ok(Seq::empty())
    } else if bytes.len() < 2 {
        Err(DecodeError::Truncated)
    } else {
        let nl = bytes[1] as int;
        if bytes.len() < 2 + nl {
            Err(DecodeError::Truncated)
        } else {
            let name_bytes = bytes.subrange(2, 2 + nl);
            if !valid_utf8(name_bytes) {
                Err(DecodeError::InvalidEncoding)
            } else if bytes.len() < 2 + nl + 4 * (YEARS as int) {
                Err(DecodeError::Truncated)
            } else {
                let r = Record {
                    name: decode_utf8(name_bytes),
                    sex: bytes[0],
                    counts: decode_counts(bytes.subrange(2 + nl, 2 + nl + 4 * (YEARS as int))),
                };
                match spec_decode_records(bytes.skip(2 + nl + 4 * (YEARS as int)), (n - 1) as nat) {
                    Ok(rest) => Ok(seq![r] + rest),
                    Err(e) => Err(e),
                }
            }
        }
    }
}

/// What decoding a whole buffer yields: the header fields are read and
/// checked one after the other, then the records follow.
pub open spec fn spec_decode(bytes: Seq<u8>) -> Result<Seq<Record>, DecodeError> {
    if bytes.len() < 4 {
        Err(DecodeError::Truncated)
    } else if spec_u32_from_le_bytes(bytes.subrange(0, 4)) != START_YEAR {
        Err(DecodeError::UnsupportedSchema)
    } else if bytes.len() < 8 {
        Err(DecodeError::Truncated)
    } else if spec_u32_from_le_bytes(bytes.subrange(4, 8)) != YEARS as u32 {
        Err(DecodeError::UnsupportedSchema)
    } else if bytes.len() < 12 {
        Err(DecodeError::Truncated)
    } else {
        spec_decode_records(bytes.skip(12), spec_u32_from_le_bytes(bytes.subrange(8, 12)) as nat)
    }
}

/// No two records share a name.
pub open spec fn unique_names(rs: Seq<Record>) -> bool {
    forall|i: int, j: int|
        0 <= i < j < rs.len() ==> (#[trigger] rs[i]).name != (#[trigger] rs[j]).name
}

/// Inserting a record into a unique-name sequence: replace the record
/// that already carries the name, or append.
pub open spec fn spec_insert(rs: Seq<Record>, r: Record) -> Seq<Record> {
    if exists|i: int| 0 <= i < rs.len() && (#[trigger] rs[i]).name == r.name {
        rs.update(choose|i: int| 0 <= i < rs.len() && (#[trigger] rs[i]).name == r.name, r)
    } else {
        rs.push(r)
    }
}

/// The unique-name sequence that inserting the records one by one leaves:
/// on a shared name the later record wins.
pub open spec fn table_of(rs: Seq<Record>) -> Seq<Record>
    decreases rs.len(),
{
    if rs.len() == 0 {
        Seq::empty()
    } else {
        spec_insert(table_of(rs.drop_last()), rs.last())
    }
}

/// The mapping from names to records that a record sequence describes,
/// later records overwriting earlier ones.
pub open spec fn map_of(rs: Seq<Record>) -> Map<Seq<char>, Record>
    decreases rs.len(),
{
    if rs.len() == 0 {
        Map::empty()
    } else {
        map_of(rs.drop_last()).insert(rs.last().name, rs.last())
    }
}

/// Relies on String::from_utf8: it returns the decoded string exactly
/// when the bytes are valid UTF-8, and never anything else.
#[verifier::external_body]
fn string_from_utf8(v: Vec<u8>) -> (r: Option<String>)
    ensures
        r is Some <==> valid_utf8(v@),
        r is Some ==> r->0@ == decode_utf8(v@),
{
    String::from_utf8(v).ok()
}

/// The decoded mapping from names to raw statistics, held as entries in
/// first-insertion order with no name repeated.
#[derive(Debug)]
pub struct NameTable {
    entries: Vec<(String, Info)>,
}

impl View for NameTable {
    type V = Map<Seq<char>, Record>;

    open spec fn view(&self) -> Map<Seq<char>, Record> {
        map_of(self.records())
    }
}

impl NameTable {
    /// The table's entries, in order, as records.
    pub closed spec fn records(&self) -> Seq<Record> {
        self.entries@.map(|i: int, p: (String, Info)| record_of(p.0@, p.1))
    }

    /// No name occurs twice among the entries.
    pub open spec fn wf(&self) -> bool {
        unique_names(self.records())
    }

    /// An empty table.
    pub fn new() -> (t: NameTable)
        ensures
            t.records() == Seq::<Record>::empty(),
            t.wf(),
    {
        NameTable { entries: Vec::new() }
    }

    /// How many names the table holds.
    pub fn len(&self) -> (n: usize)
        ensures
            n == self.records().len(),
    {
        self.entries.len()
    }

    /// The entry at a position, for walking the table in order.
    pub fn entry_at(&self, i: usize) -> (r: (&String, &Info))
        requires
            i < self.records().len(),
        ensures
            record_of(r.0@, *r.1) == self.records()[i as int],
    {
        let p = &self.entries[i];
        (&p.0, &p.1)
    }

    /// Insert a record under its name; a record already stored under the
    /// same name is replaced in place.
    pub fn insert(&mut self, name: String, info: Info)
        requires
            old(self).wf(),
        ensures
            final(self).records() == spec_insert(old(self).records(), record_of(name@, info)),
            final(self).wf(),
    {
        let ghost old_records = self.records();
        let ghost r = record_of(name@, info);
        let n = self.entries.len();
        let mut i: usize = 0;
        while i < n
            invariant
                n == old_records.len(),
                i <= n,
                unique_names(old_records),
                old(self).records() == old_records,
                self.records() == old_records,
                self.entries@.len() == n,
                forall|k: int| 0 <= k < i ==> old_records[k].name != r.name,
                r == record_of(name@, info),
            decreases n - i,
        {
            if self.entries[i].0 == name {
                proof {
                    assert(old_records[i as int].name == r.name);
                    let w = choose|k: int|
                        0 <= k < old_records.len() && (#[trigger] old_records[k]).name == r.name;
                    assert(w == i as int);
                }
                self.entries[i] = (name, info);
                proof {
                    assert(self.records() =~= spec_insert(old_records, r));
                    assert forall|p: int, q: int|
                        0 <= p < q < self.records().len() implies (#[trigger] self.records()[p]).name != (
                    #[trigger] self.records()[q]).name by {
                        assert(old_records[p].name != old_records[q].name);
                    }
                }
                return ;
            }
            i = i + 1;
        }
        proof {
            assert(forall|k: int|
                0 <= k < old_records.len() ==> (#[trigger] old_records[k]).name != r.name);
        }
        self.entries.push((name, info));
        proof {
            assert(self.records() =~= old_records.push(r));
            assert(self.records() =~= spec_insert(old_records, r));
            assert forall|p: int, q: int|
                0 <= p < q < self.records().len() implies (#[trigger] self.records()[p]).name != (
            #[trigger] self.records()[q]).name by {
                if q < old_records.len() as int {
                    assert(old_records[p].name != old_records[q].name);
                } else {
                    assert(old_records[p].name != r.name);
                }
            }
        }
    }

    /// Look a name up, as the mapping the table stands for would.
    pub fn get(&self, name: &String) -> (r: Option<&Info>)
        requires
            self.wf(),
        ensures
            match r {
                Some(info) => self@.contains_key(name@) && self@[name@] == record_of(
                    name@,
                    *info,
                ),
                None => !self@.contains_key(name@),
            },
    {
        let ghost records = self.records();
        let n = self.entries.len();
        let mut i: usize = 0;
        while i < n
            invariant
                n == records.len(),
                i <= n,
                unique_names(records),
                records == self.records(),
                self.entries@.len() == n,
                forall|k: int| 0 <= k < i ==> (#[trigger] records[k]).name != name@,
            decreases n - i,
        {
            if self.entries[i].0 == *name {
                proof {
                    assert(records[i as int].name == name@);
                    lemma_map_of_member(records, i as int);
                }
                return Some(&self.entries[i].1);
            }
            i = i + 1;
        }
        proof {
            lemma_map_of_keys(records, name@);
        }
        None
    }
}

/// Decoding `n` more records from position `pos` on, after `done` have
/// already been read: what the whole run then yields.
spec fn decode_more(
    done: Seq<Record>,
    bytes: Seq<u8>,
    pos: int,
    n: nat,
) -> Result<Seq<Record>, DecodeError> {
    match spec_decode_records(bytes.skip(pos), n) {
        Ok(rest) => Ok(done + rest),
        Err(e) => Err(e),
    }
}

/// Decode a whole buffer into the mapping from names to raw statistics.
///
/// The result is exactly what `spec_decode` says of the bytes: the header
/// must carry the expected start year and year span, every record must be
/// complete and its name valid UTF-8, and the first flaw turns the whole
/// run into its error. On success the table holds the decoded records,
/// records sharing a name folded into one, last write winning.
pub fn deserialize(bytes: &[u8]) -> (r: Result<NameTable, DecodeError>)
    ensures
        match r {
            Ok(t) => {
                &&& spec_decode(bytes@) is Ok
                &&& t.records() == table_of(spec_decode(bytes@)->Ok_0)
                &&& t@ == map_of(spec_decode(bytes@)->Ok_0)
                &&& t.wf()
            },
            Err(e) => spec_decode(bytes@) == Err::<Seq<Record>, DecodeError>(e),
        },
{
    if bytes.len() < 4 {
        return Err(DecodeError::Truncated);
    }
    let start_year = u32_from_le_bytes(slice_subrange(bytes, 0, 4));
    if start_year != START_YEAR {
        return Err(DecodeError::UnsupportedSchema);
    }
    if bytes.len() < 8 {
        return Err(DecodeError::Truncated);
    }
    let years = u32_from_le_bytes(slice_subrange(bytes, 4, 8));
    if years != YEARS as u32 {
        return Err(DecodeError::UnsupportedSchema);
    }
    if bytes.len() < 12 {
        return Err(DecodeError::Truncated);
    }
    let count = u32_from_le_bytes(slice_subrange(bytes, 8, 12));
    let mut table = NameTable::new();
    let ghost mut done: Seq<Record> = Seq::empty();
    let mut pos: usize = 12;
    let mut k: u32 = 0;
    proof {
        assert(bytes@.skip(12) =~= bytes@.subrange(12, bytes@.len() as int));
        if spec_decode_records(bytes@.skip(12), count as nat) is Ok {
            assert(done + spec_decode_records(bytes@.skip(12), count as nat)->Ok_0
                =~= spec_decode_records(bytes@.skip(12), count as nat)->Ok_0);
        }
    }
    while k < count
        invariant
            12 <= pos <= bytes@.len(),
            k <= count,
            spec_decode(bytes@) == decode_more(done, bytes@, pos as int, (count - k) as nat),
            table.wf(),
            table.records() == table_of(done),
        decreases count - k,
    {
        let ghost s = bytes@.skip(pos as int);
        let ghost n_left = (count - k) as nat;
        let remaining = bytes.len() - pos;
        if remaining < 2 {
            return Err(DecodeError::Truncated);
        }
        let sex: u8 = *vstd::slice::slice_index_get(bytes, pos);
        let nl: usize = *vstd::slice::slice_index_get(bytes, pos + 1) as usize;
        proof {
            assert(s[0] == bytes@[pos as int]);
            assert(s[1] == bytes@[pos as int + 1]);
        }
        if remaining - 2 < nl {
            return Err(DecodeError::Truncated);
        }
        let name_slice = slice_subrange(bytes, pos + 2, pos + 2 + nl);
        proof {
            assert(name_slice@ =~= s.subrange(2, 2 + nl as int));
        }
        let name_vec = slice_to_vec(name_slice);
        let name = match string_from_utf8(name_vec) {
            Some(name) => name,
            None => {
                return Err(DecodeError::InvalidEncoding);
            },
        };
        if remaining - 2 - nl < 4 * YEARS {
            return Err(DecodeError::Truncated);
        }
        let base = pos + 2 + nl;
        let mut counts: [u32; 40] = [0u32; 40];
        for j in 0..YEARS
            invariant
                base + 4 * YEARS <= bytes@.len(),
                bytes@.len() <= usize::MAX,
                base == pos + 2 + nl,
                forall|m: int|
                    0 <= m < j ==> counts@[m] == spec_u32_from_le_bytes(
                        bytes@.subrange(base + 4 * m, base + 4 * m + 4),
                    ),
        {
            counts[j] = u32_from_le_bytes(slice_subrange(bytes, base + 4 * j, base + 4 * j + 4));
        }
        let ghost rec = Record { name: name@, sex, counts: counts@ };
        proof {
            let nli = nl as int;
            let cbytes = s.subrange(2 + nli, 2 + nli + 4 * (YEARS as int));
            assert forall|m: int| 0 <= m < YEARS implies decode_counts(cbytes)[m] == counts@[m] by {
                assert(cbytes.subrange(4 * m, 4 * m + 4) =~= bytes@.subrange(
                    base as int + 4 * m,
                    base as int + 4 * m + 4,
                ));
            }
            assert(decode_counts(cbytes) =~= counts@);
            assert(spec_decode_records(s, n_left) == match spec_decode_records(
                s.skip(2 + nli + 4 * (YEARS as int)),
                (n_left - 1) as nat,
            ) {
                Ok(rest) => Ok(seq![rec] + rest),
                Err(e) => Err(e),
            });
            assert(s.skip(2 + nli + 4 * (YEARS as int)) =~= bytes@.skip(
                pos as int + 2 + nli + 4 * (YEARS as int),
            ));
            if spec_decode_records(s.skip(2 + nli + 4 * (YEARS as int)), (n_left - 1) as nat)
                is Ok {
                let rest = spec_decode_records(
                    s.skip(2 + nli + 4 * (YEARS as int)),
                    (n_left - 1) as nat,
                )->Ok_0;
                assert(done + (seq![rec] + rest) =~= done.push(rec) + rest);
            }
            assert(done.push(rec).drop_last() =~= done);
        }
        table.insert(name, Info { year_count: counts, sex });
        proof {
            assert(record_of(rec.name, Info { year_count: counts, sex }) == rec);
            done = done.push(rec);
        }
        pos = base + 4 * YEARS;
        k = k + 1;
    }
    proof {
        assert(spec_decode_records(bytes@.skip(pos as int), 0) == Ok::<Seq<Record>, DecodeError>(
            Seq::empty(),
        ));
        assert(done + Seq::<Record>::empty() =~= done);
        lemma_map_of_table_of(done);
    }
    Ok(table)
}

/// Extending a record sequence extends its wire form at the back.
pub proof fn lemma_encode_records_snoc(rs: Seq<Record>)
    requires
        rs.len() > 0,
    ensures
        encode_records(rs) == encode_records(rs.drop_last()) + encode_record(rs.last()),
    decreases rs.len(),
{
    if rs.len() == 1 {
        assert(rs.drop_first().len() == 0);
        assert(rs.drop_last().len() == 0);
        assert(encode_records(rs.drop_first()) == Seq::<u8>::empty());
        assert(encode_records(rs.drop_last()) == Seq::<u8>::empty());
        assert(rs.last() == rs[0]);
        assert(encode_records(rs) == encode_record(rs[0]) + encode_records(rs.drop_first()));
        assert(encode_records(rs) =~= encode_records(rs.drop_last()) + encode_record(rs.last()));
    } else {
        lemma_encode_records_snoc(rs.drop_first());
        assert(rs.drop_first().drop_last() =~= rs.drop_last().drop_first());
        assert(rs.drop_first().last() == rs.last());
        assert(rs.drop_last()[0] == rs[0]);
        assert(encode_records(rs) =~= encode_records(rs.drop_last()) + encode_record(rs.last()));
    }
}

/// Extending the counts extends their wire form at the back.
pub proof fn lemma_encode_counts_snoc(cs: Seq<u32>)
    requires
        cs.len() > 0,
    ensures
        encode_counts(cs) == encode_counts(cs.drop_last()) + spec_u32_to_le_bytes(cs.last()),
    decreases cs.len(),
{
    vstd::bytes::lemma_auto_spec_u32_to_from_le_bytes();
    if cs.len() == 1 {
        assert(cs.drop_first().len() == 0);
        assert(cs.drop_last().len() == 0);
        assert(encode_counts(cs.drop_first()) == Seq::<u8>::empty());
        assert(encode_counts(cs.drop_last()) == Seq::<u8>::empty());
        assert(cs.last() == cs[0]);
        assert(encode_counts(cs) == spec_u32_to_le_bytes(cs[0]) + encode_counts(cs.drop_first()));
        assert(encode_counts(cs) =~= encode_counts(cs.drop_last()) + spec_u32_to_le_bytes(
            cs.last(),
        ));
    } else {
        lemma_encode_counts_snoc(cs.drop_first());
        assert(cs.drop_first().drop_last() =~= cs.drop_last().drop_first());
        assert(cs.drop_first().last() == cs.last());
        assert(cs.drop_last()[0] == cs[0]);
        assert(encode_counts(cs) =~= encode_counts(cs.drop_last()) + spec_u32_to_le_bytes(
            cs.last(),
        ));
    }
}

/// Encode a table into a buffer that decodes back to it, or nothing when
/// the wire format cannot carry it: more records than the count field
/// holds, or a name whose encoding overruns the one-byte length field.
pub fn serialize(t: &NameTable) -> (r: Option<Vec<u8>>)
    ensures
        match r {
            Some(v) => encodable(t.records()) && v@ == spec_encode(t.records()),
            None => !encodable(t.records()),
        },
{
    let ghost records = t.records();
    let n = t.len();
    if n > u32::MAX as usize {
        return None;
    }
    let mut out: Vec<u8> = Vec::new();
    let mut word = u32_to_le_bytes(START_YEAR);
    out.append(&mut word);
    let mut word = u32_to_le_bytes(YEARS as u32);
    out.append(&mut word);
    let mut word = u32_to_le_bytes(n as u32);
    out.append(&mut word);
    proof {
        assert(out@ =~= encode_header(n as u32));
        assert(encode_records(records.take(0)) =~= Seq::<u8>::empty());
        assert(out@ =~= encode_header(n as u32) + encode_records(records.take(0)));
    }
    let mut i: usize = 0;
    while i < n
        invariant
            records == t.records(),
            n == records.len(),
            n <= u32::MAX,
            i <= n,
            forall|m: int| 0 <= m < i ==> encodable_record(#[trigger] records[m]),
            out@ == encode_header(n as u32) + encode_records(records.take(i as int)),
        decreases n - i,
    {
        let (name, info) = t.entry_at(i);
        let nb = name.as_str().as_bytes();
        if nb.len() > 255 {
            proof {
                assert(!encodable_record(records[i as int]));
            }
            return None;
        }
        let ghost prefix = out@;
        out.push(info.sex);
        out.push(nb.len() as u8);
        let mut name_bytes = slice_to_vec(nb);
        out.append(&mut name_bytes);
        let ghost recpre = prefix + seq![records[i as int].sex, nb@.len() as u8] + nb@;
        proof {
            assert(out@ =~= recpre);
        }
        for j in 0..YEARS
            invariant
                out@ == recpre + encode_counts(records[i as int].counts.take(j as int)),
                i < records.len(),
                records[i as int].counts == info.year_count@,
        {
            let mut word = u32_to_le_bytes(info.year_count[j]);
            out.append(&mut word);
            proof {
                let cs = records[i as int].counts;
                lemma_encode_counts_snoc(cs.take(j + 1));
                assert(cs.take(j + 1).drop_last() =~= cs.take(j as int));
                assert(cs.take(j + 1).last() == cs[j as int]);
                assert(out@ =~= recpre + encode_counts(cs.take(j + 1)));
            }
        }
        proof {
            let rec = records[i as int];
            assert(rec.counts.take(YEARS as int) =~= rec.counts);
            assert(nb@ == encode_utf8(rec.name));
            assert(encodable_record(rec));
            assert(out@ =~= encode_header(n as u32) + encode_records(records.take(i as int))
                + encode_record(rec));
            lemma_encode_records_snoc(records.take(i + 1));
            assert(records.take(i + 1).drop_last() =~= records.take(i as int));
            assert(records.take(i + 1).last() == rec);
            assert(out@ =~= encode_header(n as u32) + encode_records(records.take(i + 1)));
        }
        i = i + 1;
    }
    proof {
        assert(records.take(n as int) =~= records);
    }
    Some(out)
}

/// The counts' wire form takes four bytes per count.
pub proof fn lemma_encode_counts_len(cs: Seq<u32>)
    ensures
        encode_counts(cs).len() == 4 * cs.len(),
    decreases cs.len(),
{
    vstd::bytes::lemma_auto_spec_u32_to_from_le_bytes();
    if cs.len() > 0 {
        lemma_encode_counts_len(cs.drop_first());
    }
}

/// Each count sits at its own four-byte region of the counts' wire form.
pub proof fn lemma_encode_counts_index(cs: Seq<u32>, m: int)
    requires
        0 <= m < cs.len(),
    ensures
        encode_counts(cs).subrange(4 * m, 4 * m + 4) == spec_u32_to_le_bytes(cs[m]),
    decreases m,
{
    vstd::bytes::lemma_auto_spec_u32_to_from_le_bytes();
    lemma_encode_counts_len(cs);
    if m == 0 {
        assert(encode_counts(cs).subrange(0, 4) =~= spec_u32_to_le_bytes(cs[0]));
    } else {
        lemma_encode_counts_index(cs.drop_first(), m - 1);
        lemma_encode_counts_len(cs.drop_first());
        assert(encode_counts(cs).subrange(4 * m, 4 * m + 4) =~= encode_counts(
            cs.drop_first(),
        ).subrange(4 * (m - 1), 4 * (m - 1) + 4));
    }
}

/// A full year span of counts reads back from its own wire form unchanged.
pub proof fn lemma_counts_roundtrip(cs: Seq<u32>)
    requires
        cs.len() == YEARS,
    ensures
        decode_counts(encode_counts(cs)) == cs,
{
    vstd::bytes::lemma_auto_spec_u32_to_from_le_bytes();
    assert forall|m: int| 0 <= m < YEARS implies decode_counts(encode_counts(cs))[m] == cs[m] by {
        lemma_encode_counts_index(cs, m);
        vstd::bytes::lemma_auto_spec_u32_to_from_le_bytes();
        assert(spec_u32_to_le_bytes(cs[m]).len() == 4);
        assert(decode_counts(encode_counts(cs))[m] == spec_u32_from_le_bytes(
            encode_counts(cs).subrange(4 * m, 4 * m + 4),
        ));
    }
    assert(decode_counts(encode_counts(cs)) =~= cs);
}

/// A record's wire form followed by anything decodes as that record
/// followed by whatever the rest decodes as.
pub proof fn lemma_decode_record_prefix(r: Record, tail: Seq<u8>, n: nat)
    requires
        encodable_record(r),
        n >= 1,
    ensures
        spec_decode_records(encode_record(r) + tail, n) == match spec_decode_records(
            tail,
            (n - 1) as nat,
        ) {
            Ok(rest) => Ok(seq![r] + rest),
            Err(e) => Err::<Seq<Record>, DecodeError>(e),
        },
{
    let b = encode_record(r) + tail;
    let nm = encode_utf8(r.name);
    let nl = nm.len() as int;
    lemma_encode_counts_len(r.counts);
    assert(b[1] == nl as u8);
    assert(b.len() >= 2 + nl + 4 * (YEARS as int));
    assert(b.subrange(2, 2 + nl) =~= nm);
    encode_utf8_valid_utf8(r.name);
    encode_utf8_decode_utf8(r.name);
    assert(b.subrange(2 + nl, 2 + nl + 4 * (YEARS as int)) =~= encode_counts(r.counts));
    lemma_counts_roundtrip(r.counts);
    assert(b.skip(2 + nl + 4 * (YEARS as int)) =~= tail);
    assert(b[0] == r.sex);
    assert(Record {
        name: decode_utf8(b.subrange(2, 2 + nl)),
        sex: b[0],
        counts: decode_counts(b.subrange(2 + nl, 2 + nl + 4 * (YEARS as int))),
    } == r);
}

/// Record sequences the wire format can carry read back from their own
/// wire form unchanged.
pub proof fn lemma_decode_records_roundtrip(rs: Seq<Record>)
    requires
        forall|i: int| 0 <= i < rs.len() ==> encodable_record(#[trigger] rs[i]),
    ensures
        spec_decode_records(encode_records(rs), rs.len() as nat) == Ok::<
            Seq<Record>,
            DecodeError,
        >(rs),
    decreases rs.len(),
{
    if rs.len() == 0 {
        assert(rs =~= Seq::<Record>::empty());
    } else {
        assert(forall|i: int|
            0 <= i < rs.drop_first().len() ==> encodable_record(#[trigger] rs.drop_first()[i]));
        lemma_decode_records_roundtrip(rs.drop_first());
        lemma_decode_record_prefix(rs[0], encode_records(rs.drop_first()), rs.len() as nat);
        assert(seq![rs[0]] + rs.drop_first() =~= rs);
    }
}

/// Round trip: a record sequence the wire format can carry decodes from
/// its own encoding unchanged — decoding undoes encoding.
pub proof fn lemma_round_trip(rs: Seq<Record>)
    requires
        encodable(rs),
    ensures
        spec_decode(spec_encode(rs)) == Ok::<Seq<Record>, DecodeError>(rs),
{
    let b = spec_encode(rs);
    vstd::bytes::lemma_auto_spec_u32_to_from_le_bytes();
    assert(b.subrange(0, 4) =~= spec_u32_to_le_bytes(START_YEAR));
    assert(b.subrange(4, 8) =~= spec_u32_to_le_bytes(YEARS as u32));
    assert(b.subrange(8, 12) =~= spec_u32_to_le_bytes(rs.len() as u32));
    assert(b.skip(12) =~= encode_records(rs));
    lemma_decode_records_roundtrip(rs);
}

/// A sequence whose names are already unique folds into itself.
pub proof fn lemma_table_of_unique(rs: Seq<Record>)
    requires
        unique_names(rs),
    ensures
        table_of(rs) == rs,
    decreases rs.len(),
{
    if rs.len() > 0 {
        let d = rs.drop_last();
        assert forall|p: int, q: int| 0 <= p < q < d.len() implies (#[trigger] d[p]).name != (
        #[trigger] d[q]).name by {
            assert(rs[p].name != rs[q].name);
        }
        lemma_table_of_unique(d);
        assert(forall|k: int| 0 <= k < d.len() ==> (#[trigger] d[k]).name != rs.last().name);
        assert(!(exists|i: int| 0 <= i < d.len() && (#[trigger] d[i]).name == rs.last().name));
        assert(table_of(rs) =~= rs);
    }
}

/// Round trip at the mapping level: decoding the encoding of a table
/// with unique names gives the very same table back.
pub proof fn lemma_round_trip_table(rs: Seq<Record>)
    requires
        encodable(rs),
        unique_names(rs),
    ensures
        spec_decode(spec_encode(rs)) == Ok::<Seq<Record>, DecodeError>(rs),
        table_of(rs) == rs,
{
    lemma_round_trip(rs);
    lemma_table_of_unique(rs);
}

/// Cutting an encoded record sequence anywhere before its end leaves
/// bytes that fail to decode as truncated.
proof fn lemma_decode_records_truncated(rs: Seq<Record>, j: int)
    requires
        forall|i: int| 0 <= i < rs.len() ==> encodable_record(#[trigger] rs[i]),
        0 <= j < encode_records(rs).len(),
    ensures
        spec_decode_records(encode_records(rs).take(j), rs.len() as nat) == Err::<
            Seq<Record>,
            DecodeError,
        >(DecodeError::Truncated),
    decreases rs.len(),
{
    let r = rs[0];
    let er = encode_record(r);
    let rest = encode_records(rs.drop_first());
    let nm = encode_utf8(r.name);
    let nl = nm.len() as int;
    lemma_encode_counts_len(r.counts);
    let t = encode_records(rs).take(j);
    assert(t.len() == j);
    if j < er.len() {
        if j >= 2 {
            assert(t[1] == er[1]);
            assert(er[1] == nl as u8);
            if j >= 2 + nl {
                assert(t.subrange(2, 2 + nl) =~= nm);
                encode_utf8_valid_utf8(r.name);
                assert(j < 2 + nl + 4 * (YEARS as int));
            }
        }
    } else {
        assert(t =~= er + rest.take(j - er.len()));
        lemma_decode_record_prefix(r, rest.take(j - er.len()), rs.len() as nat);
        assert(forall|i: int|
            0 <= i < rs.drop_first().len() ==> encodable_record(#[trigger] rs.drop_first()[i]));
        lemma_decode_records_truncated(rs.drop_first(), j - er.len());
    }
}

/// Truncation: a buffer cut off anywhere before the end of an encoded
/// table — in the header, in a name, before the last record's final
/// count — fails to decode as truncated, never as anything else.
pub proof fn lemma_truncation(rs: Seq<Record>, j: int)
    requires
        encodable(rs),
        0 <= j < spec_encode(rs).len(),
    ensures
        spec_decode(spec_encode(rs).take(j)) == Err::<Seq<Record>, DecodeError>(
            DecodeError::Truncated,
        ),
{
    let b = spec_encode(rs);
    let t = b.take(j);
    vstd::bytes::lemma_auto_spec_u32_to_from_le_bytes();
    assert(b.subrange(0, 4) =~= spec_u32_to_le_bytes(START_YEAR));
    assert(b.subrange(4, 8) =~= spec_u32_to_le_bytes(YEARS as u32));
    assert(b.subrange(8, 12) =~= spec_u32_to_le_bytes(rs.len() as u32));
    if j >= 4 {
        assert(t.subrange(0, 4) =~= b.subrange(0, 4));
    }
    if j >= 8 {
        assert(t.subrange(4, 8) =~= b.subrange(4, 8));
    }
    if j >= 12 {
        assert(t.subrange(8, 12) =~= b.subrange(8, 12));
        assert(t.skip(12) =~= encode_records(rs).take(j - 12));
        if rs.len() == 0 {
            assert(encode_records(rs).len() == 0);
            assert(b.len() == 12);
        } else {
            lemma_decode_records_truncated(rs, j - 12);
        }
    }
}

/// Inserting never puts a second record under an existing name.
pub proof fn lemma_insert_unique(rs: Seq<Record>, r: Record)
    requires
        unique_names(rs),
    ensures
        unique_names(spec_insert(rs, r)),
{
    let u = spec_insert(rs, r);
    if exists|i: int| 0 <= i < rs.len() && (#[trigger] rs[i]).name == r.name {
        let w = choose|i: int| 0 <= i < rs.len() && (#[trigger] rs[i]).name == r.name;
        assert forall|p: int, q: int| 0 <= p < q < u.len() implies (#[trigger] u[p]).name != (
        #[trigger] u[q]).name by {
            assert(rs[p].name != rs[q].name);
        }
    } else {
        assert forall|p: int, q: int| 0 <= p < q < u.len() implies (#[trigger] u[p]).name != (
        #[trigger] u[q]).name by {
            if q < rs.len() {
                assert(rs[p].name != rs[q].name);
            } else {
                assert(rs[p].name != r.name);
            }
        }
    }
}

/// On a unique-name sequence, inserting a record is inserting it into
/// the mapping the sequence describes.
pub proof fn lemma_map_of_insert(rs: Seq<Record>, r: Record)
    requires
        unique_names(rs),
    ensures
        map_of(spec_insert(rs, r)) == map_of(rs).insert(r.name, r),
    decreases rs.len(),
{
    if exists|i: int| 0 <= i < rs.len() && (#[trigger] rs[i]).name == r.name {
        let w = choose|i: int| 0 <= i < rs.len() && (#[trigger] rs[i]).name == r.name;
        let u = rs.update(w, r);
        let last = rs.last();
        if w == rs.len() - 1 {
            assert(u.drop_last() =~= rs.drop_last());
            assert(u.last() == r);
            assert(last.name == r.name);
            assert(map_of(u) == map_of(rs.drop_last()).insert(r.name, r));
            assert(map_of(rs).insert(r.name, r) == map_of(rs.drop_last()).insert(
                last.name,
                last,
            ).insert(r.name, r));
            assert(map_of(rs.drop_last()).insert(last.name, last).insert(r.name, r) =~= map_of(
                rs.drop_last(),
            ).insert(r.name, r));
        } else {
            let d = rs.drop_last();
            assert(d[w] == rs[w]);
            assert(exists|i: int| 0 <= i < d.len() && (#[trigger] d[i]).name == r.name);
            let w2 = choose|i: int| 0 <= i < d.len() && (#[trigger] d[i]).name == r.name;
            assert(w2 == w);
            lemma_map_of_insert(d, r);
            assert(u.drop_last() =~= d.update(w, r));
            assert(u.drop_last() == spec_insert(d, r));
            assert(u.last() == last);
            assert(map_of(u) == map_of(d).insert(r.name, r).insert(last.name, last));
            assert(r.name != last.name);
            assert(map_of(d).insert(r.name, r).insert(last.name, last) =~= map_of(d).insert(
                last.name,
                last,
            ).insert(r.name, r));
        }
    } else {
        let u = rs.push(r);
        assert(u.drop_last() =~= rs);
        assert(u.last() == r);
    }
}

/// Folding a record sequence into a table keeps the mapping it
/// describes, and leaves every name unique.
pub proof fn lemma_map_of_table_of(rs: Seq<Record>)
    ensures
        unique_names(table_of(rs)),
        map_of(table_of(rs)) == map_of(rs),
    decreases rs.len(),
{
    if rs.len() == 0 {
    } else {
        let d = rs.drop_last();
        lemma_map_of_table_of(d);
        lemma_insert_unique(table_of(d), rs.last());
        lemma_map_of_insert(table_of(d), rs.last());
    }
}

/// A record's position makes its name a key of the mapping, and with no
/// name repeated, the mapping holds that very record under it.
pub proof fn lemma_map_of_member(rs: Seq<Record>, i: int)
    requires
        unique_names(rs),
        0 <= i < rs.len(),
    ensures
        map_of(rs).contains_key(rs[i].name),
        map_of(rs)[rs[i].name] == rs[i],
    decreases rs.len(),
{
    if i < rs.len() - 1 {
        assert(rs.drop_last()[i] == rs[i]);
        lemma_map_of_member(rs.drop_last(), i);
        assert(rs[i].name != rs.last().name);
    }
}

/// A name is a key of the mapping exactly when some record carries it.
pub proof fn lemma_map_of_keys(rs: Seq<Record>, name: Seq<char>)
    ensures
        map_of(rs).contains_key(name) <==> exists|i: int|
            0 <= i < rs.len() && (#[trigger] rs[i]).name == name,
    decreases rs.len(),
{
    if rs.len() > 0 {
        lemma_map_of_keys(rs.drop_last(), name);
        if map_of(rs).contains_key(name) {
            if rs.last().name == name {
                assert(rs[rs.len() - 1].name == name);
            } else {
                let i = choose|i: int|
                    0 <= i < rs.drop_last().len() && (#[trigger] rs.drop_last()[i]).name == name;
                assert(rs[i].name == name);
            }
        } else {
            assert forall|i: int| 0 <= i < rs.len() implies (#[trigger] rs[i]).name != name by {
                if i < rs.len() - 1 {
                    assert(rs.drop_last()[i] == rs[i]);
                }
            }
        }
    }
}

} // verus!
