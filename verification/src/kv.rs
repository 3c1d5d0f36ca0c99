//! The log-structured storage engine.  The store holds its command log
//! in memory as a sequence of generations, each an append-only run of
//! records; an index maps every live key to the location of its latest
//! `Put` record; a compactor rewrites live records into a fresh
//! generation and drops the rest.  The surrounding process mirrors each
//! appended record to a generation file and hands the file text back to
//! `open` at startup, which replays it.

use vstd::multiset::Multiset;
use vstd::prelude::*;

use crate::codec::{
    cmd_key, cmd_val, decode_record, enc_cmd, enc_len, enc_record, encode_command, lemma_enc_len_min,
    lemma_parse_record_advances, lemma_parse_record_sound, parse_record, parses_from, Command,
};
use crate::error::KvsError;
use crate::text::{chars_to_string, push_dec, dec_digits};

verus! {

/// Compaction runs once this many dead bytes have accumulated.
pub const COMPACTION_THRESHOLD: u64 = 1024 * 1024;

/// The location of one serialized command inside one generation's log.
#[derive(Clone, Copy, Debug, PartialEq, Eq, Structural)]
pub struct CommandPos {
    pub gen: u64,
    pub pos: u64,
    pub len: u64,
}

/// One record as it stands in a generation's log: its offset, its
/// encoded length, and the command itself.
#[derive(Debug)]
pub struct Record {
    pub pos: u64,
    pub len: u64,
    pub cmd: Command,
}

/// One generation: an append-only run of records.  `size` is the total
/// encoded length, which is also the offset of the next append.
#[derive(Debug)]
pub struct GenLog {
    pub gen: u64,
    pub records: Vec<Record>,
    pub size: u64,
}

/// The text of one generation file, handed to `open` at startup.
#[derive(Debug)]
pub struct GenFile {
    pub gen: u64,
    pub text: Vec<char>,
}

/// One live entry of the index.
#[derive(Debug)]
pub struct IndexEntry {
    pub key: String,
    pub pos: CommandPos,
}

/// The encoded length of a `Put` record of the given key and value.
pub open spec fn put_len(k: Seq<char>, v: Seq<char>) -> int {
    enc_record(true, k, v).len() as int
}

/// The encoded length of an `Rm` record of the given key.
pub open spec fn rm_len(k: Seq<char>) -> int {
    enc_record(false, k, Seq::empty()).len() as int
}

/// A record is well formed when its stored length is the length of its
/// command's encoding.
pub open spec fn rec_wf(r: Record) -> bool {
    r.len == enc_len(r.cmd)
}

/// The total encoded length of the first `i` records of `rs`.
pub open spec fn recs_size(rs: Seq<Record>, i: int) -> int
    decreases i,
{
    if i <= 0 {
        0
    } else {
        recs_size(rs, i - 1) + rs[i - 1].len
    }
}

/// The first `i` records alone decide their total length.
pub proof fn lemma_recs_size_congruent(rs1: Seq<Record>, rs2: Seq<Record>, i: int)
    requires
        forall|x: int| 0 <= x < i ==> rs1[x] == rs2[x],
    ensures
        recs_size(rs1, i) == recs_size(rs2, i),
    decreases i,
{
    if i > 0 {
        lemma_recs_size_congruent(rs1, rs2, i - 1);
    }
}

/// Prefix lengths only grow.
pub proof fn lemma_recs_size_monotone(rs: Seq<Record>, a: int, b: int)
    requires
        0 <= a <= b,
        forall|x: int| 0 <= x < b ==> (#[trigger] rs[x]).len >= 0,
    ensures
        recs_size(rs, a) <= recs_size(rs, b),
    decreases b - a,
{
    if a < b {
        lemma_recs_size_monotone(rs, a, b - 1);
        assert(rs[b - 1].len >= 0);
    }
}

/// A generation log is well formed when its records are contiguous
/// from offset zero and `size` is their total length.
pub open spec fn gen_log_wf(g: GenLog) -> bool {
    &&& forall|i: int| 0 <= i < g.records@.len() ==> rec_wf(#[trigger] g.records@[i])
    &&& forall|i: int|
        0 <= i < g.records@.len() ==> (#[trigger] g.records@[i]).pos as int == recs_size(
            g.records@,
            i,
        )
    &&& g.size as int == recs_size(g.records@, g.records@.len() as int)
}

/// Each record of `rs`, tagged with its generation number.
pub open spec fn tagged(g: u64, rs: Seq<Record>) -> Seq<(u64, Record)> {
    rs.map_values(|r: Record| (g, r))
}

/// All records of all generations, oldest generation first, in file
/// order within each generation: the order replay processes them.
pub open spec fn all_records(logs: Seq<GenLog>) -> Seq<(u64, Record)>
    decreases logs.len(),
{
    if logs.len() == 0 {
        Seq::empty()
    } else {
        all_records(logs.drop_last()) + tagged(logs.last().gen, logs.last().records@)
    }
}

/// The index that replaying `es` builds: each `Put` inserts the
/// record's location, each `Rm` deletes the entry.
pub open spec fn replay_index(es: Seq<(u64, Record)>) -> Map<Seq<char>, CommandPos>
    decreases es.len(),
{
    if es.len() == 0 {
        Map::empty()
    } else {
        let m = replay_index(es.drop_last());
        let g = es.last().0;
        let r = es.last().1;
        match r.cmd {
            Command::Put { key, .. } => m.insert(
                key@,
                CommandPos { gen: g, pos: r.pos, len: r.len },
            ),
            Command::Rm { key } => m.remove(key@),
        }
    }
}

/// The key/value map that replaying `es` yields.
pub open spec fn replay_kv(es: Seq<(u64, Record)>) -> Map<Seq<char>, Seq<char>>
    decreases es.len(),
{
    if es.len() == 0 {
        Map::empty()
    } else {
        let m = replay_kv(es.drop_last());
        let r = es.last().1;
        match r.cmd {
            Command::Put { key, val } => m.insert(key@, val@),
            Command::Rm { key } => m.remove(key@),
        }
    }
}

/// The dead bytes that replaying `es` counts: superseded `Put` records,
/// deleted `Put` records, and every `Rm` record itself.
pub open spec fn replay_unc(es: Seq<(u64, Record)>) -> int
    decreases es.len(),
{
    if es.len() == 0 {
        0
    } else {
        let m = replay_index(es.drop_last());
        let u = replay_unc(es.drop_last());
        let r = es.last().1;
        match r.cmd {
            Command::Put { key, .. } => u + (if m.dom().contains(key@) {
                m[key@].len as int
            } else {
                0
            }),
            Command::Rm { key } => u + r.len + (if m.dom().contains(key@) {
                m[key@].len as int
            } else {
                0
            }),
        }
    }
}

/// The total encoded length of the records of `es`.
pub open spec fn size_of(es: Seq<(u64, Record)>) -> int
    decreases es.len(),
{
    if es.len() == 0 {
        0
    } else {
        size_of(es.drop_last()) + es.last().1.len
    }
}

/// The map an index entry sequence stands for.
pub open spec fn index_map(es: Seq<IndexEntry>) -> Map<Seq<char>, CommandPos>
    decreases es.len(),
{
    if es.len() == 0 {
        Map::empty()
    } else {
        index_map(es.drop_last()).insert(es.last().key@, es.last().pos)
    }
}

/// No two index entries share a key.
pub open spec fn keys_unique(es: Seq<IndexEntry>) -> bool {
    forall|i: int, j: int|
        0 <= i < j < es.len() ==> (#[trigger] es[i]).key@ != (#[trigger] es[j]).key@
}

/// The total length of the records the index keeps live.
pub open spec fn live_size(es: Seq<IndexEntry>) -> int
    decreases es.len(),
{
    if es.len() == 0 {
        0
    } else {
        live_size(es.drop_last()) + es.last().pos.len
    }
}

/// Record `i` of generation `j` is a `Put` of `k` to `v` at `p`.
pub open spec fn ptr_at(
    logs: Seq<GenLog>,
    j: int,
    i: int,
    k: Seq<char>,
    p: CommandPos,
    v: Seq<char>,
) -> bool {
    &&& 0 <= j < logs.len()
    &&& 0 <= i < logs[j].records@.len()
    &&& logs[j].gen == p.gen
    &&& logs[j].records@[i].pos == p.pos
    &&& logs[j].records@[i].len == p.len
    &&& logs[j].records@[i].cmd matches Command::Put { key, val } && key@ == k && val@ == v
}

/// Some record of `logs` is a `Put` of `k` to `v` at `p`.
pub open spec fn has_record(logs: Seq<GenLog>, k: Seq<char>, p: CommandPos, v: Seq<char>) -> bool {
    exists|j: int, i: int| ptr_at(logs, j, i, k, p, v)
}

/// The generations are well formed and strictly ascending.
pub open spec fn logs_wf(logs: Seq<GenLog>) -> bool {
    &&& forall|i: int| 0 <= i < logs.len() ==> gen_log_wf(#[trigger] logs[i])
    &&& forall|i: int, j: int|
        0 <= i < j < logs.len() ==> (#[trigger] logs[i]).gen < (#[trigger] logs[j]).gen
}

/// The total encoded length of all generations.
pub open spec fn total_size(logs: Seq<GenLog>) -> int
    decreases logs.len(),
{
    if logs.len() == 0 {
        0
    } else {
        total_size(logs.drop_last()) + logs.last().size
    }
}

/// The log-structured key-value store.
#[derive(Debug)]
pub struct KvStore {
    pub logs: Vec<GenLog>,
    pub index: Vec<IndexEntry>,
    pub current_gen: u64,
    pub uncompacted: u64,
}

impl KvStore {
    /// The map the index stands for.
    pub open spec fn imap(self) -> Map<Seq<char>, CommandPos> {
        index_map(self.index@)
    }

    /// The store's observable contents: what replaying its whole log
    /// yields.
    pub open spec fn kv(self) -> Map<Seq<char>, Seq<char>> {
        replay_kv(all_records(self.logs@))
    }

    pub open spec fn spec_total_size(self) -> int {
        total_size(self.logs@)
    }

    /// Room for one more record of encoded length `n`.
    pub open spec fn can_append(self, n: int) -> bool {
        total_size(self.logs@) + n <= u64::MAX as int
    }

    /// The store's invariant: the index and the dead-byte counter are
    /// exactly what replaying the log yields, every index entry points
    /// at the live `Put` record of its key, and the active generation
    /// is the newest.
    pub open spec fn wf(self) -> bool {
        &&& self.logs@.len() >= 1
        &&& total_size(self.logs@) <= u64::MAX as int
        &&& logs_wf(self.logs@)
        &&& self.logs@.last().gen == self.current_gen
        &&& keys_unique(self.index@)
        &&& self.imap() == replay_index(all_records(self.logs@))
        &&& self.kv().dom() == self.imap().dom()
        &&& self.uncompacted as int == replay_unc(all_records(self.logs@))
        &&& self.uncompacted as int == total_size(self.logs@) - live_size(self.index@)
        &&& forall|k: Seq<char>|
            #[trigger] self.imap().dom().contains(k) ==> has_record(
                self.logs@,
                k,
                self.imap()[k],
                self.kv()[k],
            )
    }
}

// ---------- lemmas about the index as a map ----------

/// The entry of key `es[i].key` decides the map's value at that key.
pub proof fn lemma_index_map_find(es: Seq<IndexEntry>, i: int)
    requires
        keys_unique(es),
        0 <= i < es.len(),
    ensures
        index_map(es).dom().contains(es[i].key@),
        index_map(es)[es[i].key@] == es[i].pos,
    decreases es.len(),
{
    if i < es.len() - 1 {
        assert(es.drop_last()[i] == es[i]);
        assert(keys_unique(es.drop_last())) by {
            assert(forall|a: int, b: int|
                0 <= a < b < es.len() - 1 ==> es.drop_last()[a] == es[a] && es.drop_last()[b]
                    == es[b]);
        }
        lemma_index_map_find(es.drop_last(), i);
        assert(es[i].key@ != es.last().key@);
    }
}

/// A key no entry holds is not in the map.
pub proof fn lemma_index_map_absent(es: Seq<IndexEntry>, k: Seq<char>)
    requires
        forall|i: int| 0 <= i < es.len() ==> (#[trigger] es[i]).key@ != k,
    ensures
        !index_map(es).dom().contains(k),
    decreases es.len(),
{
    if es.len() > 0 {
        assert(forall|i: int|
            0 <= i < es.len() - 1 ==> (#[trigger] es.drop_last()[i]).key@ != k);
        lemma_index_map_absent(es.drop_last(), k);
    }
}

/// Every key of the map is some entry's key.
pub proof fn lemma_index_map_dom(es: Seq<IndexEntry>, k: Seq<char>)
    requires
        index_map(es).dom().contains(k),
    ensures
        exists|i: int| 0 <= i < es.len() && (#[trigger] es[i]).key@ == k,
    decreases es.len(),
{
    if es.len() > 0 {
        if es.last().key@ == k {
            assert(0 <= es.len() - 1 < es.len() && es[es.len() - 1].key@ == k);
        } else {
            lemma_index_map_dom(es.drop_last(), k);
            let i = choose|i: int|
                0 <= i < es.drop_last().len() && (#[trigger] es.drop_last()[i]).key@ == k;
            assert(es[i].key@ == k);
        }
    }
}

/// Replacing entry `i`'s location updates the map at its key.
pub proof fn lemma_index_map_update(es: Seq<IndexEntry>, i: int, e2: IndexEntry)
    requires
        keys_unique(es),
        0 <= i < es.len(),
        e2.key@ == es[i].key@,
    ensures
        index_map(es.update(i, e2)) == index_map(es).insert(e2.key@, e2.pos),
        keys_unique(es.update(i, e2)),
        live_size(es.update(i, e2)) == live_size(es) - es[i].pos.len + e2.pos.len,
    decreases es.len(),
{
    let es2 = es.update(i, e2);
    assert(keys_unique(es2)) by {
        assert(forall|a: int|
            0 <= a < es.len() && a != i ==> es2[a] == es[a]);
    }
    if i == es.len() - 1 {
        assert(es2.drop_last() =~= es.drop_last());
        assert(es2.last() == e2);
        assert(index_map(es2) =~= index_map(es).insert(e2.key@, e2.pos));
    } else {
        assert(keys_unique(es.drop_last())) by {
            assert(forall|a: int, b: int|
                0 <= a < b < es.len() - 1 ==> es.drop_last()[a] == es[a] && es.drop_last()[b]
                    == es[b]);
        }
        lemma_index_map_update(es.drop_last(), i, e2);
        assert(es2.drop_last() =~= es.drop_last().update(i, e2));
        assert(es2.last() == es.last());
        assert(es[i].key@ != es.last().key@);
        assert(index_map(es2) == index_map(es.drop_last()).insert(e2.key@, e2.pos).insert(
            es.last().key@,
            es.last().pos,
        ));
        assert(index_map(es2) =~= index_map(es).insert(e2.key@, e2.pos));
    }
}

/// Dropping entry `i` removes its key from the map.
pub proof fn lemma_index_map_remove(es: Seq<IndexEntry>, i: int)
    requires
        keys_unique(es),
        0 <= i < es.len(),
    ensures
        index_map(es.remove(i)) == index_map(es).remove(es[i].key@),
        keys_unique(es.remove(i)),
        live_size(es.remove(i)) == live_size(es) - es[i].pos.len,
    decreases es.len(),
{
    let es2 = es.remove(i);
    assert(keys_unique(es2)) by {
        assert(forall|a: int|
            0 <= a < es2.len() ==> es2[a] == (if a < i {
                es[a]
            } else {
                es[a + 1]
            }));
    }
    if i == es.len() - 1 {
        assert(es2 =~= es.drop_last());
        assert(!index_map(es.drop_last()).dom().contains(es[i].key@)) by {
            assert(forall|a: int|
                0 <= a < es.len() - 1 ==> (#[trigger] es.drop_last()[a]).key@ != es[i].key@);
            lemma_index_map_absent(es.drop_last(), es[i].key@);
        }
        assert(index_map(es2) =~= index_map(es).remove(es[i].key@));
    } else {
        assert(keys_unique(es.drop_last())) by {
            assert(forall|a: int, b: int|
                0 <= a < b < es.len() - 1 ==> es.drop_last()[a] == es[a] && es.drop_last()[b]
                    == es[b]);
        }
        assert(es.drop_last()[i] == es[i]);
        lemma_index_map_remove(es.drop_last(), i);
        assert(es2.drop_last() =~= es.drop_last().remove(i));
        assert(es2.last() == es.last());
        assert(es[i].key@ != es.last().key@);
        assert(index_map(es2) == index_map(es.drop_last()).remove(es[i].key@).insert(
            es.last().key@,
            es.last().pos,
        ));
        assert(index_map(es2) =~= index_map(es).remove(es[i].key@));
    }
}

/// A live entry's record length is part of the live total.
pub proof fn lemma_live_size_entry(es: Seq<IndexEntry>, i: int)
    requires
        0 <= i < es.len(),
    ensures
        live_size(es) >= es[i].pos.len,
    decreases es.len(),
{
    lemma_live_size_nonneg(es);
    if i < es.len() - 1 {
        assert(es.drop_last()[i] == es[i]);
        lemma_live_size_entry(es.drop_last(), i);
    } else {
        lemma_live_size_nonneg(es.drop_last());
    }
}

pub proof fn lemma_live_size_nonneg(es: Seq<IndexEntry>)
    ensures
        live_size(es) >= 0,
    decreases es.len(),
{
    if es.len() > 0 {
        lemma_live_size_nonneg(es.drop_last());
    }
}

pub proof fn lemma_total_size_nonneg(logs: Seq<GenLog>)
    ensures
        total_size(logs) >= 0,
    decreases logs.len(),
{
    if logs.len() > 0 {
        lemma_total_size_nonneg(logs.drop_last());
    }
}

// ---------- lemmas about replay ----------

/// Replay over one appended record, unfolded.
pub proof fn lemma_replay_push(es: Seq<(u64, Record)>, g: u64, r: Record)
    ensures
        r.cmd matches Command::Put { key, val } ==> replay_index(es.push((g, r)))
            == replay_index(es).insert(key@, CommandPos { gen: g, pos: r.pos, len: r.len })
            && replay_kv(es.push((g, r))) == replay_kv(es).insert(key@, val@) && replay_unc(
            es.push((g, r)),
        ) == replay_unc(es) + (if replay_index(es).dom().contains(key@) {
            replay_index(es)[key@].len as int
        } else {
            0
        }),
        r.cmd matches Command::Rm { key } ==> replay_index(es.push((g, r))) == replay_index(
            es,
        ).remove(key@) && replay_kv(es.push((g, r))) == replay_kv(es).remove(key@) && replay_unc(
            es.push((g, r)),
        ) == replay_unc(es) + r.len + (if replay_index(es).dom().contains(key@) {
            replay_index(es)[key@].len as int
        } else {
            0
        }),
        size_of(es.push((g, r))) == size_of(es) + r.len,
{
    let es2 = es.push((g, r));
    assert(es2.drop_last() =~= es);
    assert(es2.last() == (g, r));
}

/// The replayed index and key/value map always share a domain.
pub proof fn lemma_replay_doms(es: Seq<(u64, Record)>)
    ensures
        replay_index(es).dom() =~= replay_kv(es).dom(),
    decreases es.len(),
{
    if es.len() > 0 {
        lemma_replay_doms(es.drop_last());
    }
}

/// Appending a record to the newest generation appends it to the
/// replay order.
pub proof fn lemma_all_records_append(a: Seq<GenLog>, b: Seq<GenLog>, r: Record)
    requires
        a.len() >= 1,
        b.len() == a.len(),
        forall|i: int| 0 <= i < a.len() - 1 ==> a[i] == b[i],
        b.last().gen == a.last().gen,
        b.last().records@ == a.last().records@.push(r),
    ensures
        all_records(b) == all_records(a).push((a.last().gen, r)),
{
    assert(a.drop_last() =~= b.drop_last());
    assert(tagged(b.last().gen, b.last().records@) =~= tagged(
        a.last().gen,
        a.last().records@,
    ).push((a.last().gen, r)));
    assert(all_records(b) =~= all_records(a).push((a.last().gen, r)));
}

/// An index pointer survives an append to the newest generation.
pub proof fn lemma_has_record_append(
    a: Seq<GenLog>,
    b: Seq<GenLog>,
    r: Record,
    k: Seq<char>,
    p: CommandPos,
    v: Seq<char>,
)
    requires
        a.len() >= 1,
        b.len() == a.len(),
        forall|i: int| 0 <= i < a.len() - 1 ==> a[i] == b[i],
        b.last().gen == a.last().gen,
        b.last().records@ == a.last().records@.push(r),
        has_record(a, k, p, v),
    ensures
        has_record(b, k, p, v),
{
    let (j, i) = choose|j: int, i: int| ptr_at(a, j, i, k, p, v);
    if j == a.len() - 1 {
        assert(b.last().records@[i] == a.last().records@[i]);
        assert(ptr_at(b, j, i, k, p, v));
    } else {
        assert(b[j] == a[j]);
        assert(ptr_at(b, j, i, k, p, v));
    }
}

/// Positions strictly increase along a well-formed generation.
pub proof fn lemma_positions_increase(g: GenLog, i1: int, i2: int)
    requires
        gen_log_wf(g),
        0 <= i1 < i2 < g.records@.len(),
    ensures
        g.records@[i1].pos + g.records@[i1].len <= g.records@[i2].pos,
        g.records@[i1].pos < g.records@[i2].pos,
{
    let rs = g.records@;
    lemma_enc_len_min(rs[i1].cmd);
    assert(forall|x: int| 0 <= x < i2 ==> (#[trigger] rs[x]).len >= 0);
    lemma_recs_size_monotone(rs, i1 + 1, i2);
    assert(recs_size(rs, i1 + 1) == recs_size(rs, i1) + rs[i1].len);
}

/// Generation numbers identify generations.
pub proof fn lemma_gen_unique(logs: Seq<GenLog>, j1: int, j2: int)
    requires
        logs_wf(logs),
        0 <= j1 < logs.len(),
        0 <= j2 < logs.len(),
        logs[j1].gen == logs[j2].gen,
    ensures
        j1 == j2,
{
    if j1 < j2 {
        assert(logs[j1].gen < logs[j2].gen);
    } else if j2 < j1 {
        assert(logs[j2].gen < logs[j1].gen);
    }
}

/// Finds the entry of `key`, if the index holds one.
fn index_find(entries: &Vec<IndexEntry>, key: &String) -> (r: Option<usize>)
    ensures
        match r {
            Some(i) => (i as int) < entries@.len() && entries@[i as int].key@ == key@,
            None => forall|i: int|
                0 <= i < entries@.len() ==> (#[trigger] entries@[i]).key@ != key@,
        },
{
    let mut i: usize = 0;
    while i < entries.len()
        invariant
            i <= entries@.len(),
            forall|x: int| 0 <= x < i ==> (#[trigger] entries@[x]).key@ != key@,
        decreases entries@.len() - i,
    {
        if entries[i].key == *key {
            return Some(i);
        }
        i = i + 1;
    }
    None
}

/// Finds the record a `CommandPos` points at, by generation number and
/// offset.
fn find_record(logs: &Vec<GenLog>, p: CommandPos) -> (r: Option<(usize, usize)>)
    ensures
        match r {
            Some((j, i)) => (j as int) < logs@.len() && (i as int) < logs@[j as int].records@.len()
                && logs@[j as int].gen == p.gen && logs@[j as int].records@[i as int].pos == p.pos,
            None => forall|j: int, i: int|
                #![trigger logs@[j].records@[i]]
                0 <= j < logs@.len() && 0 <= i < logs@[j].records@.len() ==> !(logs@[j].gen == p.gen
                    && logs@[j].records@[i].pos == p.pos),
        },
{
    let mut j: usize = 0;
    while j < logs.len()
        invariant
            j <= logs@.len(),
            forall|a: int, b: int|
                #![trigger logs@[a].records@[b]]
                0 <= a < j && 0 <= b < logs@[a].records@.len() ==> !(logs@[a].gen == p.gen
                    && logs@[a].records@[b].pos == p.pos),
        decreases logs@.len() - j,
    {
        let gen_matches = logs[j].gen == p.gen;
        if gen_matches {
            let mut i: usize = 0;
            while i < logs[j].records.len()
                invariant
                    j < logs@.len(),
                    i <= logs@[j as int].records@.len(),
                    logs@[j as int].gen == p.gen,
                    forall|b: int|
                        0 <= b < i ==> (#[trigger] logs@[j as int].records@[b]).pos != p.pos,
                decreases logs@[j as int].records@.len() - i,
            {
                if logs[j].records[i].pos == p.pos {
                    return Some((j, i));
                }
                i = i + 1;
            }
        }
        j = j + 1;
    }
    None
}

/// A prefix of the index keeps no more bytes live than the whole.
pub proof fn lemma_live_size_prefix(es: Seq<IndexEntry>, i: int)
    requires
        0 <= i <= es.len(),
    ensures
        live_size(es.subrange(0, i)) <= live_size(es),
    decreases es.len() - i,
{
    if i == es.len() {
        assert(es.subrange(0, i) =~= es);
    } else {
        lemma_live_size_prefix(es, i + 1);
        assert(es.subrange(0, i + 1).drop_last() =~= es.subrange(0, i));
        assert(es.subrange(0, i + 1).last() == es[i]);
    }
}

/// The file text of a run of records: their encodings back to back.
pub open spec fn recs_text(rs: Seq<Record>) -> Seq<char>
    decreases rs.len(),
{
    if rs.len() == 0 {
        Seq::empty()
    } else {
        enc_cmd(rs[0].cmd) + recs_text(rs.drop_first())
    }
}

/// Appending a record appends its encoding to the text.
pub proof fn lemma_recs_text_push(rs: Seq<Record>, r: Record)
    ensures
        recs_text(rs.push(r)) == recs_text(rs) + enc_cmd(r.cmd),
    decreases rs.len(),
{
    if rs.len() == 0 {
        assert(rs.push(r).drop_first() =~= Seq::<Record>::empty());
        assert(rs.push(r)[0] == r);
        assert(recs_text(Seq::<Record>::empty()) =~= Seq::<char>::empty());
        assert(recs_text(rs.push(r).drop_first()) =~= Seq::<char>::empty());
        assert(recs_text(rs) =~= Seq::<char>::empty());
        assert(recs_text(rs.push(r)) == enc_cmd(rs.push(r)[0].cmd) + recs_text(
            rs.push(r).drop_first(),
        ));
        assert(recs_text(rs.push(r)) =~= recs_text(rs) + enc_cmd(r.cmd));
    } else {
        assert(rs.push(r).drop_first() =~= rs.drop_first().push(r));
        assert(rs.push(r)[0] == rs[0]);
        lemma_recs_text_push(rs.drop_first(), r);
        assert(recs_text(rs.push(r)) =~= recs_text(rs) + enc_cmd(r.cmd));
    }
}

/// The total text length of a set of generation files.
pub open spec fn files_size(fs: Seq<GenFile>) -> int
    decreases fs.len(),
{
    if fs.len() == 0 {
        0
    } else {
        files_size(fs.drop_last()) + fs.last().text@.len()
    }
}

pub proof fn lemma_files_size_prefix(fs: Seq<GenFile>, i: int)
    requires
        0 <= i <= fs.len(),
    ensures
        files_size(fs.subrange(0, i)) <= files_size(fs),
    decreases fs.len() - i,
{
    if i == fs.len() {
        assert(fs.subrange(0, i) =~= fs);
    } else {
        lemma_files_size_prefix(fs, i + 1);
        assert(fs.subrange(0, i + 1).drop_last() =~= fs.subrange(0, i));
        assert(fs.subrange(0, i + 1).last() == fs[i]);
    }
}

pub proof fn lemma_size_concat(a: Seq<(u64, Record)>, b: Seq<(u64, Record)>)
    ensures
        size_of(a + b) == size_of(a) + size_of(b),
    decreases b.len(),
{
    if b.len() == 0 {
        assert(a + b =~= a);
    } else {
        assert((a + b).drop_last() =~= a + b.drop_last());
        assert((a + b).last() == b.last());
        lemma_size_concat(a, b.drop_last());
    }
}

pub proof fn lemma_size_tagged(g: u64, rs: Seq<Record>, i: int)
    requires
        0 <= i <= rs.len(),
    ensures
        size_of(tagged(g, rs.subrange(0, i))) == recs_size(rs, i),
    decreases i,
{
    if i == 0 {
        assert(tagged(g, rs.subrange(0, 0)).len() == 0);
    } else {
        lemma_size_tagged(g, rs, i - 1);
        let t = tagged(g, rs.subrange(0, i));
        assert(t.drop_last() =~= tagged(g, rs.subrange(0, i - 1)));
        assert(t.last() == (g, rs[i - 1]));
    }
}

pub proof fn lemma_size_flat(logs: Seq<GenLog>)
    requires
        forall|x: int| 0 <= x < logs.len() ==> gen_log_wf(#[trigger] logs[x]),
    ensures
        size_of(all_records(logs)) == total_size(logs),
    decreases logs.len(),
{
    if logs.len() > 0 {
        assert(forall|x: int|
            0 <= x < logs.len() - 1 ==> logs.drop_last()[x] == logs[x]);
        lemma_size_flat(logs.drop_last());
        lemma_size_concat(
            all_records(logs.drop_last()),
            tagged(logs.last().gen, logs.last().records@),
        );
        let g = logs.last();
        assert(gen_log_wf(logs[logs.len() - 1]));
        assert(g.records@.subrange(0, g.records@.len() as int) =~= g.records@);
        lemma_size_tagged(g.gen, g.records@, g.records@.len() as int);
    }
}

pub proof fn lemma_total_size_prefix(logs: Seq<GenLog>, j: int)
    requires
        0 <= j <= logs.len(),
    ensures
        total_size(logs.subrange(0, j)) <= total_size(logs),
    decreases logs.len() - j,
{
    if j == logs.len() {
        assert(logs.subrange(0, j) =~= logs);
    } else {
        lemma_total_size_prefix(logs, j + 1);
        assert(logs.subrange(0, j + 1).drop_last() =~= logs.subrange(0, j));
        assert(logs.subrange(0, j + 1).last() == logs[j]);
    }
}

/// What replay has processed never outweighs the whole log.
pub proof fn lemma_replay_prefix_size(logs: Seq<GenLog>, j: int, i: int)
    requires
        forall|x: int| 0 <= x < logs.len() ==> gen_log_wf(#[trigger] logs[x]),
        0 <= j < logs.len(),
        0 <= i <= logs[j].records@.len(),
    ensures
        size_of(
            all_records(logs.subrange(0, j)) + tagged(
                logs[j].gen,
                logs[j].records@.subrange(0, i),
            ),
        ) <= total_size(logs),
{
    let a = all_records(logs.subrange(0, j));
    let t = tagged(logs[j].gen, logs[j].records@.subrange(0, i));
    lemma_size_concat(a, t);
    assert(forall|x: int| 0 <= x < j ==> logs.subrange(0, j)[x] == logs[x]);
    lemma_size_flat(logs.subrange(0, j));
    lemma_size_tagged(logs[j].gen, logs[j].records@, i);
    assert(gen_log_wf(logs[j]));
    assert(forall|x: int|
        0 <= x < logs[j].records@.len() ==> (#[trigger] logs[j].records@[x]).len >= 0);
    lemma_recs_size_monotone(logs[j].records@, i, logs[j].records@.len() as int);
    assert(logs.subrange(0, j + 1).drop_last() =~= logs.subrange(0, j));
    assert(logs.subrange(0, j + 1).last() == logs[j]);
    lemma_total_size_prefix(logs, j + 1);
}

/// The replay loop's running claim: the index, its map, and the
/// dead-byte counter are exactly what replaying `es` yields, and every
/// entry points at a `Put` record of `logs`.
pub open spec fn replay_ok(
    logs: Seq<GenLog>,
    es: Seq<(u64, Record)>,
    index: Seq<IndexEntry>,
    unc: u64,
) -> bool {
    &&& keys_unique(index)
    &&& index_map(index) == replay_index(es)
    &&& replay_kv(es).dom() == index_map(index).dom()
    &&& unc as int == replay_unc(es)
    &&& unc as int == size_of(es) - live_size(index)
    &&& forall|k: Seq<char>|
        #[trigger] index_map(index).dom().contains(k) ==> has_record(
            logs,
            k,
            index_map(index)[k],
            replay_kv(es)[k],
        )
}

/// Dead bytes never count negative.
pub proof fn lemma_replay_unc_nonneg(es: Seq<(u64, Record)>)
    ensures
        replay_unc(es) >= 0,
        size_of(es) >= 0,
    decreases es.len(),
{
    if es.len() > 0 {
        lemma_replay_unc_nonneg(es.drop_last());
    }
}

/// Sorts discovered generation files into the ascending generation
/// order that recovery replays: the same files, each exactly once.
pub fn sorted_gen_list(files: Vec<GenFile>) -> (r: Vec<GenFile>)
    requires
        forall|i: int, j: int|
            0 <= i < j < files@.len() ==> (#[trigger] files@[i]).gen != (#[trigger] files@[j]).gen,
    ensures
        r@.len() == files@.len(),
        forall|i: int, j: int|
            0 <= i < j < r@.len() ==> (#[trigger] r@[i]).gen < (#[trigger] r@[j]).gen,
        r@.to_multiset() == files@.to_multiset(),
{
    let mut rest = files;
    let mut out: Vec<GenFile> = Vec::new();
    proof {
        out@.to_multiset_ensures();
        rest@.to_multiset_ensures();
        assert(out@.to_multiset().add(rest@.to_multiset()) =~= files@.to_multiset());
    }
    while rest.len() > 0
        invariant
            out@.to_multiset().add(rest@.to_multiset()) == files@.to_multiset(),
            forall|i: int, j: int|
                0 <= i < j < out@.len() ==> (#[trigger] out@[i]).gen < (#[trigger] out@[j]).gen,
            forall|a: int, b: int|
                0 <= a < out@.len() && 0 <= b < rest@.len() ==> (#[trigger] out@[a]).gen < (
                #[trigger] rest@[b]).gen,
            forall|i: int, j: int|
                0 <= i < j < rest@.len() ==> (#[trigger] rest@[i]).gen != (
                #[trigger] rest@[j]).gen,
        decreases rest@.len(),
    {
        let mut mi: usize = 0;
        let mut i: usize = 1;
        while i < rest.len()
            invariant
                rest@.len() > 0,
                (mi as int) < rest@.len(),
                i <= rest@.len(),
                forall|x: int| 0 <= x < i ==> (#[trigger] rest@[x]).gen >= rest@[mi as int].gen,
            decreases rest@.len() - i,
        {
            if rest[i].gen < rest[mi].gen {
                mi = i;
            }
            i = i + 1;
        }
        let ghost rest0 = rest@;
        let ghost out0 = out@;
        let item = rest.remove(mi);
        out.push(item);
        proof {
            rest0.to_multiset_ensures();
            out0.to_multiset_ensures();
            assert(rest@.to_multiset() =~= rest0.to_multiset().remove(item));
            assert(out@.to_multiset() =~= out0.to_multiset().insert(item));
            assert(rest0.to_multiset().count(item) > 0) by {
                assert(rest0.contains(item));
            }
            assert(out@.to_multiset().add(rest@.to_multiset()) =~= out0.to_multiset().add(
                rest0.to_multiset(),
            ));
            // the extracted file's generation is the strict minimum
            assert forall|b: int| 0 <= b < rest@.len() implies out@.last().gen < (
            #[trigger] rest@[b]).gen by {
                let b0 = if b < mi as int {
                    b
                } else {
                    b + 1
                };
                assert(rest@[b] == rest0[b0]);
                assert(rest0[b0].gen >= rest0[mi as int].gen);
                assert(rest0[b0].gen != rest0[mi as int].gen);
            }
        }
    }
    proof {
        rest@.to_multiset_ensures();
        files@.to_multiset_ensures();
        out@.to_multiset_ensures();
        assert(rest@.to_multiset() =~= Multiset::<GenFile>::empty());
        assert(out@.to_multiset() =~= files@.to_multiset());
    }
    out
}

/// Decodes one generation file into its records.  Succeeds exactly
/// when the whole text is a run of well-formed records; the records
/// re-encode to exactly the input text.
fn load_gen(gen: u64, text: &Vec<char>) -> (r: Result<Vec<Record>, KvsError>)
    ensures
        r is Ok <==> parses_from(text@, 0),
        r matches Ok(rs) ==> {
            &&& forall|x: int| 0 <= x < rs@.len() ==> rec_wf(#[trigger] rs@[x])
            &&& forall|x: int|
                0 <= x < rs@.len() ==> (#[trigger] rs@[x]).pos as int == recs_size(rs@, x)
            &&& recs_size(rs@, rs@.len() as int) == text@.len()
            &&& recs_text(rs@) == text@
        },
        r matches Err(e) ==> (e matches KvsError::Malformed(g, _off) && g == gen),
{
    let mut rs: Vec<Record> = Vec::new();
    let mut i: usize = 0;
    while i < text.len()
        invariant
            i <= text@.len(),
            forall|x: int| 0 <= x < rs@.len() ==> rec_wf(#[trigger] rs@[x]),
            forall|x: int|
                0 <= x < rs@.len() ==> (#[trigger] rs@[x]).pos as int == recs_size(rs@, x),
            recs_size(rs@, rs@.len() as int) == i,
            recs_text(rs@) == text@.subrange(0, i as int),
            parses_from(text@, 0) <==> parses_from(text@, i as int),
        decreases text@.len() - i,
    {
        match decode_record(text, i) {
            None => {
                return Err(KvsError::Malformed(gen, i as u64));
            },
            Some((cmd, end)) => {
                proof {
                    lemma_parse_record_advances(text@, i as int);
                    lemma_parse_record_sound(text@, i as int);
                    let p = parse_record(text@, i as int)->Some_0;
                    assert(enc_cmd(cmd) == enc_record(p.is_set, p.key, p.val));
                }
                let ghost prev = rs@;
                let rec = Record { pos: i as u64, len: (end - i) as u64, cmd };
                let ghost grec = rec;
                rs.push(rec);
                proof {
                    assert forall|x: int| 0 <= x <= prev.len() implies recs_size(rs@, x)
                        == recs_size(prev, x) by {
                        lemma_recs_size_congruent(rs@, prev, x);
                    }
                    assert(recs_size(rs@, rs@.len() as int) == recs_size(
                        rs@,
                        prev.len() as int,
                    ) + grec.len);
                    lemma_recs_text_push(prev, grec);
                    assert(text@.subrange(0, end as int) =~= text@.subrange(0, i as int)
                        + text@.subrange(i as int, end as int));
                    assert(recs_text(rs@) == text@.subrange(0, end as int));
                }
                i = end;
            },
        }
    }
    proof {
        assert(text@.subrange(0, i as int) =~= text@);
    }
    Ok(rs)
}

/// Applies one record of the log to the index being rebuilt, as replay
/// prescribes.
fn replay_step(
    index: &mut Vec<IndexEntry>,
    unc: &mut u64,
    logs: &Vec<GenLog>,
    j: usize,
    i: usize,
    Ghost(es): Ghost<Seq<(u64, Record)>>,
)
    requires
        (j as int) < logs@.len(),
        (i as int) < logs@[j as int].records@.len(),
        replay_ok(logs@, es, old(index)@, *old(unc)),
        size_of(es.push((logs@[j as int].gen, logs@[j as int].records@[i as int])))
            <= u64::MAX as int,
    ensures
        replay_ok(
            logs@,
            es.push((logs@[j as int].gen, logs@[j as int].records@[i as int])),
            final(index)@,
            *final(unc),
        ),
{
    let g = logs[j].gen;
    let ghost grec = logs@[j as int].records@[i as int];
    let ghost es1 = es.push((g, grec));
    proof {
        lemma_replay_push(es, g, grec);
        lemma_replay_unc_nonneg(es);
    }
    let rec = &logs[j].records[i];
    let rec_len = rec.len;
    match &rec.cmd {
        Command::Put { key, val } => {
            let cp = CommandPos { gen: g, pos: rec.pos, len: rec.len };
            let found = index_find(index, key);
            let ghost ix0 = index@;
            match found {
                Some(x) => {
                    let old_len = index[x].pos.len;
                    proof {
                        lemma_index_map_find(ix0, x as int);
                        lemma_live_size_entry(ix0, x as int);
                    }
                    let e2 = IndexEntry { key: key.clone(), pos: cp };
                    let ghost ge2 = e2;
                    index.set(x, e2);
                    *unc = *unc + old_len;
                    proof {
                        lemma_index_map_update(ix0, x as int, ge2);
                    }
                },
                None => {
                    proof {
                        lemma_index_map_absent(ix0, key@);
                    }
                    index.push(IndexEntry { key: key.clone(), pos: cp });
                    proof {
                        assert(index@.drop_last() =~= ix0);
                    }
                },
            }
            proof {
                assert(replay_kv(es1).dom() =~= index_map(index@).dom());
                assert forall|k: Seq<char>| #[trigger] index_map(index@).dom().contains(k)
                    implies has_record(logs@, k, index_map(index@)[k], replay_kv(es1)[k]) by {
                    if k == key@ {
                        assert(ptr_at(
                            logs@,
                            j as int,
                            i as int,
                            k,
                            index_map(index@)[k],
                            replay_kv(es1)[k],
                        ));
                    } else {
                        assert(index_map(ix0).dom().contains(k));
                    }
                }
            }
        },
        Command::Rm { key } => {
            let found = index_find(index, key);
            let ghost ix0 = index@;
            match found {
                Some(x) => {
                    let old_len = index[x].pos.len;
                    proof {
                        lemma_index_map_find(ix0, x as int);
                        lemma_live_size_entry(ix0, x as int);
                        lemma_index_map_remove(ix0, x as int);
                    }
                    index.remove(x);
                    *unc = *unc + old_len + rec_len;
                },
                None => {
                    proof {
                        lemma_index_map_absent(ix0, key@);
                        lemma_live_size_nonneg(ix0);
                        assert(replay_index(es).remove(key@) =~= replay_index(es));
                        assert(replay_kv(es).remove(key@) =~= replay_kv(es));
                    }
                    *unc = *unc + rec_len;
                },
            }
            proof {
                assert(replay_kv(es1).dom() =~= index_map(index@).dom());
                assert forall|k: Seq<char>| #[trigger] index_map(index@).dom().contains(k)
                    implies has_record(logs@, k, index_map(index@)[k], replay_kv(es1)[k]) by {
                    assert(index_map(ix0).dom().contains(k));
                }
            }
        },
    }
}

impl KvStore {
    /// Appends one command to the active generation and returns the
    /// location written.  The index is the caller's to bring up to
    /// date.
    fn append_record(&mut self, cmd: Command) -> (cp: CommandPos)
        requires
            old(self).logs@.len() >= 1,
            logs_wf(old(self).logs@),
            old(self).logs@.last().gen == old(self).current_gen,
            total_size(old(self).logs@) + enc_len(cmd) <= u64::MAX as int,
        ensures
            final(self).index == old(self).index,
            final(self).uncompacted == old(self).uncompacted,
            final(self).current_gen == old(self).current_gen,
            final(self).logs@.len() == old(self).logs@.len(),
            logs_wf(final(self).logs@),
            final(self).logs@.last().gen == old(self).current_gen,
            cp.gen == old(self).current_gen,
            cp.pos == old(self).logs@.last().size,
            cp.len == enc_len(cmd),
            total_size(final(self).logs@) == total_size(old(self).logs@) + enc_len(cmd),
            all_records(final(self).logs@) == all_records(old(self).logs@).push(
                (old(self).current_gen, Record { pos: cp.pos, len: cp.len, cmd }),
            ),
            forall|i: int|
                0 <= i < old(self).logs@.len() - 1 ==> old(self).logs@[i] == final(self).logs@[i],
            final(self).logs@.last().records@ == old(self).logs@.last().records@.push(
                Record { pos: cp.pos, len: cp.len, cmd },
            ),
    {
        let enc = encode_command(&cmd);
        let len = enc.len() as u64;
        proof {
            lemma_total_size_nonneg(self.logs@.drop_last());
        }
        let mut last = self.logs.pop().unwrap();
        let pos = last.size;
        let ghost gcmd = cmd;
        let rec = Record { pos, len, cmd };
        let ghost grec = rec;
        last.records.push(rec);
        last.size = pos + len;
        self.logs.push(last);
        proof {
            let a = old(self).logs@;
            let b = self.logs@;
            assert(b =~= a.drop_last().push(b.last()));
            assert(forall|i: int| 0 <= i < a.len() - 1 ==> a[i] == b[i]);
            assert(b.last().records@ == a.last().records@.push(grec));
            lemma_all_records_append(a, b, grec);
            assert(gen_log_wf(a[a.len() - 1]));
            assert(gen_log_wf(b.last())) by {
                let rs = b.last().records@;
                let old_rs = a.last().records@;
                let n = old_rs.len() as int;
                assert(forall|i: int| 0 <= i < n ==> rs[i] == old_rs[i]);
                assert(rs.last() == grec);
                lemma_recs_size_congruent(rs, old_rs, n);
                assert forall|i: int| 0 <= i < rs.len() implies (#[trigger] rs[i]).pos as int
                    == recs_size(rs, i) by {
                    if i < n {
                        lemma_recs_size_congruent(rs, old_rs, i);
                    }
                }
                assert(recs_size(rs, n + 1) == recs_size(rs, n) + grec.len);
            }
            assert(logs_wf(b));
            assert(b.drop_last() =~= a.drop_last());
            assert(total_size(b) == total_size(a) + enc_len(gcmd));
        }
        CommandPos { gen: self.current_gen, pos, len }
    }

    /// Opens a store over the discovered generation files, handed over
    /// in ascending generation order, replaying every record to
    /// rebuild the index and the dead-byte counter.  A record that
    /// fails to decode is unrecoverable corruption; a log whose total
    /// size overflows the offset arithmetic is refused.
    pub fn open(files: Vec<GenFile>) -> (r: Result<KvStore, KvsError>)
        requires
            forall|i: int, j: int|
                0 <= i < j < files@.len() ==> (#[trigger] files@[i]).gen < (
                #[trigger] files@[j]).gen,
            files@.len() > 0 ==> files@.last().gen < u64::MAX,
        ensures
            r is Ok <==> ((forall|j: int|
                0 <= j < files@.len() ==> parses_from((#[trigger] files@[j]).text@, 0))
                && files_size(files@) <= u64::MAX as int),
            r matches Ok(store) ==> {
                &&& store.wf()
                &&& store.logs@.len() == files@.len() + 1
                &&& forall|j: int|
                    0 <= j < files@.len() ==> (#[trigger] store.logs@[j]).gen == files@[j].gen
                        && recs_text(store.logs@[j].records@) == files@[j].text@
                &&& store.logs@.last().records@.len() == 0
                &&& store.current_gen == (if files@.len() == 0 {
                    1u64
                } else {
                    (files@.last().gen + 1) as u64
                })
            },
            r matches Err(e) ==> ((e matches KvsError::Malformed(g, _o) && (exists|x: int|
                0 <= x < files@.len() && (#[trigger] files@[x]).gen == g && !parses_from(
                    files@[x].text@,
                    0,
                ))) || (e is Full && files_size(files@) > u64::MAX as int)),
    {
        let n = files.len();
        let mut logs: Vec<GenLog> = Vec::new();
        let mut total: u64 = 0;
        let mut fi: usize = 0;
        while fi < n
            invariant
                fi <= n,
                n == files@.len(),
                logs@.len() == fi,
                forall|x: int| 0 <= x < fi ==> (#[trigger] logs@[x]).gen == files@[x].gen,
                forall|x: int| 0 <= x < fi ==> gen_log_wf(#[trigger] logs@[x]),
                forall|x: int|
                    0 <= x < fi ==> recs_text((#[trigger] logs@[x]).records@) == files@[x].text@,
                forall|x: int| 0 <= x < fi ==> parses_from((#[trigger] files@[x]).text@, 0),
                total as int == files_size(files@.subrange(0, fi as int)),
                total_size(logs@) == total as int,
            decreases n - fi,
        {
            let f = &files[fi];
            match load_gen(f.gen, &f.text) {
                Err(e) => {
                    return Err(e);
                },
                Ok(rs) => {
                    let tlen = f.text.len() as u64;
                    proof {
                        assert(files@.subrange(0, fi as int + 1).drop_last() =~= files@.subrange(
                            0,
                            fi as int,
                        ));
                        assert(files@.subrange(0, fi as int + 1).last() == files@[fi as int]);
                    }
                    if total > u64::MAX - tlen {
                        proof {
                            lemma_files_size_prefix(files@, fi as int + 1);
                        }
                        return Err(KvsError::Full);
                    }
                    total = total + tlen;
                    let ghost prevlogs = logs@;
                    logs.push(GenLog { gen: f.gen, records: rs, size: tlen });
                    proof {
                        assert(logs@.drop_last() =~= prevlogs);
                        assert(gen_log_wf(logs@[fi as int]));
                    }
                    fi = fi + 1;
                },
            }
        }
        proof {
            assert(files@.subrange(0, n as int) =~= files@);
        }
        let cur: u64 = if n == 0 {
            1
        } else {
            files[n - 1].gen + 1
        };
        let ghost prevlogs = logs@;
        logs.push(GenLog { gen: cur, records: Vec::new(), size: 0 });
        proof {
            assert(logs@.drop_last() =~= prevlogs);
            assert(gen_log_wf(logs@[n as int]));
            assert forall|a: int, b: int| 0 <= a < b < logs@.len() implies (#[trigger] logs@[
                a]).gen < (#[trigger] logs@[b]).gen by {
                if b < n {
                    assert(files@[a].gen < files@[b].gen);
                } else {
                    if a < n - 1 {
                        assert(files@[a].gen < files@[n - 1].gen);
                    }
                }
            }
            assert(logs_wf(logs@));
        }
        let mut index: Vec<IndexEntry> = Vec::new();
        let mut unc: u64 = 0;
        let mut j: usize = 0;
        let nl = logs.len();
        proof {
            assert(all_records(logs@.subrange(0, 0)) =~= Seq::<(u64, Record)>::empty());
            assert(replay_ok(logs@, all_records(logs@.subrange(0, 0)), index@, unc));
        }
        while j < nl
            invariant
                j <= nl,
                nl == logs@.len(),
                logs_wf(logs@),
                total_size(logs@) == total as int,
                replay_ok(logs@, all_records(logs@.subrange(0, j as int)), index@, unc),
            decreases nl - j,
        {
            let m = logs[j].records.len();
            let mut i: usize = 0;
            proof {
                let a = all_records(logs@.subrange(0, j as int));
                assert(tagged(logs@[j as int].gen, logs@[j as int].records@.subrange(0, 0))
                    =~= Seq::<(u64, Record)>::empty());
                assert(a + tagged(logs@[j as int].gen, logs@[j as int].records@.subrange(0, 0))
                    =~= a);
            }
            while i < m
                invariant
                    i <= m,
                    (j as int) < logs@.len(),
                    m == logs@[j as int].records@.len(),
                    nl == logs@.len(),
                    logs_wf(logs@),
                    total_size(logs@) == total as int,
                    replay_ok(
                        logs@,
                        all_records(logs@.subrange(0, j as int)) + tagged(
                            logs@[j as int].gen,
                            logs@[j as int].records@.subrange(0, i as int),
                        ),
                        index@,
                        unc,
                    ),
                decreases m - i,
            {
                let ghost a = all_records(logs@.subrange(0, j as int));
                let ghost rs = logs@[j as int].records@;
                let ghost g = logs@[j as int].gen;
                let ghost es = a + tagged(g, rs.subrange(0, i as int));
                proof {
                    assert(tagged(g, rs.subrange(0, i as int + 1)) =~= tagged(
                        g,
                        rs.subrange(0, i as int),
                    ).push((g, rs[i as int])));
                    assert(a + tagged(g, rs.subrange(0, i as int + 1)) =~= es.push(
                        (g, rs[i as int]),
                    ));
                    lemma_replay_prefix_size(logs@, j as int, i as int + 1);
                }
                replay_step(&mut index, &mut unc, &logs, j, i, Ghost(es));
                i = i + 1;
            }
            proof {
                let a = all_records(logs@.subrange(0, j as int));
                assert(logs@[j as int].records@.subrange(0, m as int) =~= logs@[j as int]
                    .records@);
                assert(logs@.subrange(0, j as int + 1).drop_last() =~= logs@.subrange(
                    0,
                    j as int,
                ));
                assert(logs@.subrange(0, j as int + 1).last() == logs@[j as int]);
                assert(all_records(logs@.subrange(0, j as int + 1)) == a + tagged(
                    logs@[j as int].gen,
                    logs@[j as int].records@,
                ));
            }
            j = j + 1;
        }
        proof {
            assert(logs@.subrange(0, nl as int) =~= logs@);
            lemma_size_flat(logs@);
            lemma_replay_doms(all_records(logs@));
        }
        let store = KvStore { logs, index, current_gen: cur, uncompacted: unc };
        proof {
            assert(store.wf());
        }
        Ok(store)
    }

    /// Sets a key to a value: appends a `Put` record, points the index
    /// at it, and compacts once enough dead bytes have accumulated.
    pub fn set(&mut self, key: String, val: String) -> (r: Result<(), KvsError>)
        requires
            old(self).wf(),
            old(self).can_append(put_len(key@, val@)),
            old(self).current_gen + 2 <= u64::MAX,
        ensures
            final(self).wf(),
            r is Ok,
            final(self).kv() == old(self).kv().insert(key@, val@),
            final(self).uncompacted <= COMPACTION_THRESHOLD,
            final(self).current_gen == old(self).current_gen || (final(self).current_gen == old(
                self,
            ).current_gen + 2 && final(self).uncompacted == 0),
            final(self).current_gen == old(self).current_gen ==> ({
                &&& final(self).logs@.len() == old(self).logs@.len()
                &&& forall|i: int|
                    0 <= i < old(self).logs@.len() - 1 ==> final(self).logs@[i] == old(
                        self,
                    ).logs@[i]
                &&& final(self).logs@.last().records@ == old(self).logs@.last().records@.push(
                    final(self).logs@.last().records@.last(),
                )
                &&& final(self).logs@.last().records@.last().pos == old(self).logs@.last().size
                &&& final(self).logs@.last().records@.last().len as int == put_len(key@, val@)
                &&& final(self).logs@.last().records@.last().cmd is Put
                &&& cmd_key(final(self).logs@.last().records@.last().cmd) == key@
                &&& cmd_val(final(self).logs@.last().records@.last().cmd) == val@
                &&& final(self).imap() == old(self).imap().insert(
                    key@,
                    final(self).imap()[key@],
                )
                &&& final(self).imap()[key@].gen == old(self).current_gen
                &&& final(self).imap()[key@].pos == old(self).logs@.last().size
                &&& final(self).imap()[key@].len as int == put_len(key@, val@)
                &&& final(self).uncompacted as int == old(self).uncompacted + (if old(
                    self,
                ).imap().dom().contains(key@) {
                    old(self).imap()[key@].len as int
                } else {
                    0
                })
                &&& final(self).spec_total_size() == old(self).spec_total_size() + put_len(
                    key@,
                    val@,
                )
            }),
    {
        let cmd = Command::Put { key: key.clone(), val };
        let ghost gcmd = cmd;
        let ghost a = self.logs@;
        let ghost es0 = all_records(self.logs@);
        let cp = self.append_record(cmd);
        let ghost rec = Record { pos: cp.pos, len: cp.len, cmd: gcmd };
        proof {
            lemma_replay_push(es0, old(self).current_gen, rec);
        }
        let found = index_find(&self.index, &key);
        let ghost ix0 = self.index@;
        match found {
            Some(i) => {
                let old_len = self.index[i].pos.len;
                proof {
                    lemma_index_map_find(ix0, i as int);
                    lemma_live_size_entry(ix0, i as int);
                }
                let e2 = IndexEntry { key, pos: cp };
                let ghost ge2 = e2;
                self.index.set(i, e2);
                self.uncompacted = self.uncompacted + old_len;
                proof {
                    lemma_index_map_update(ix0, i as int, ge2);
                }
            },
            None => {
                proof {
                    lemma_index_map_absent(ix0, key@);
                }
                self.index.push(IndexEntry { key, pos: cp });
                proof {
                    assert(self.index@.drop_last() =~= ix0);
                }
            },
        }
        proof {
            let b = self.logs@;
            let es1 = all_records(b);
            assert(es1 == es0.push((old(self).current_gen, rec)));
            assert(self.kv() =~= old(self).kv().insert(key@, val@));
            assert(self.kv().dom() =~= self.imap().dom());
            assert(self.imap() =~= replay_index(es1));
            assert forall|k: Seq<char>| #[trigger] self.imap().dom().contains(k)
                implies has_record(b, k, self.imap()[k], self.kv()[k]) by {
                if k == key@ {
                    let j = b.len() - 1;
                    let i2 = b.last().records@.len() - 1;
                    assert(b.last().records@[i2] == rec);
                    assert(ptr_at(b, j, i2, k, self.imap()[k], self.kv()[k]));
                } else {
                    assert(old(self).imap().dom().contains(k));
                    assert(has_record(a, k, old(self).imap()[k], old(self).kv()[k]));
                    lemma_has_record_append(a, b, rec, k, old(self).imap()[k], old(self).kv()[k]);
                }
            }
            assert(self.wf());
            assert(self.logs@.last().records@.last() == rec);
            assert(self.imap() =~= old(self).imap().insert(key@, self.imap()[key@]));
        }
        if self.uncompacted > COMPACTION_THRESHOLD {
            match self.compact() {
                Ok(()) => {},
                Err(e) => {
                    return Err(e);
                },
            }
        }
        Ok(())
    }

    /// The two generations compaction builds replay as one run of the
    /// rewritten records.
    #[verifier::rlimit(100)]
    proof fn lemma_compact_logs(
        lg: Seq<GenLog>,
        recs: Seq<Record>,
        target_gen: u64,
        new_gen: u64,
        new_pos: u64,
    )
        requires
            forall|x: int| 0 <= x < recs.len() ==> rec_wf(#[trigger] recs[x]),
            forall|x: int|
                0 <= x < recs.len() ==> (#[trigger] recs[x]).pos as int == recs_size(recs, x),
            new_pos as int == recs_size(recs, recs.len() as int),
            lg.len() == 2,
            lg[0].gen == target_gen,
            lg[0].records@ == recs,
            lg[0].size == new_pos,
            lg[1].gen == new_gen,
            lg[1].records@.len() == 0,
            lg[1].size == 0,
            target_gen < new_gen,
        ensures
            all_records(lg) == tagged(target_gen, recs),
            logs_wf(lg),
            total_size(lg) == new_pos,
    {
        assert(all_records(lg) =~= tagged(target_gen, recs)) by {
            let l1 = lg.drop_last();
            assert(l1.len() == 1);
            assert(l1.last() == lg[0]);
            assert(l1.drop_last().len() == 0);
            assert(all_records(l1.drop_last()) =~= Seq::<(u64, Record)>::empty());
            assert(all_records(l1) =~= tagged(target_gen, recs));
            assert(tagged(new_gen, lg[1].records@) =~= Seq::<(u64, Record)>::empty());
            assert(all_records(lg) =~= all_records(l1) + tagged(new_gen, lg[1].records@));
        }
        assert(gen_log_wf(lg[0]));
        assert(gen_log_wf(lg[1]));
        assert(logs_wf(lg)) by {
            assert(forall|a: int| 0 <= a < 2 ==> gen_log_wf(#[trigger] lg[a]));
        }
        assert(total_size(lg) == new_pos) by {
            assert(lg.drop_last().drop_last().len() == 0);
            assert(total_size(lg.drop_last().drop_last()) == 0);
            assert(lg.drop_last().last() == lg[0]);
            assert(total_size(lg.drop_last()) == new_pos);
        }
    }

    /// The rewritten records replay to exactly the old contents.
    proof fn lemma_compact_kv(
        old_index: Seq<IndexEntry>,
        old_kv: Map<Seq<char>, Seq<char>>,
        final_index: Seq<IndexEntry>,
        m: Map<Seq<char>, Seq<char>>,
    )
        requires
            old_kv.dom() == index_map(old_index).dom(),
            final_index.len() == old_index.len(),
            keys_unique(final_index),
            forall|x: int|
                0 <= x < final_index.len() ==> (#[trigger] final_index[x]).key@
                    == old_index[x].key@,
            m.dom() == index_map(final_index).dom(),
            forall|k: Seq<char>|
                #[trigger] index_map(final_index).dom().contains(k) ==> old_kv.dom().contains(k)
                    && m[k] == old_kv[k],
        ensures
            m == old_kv,
            old_kv.dom() == index_map(final_index).dom(),
    {
        assert forall|k: Seq<char>| old_kv.dom().contains(k) implies #[trigger] index_map(
            final_index,
        ).dom().contains(k) by {
            lemma_index_map_dom(old_index, k);
            let x = choose|x: int|
                0 <= x < old_index.len() && (#[trigger] old_index[x]).key@ == k;
            assert(final_index[x].key@ == k);
            lemma_index_map_find(final_index, x);
        }
        assert(old_kv.dom() =~= index_map(final_index).dom());
        assert(m =~= old_kv);
    }

    /// Every entry of the rewritten index points at its copy.
    proof fn lemma_compact_ptrs(
        lg: Seq<GenLog>,
        final_index: Seq<IndexEntry>,
        recs: Seq<Record>,
        old_kv: Map<Seq<char>, Seq<char>>,
        target_gen: u64,
    )
        requires
            keys_unique(final_index),
            recs.len() == final_index.len(),
            forall|x: int|
                0 <= x < final_index.len() ==> (#[trigger] final_index[x]).pos.gen == target_gen,
            forall|x: int|
                0 <= x < final_index.len() ==> (#[trigger] final_index[x]).pos.pos == recs[x].pos
                    && final_index[x].pos.len == recs[x].len,
            forall|x: int|
                0 <= x < recs.len() ==> ((#[trigger] recs[x]).cmd matches Command::Put { key, val }
                    && key@ == final_index[x].key@ && val@ == old_kv[final_index[x].key@]),
            lg.len() == 2,
            lg[0].gen == target_gen,
            lg[0].records@ == recs,
        ensures
            forall|k: Seq<char>|
                #[trigger] index_map(final_index).dom().contains(k) ==> has_record(
                    lg,
                    k,
                    index_map(final_index)[k],
                    old_kv[k],
                ),
    {
        assert forall|k: Seq<char>| #[trigger] index_map(final_index).dom().contains(k) implies
            has_record(lg, k, index_map(final_index)[k], old_kv[k]) by {
            lemma_index_map_dom(final_index, k);
            let x = choose|x: int|
                0 <= x < final_index.len() && (#[trigger] final_index[x]).key@ == k;
            lemma_index_map_find(final_index, x);
            assert(ptr_at(lg, 0, x, k, index_map(final_index)[k], old_kv[k]));
        }
    }

    /// Rewrites every live record, in index order, into a fresh
    /// generation, opens an even fresher one for future appends, and
    /// drops every older generation.  Lookups are unchanged and the
    /// dead-byte counter returns to zero.
    ///
    /// Index order is the store's insertion order: any fixed order
    /// gives deterministic output, and no ordering of the rewrite
    /// affects what replay yields, so the index is walked as it
    /// stands rather than re-sorted by key.
    #[verifier::rlimit(100)]
    pub fn compact(&mut self) -> (r: Result<(), KvsError>)
        requires
            old(self).wf(),
            old(self).current_gen + 2 <= u64::MAX,
        ensures
            r is Ok,
            final(self).wf(),
            final(self).kv() == old(self).kv(),
            final(self).uncompacted == 0,
            final(self).current_gen == old(self).current_gen + 2,
            total_size(final(self).logs@) == live_size(old(self).index@),
            final(self).logs@.len() == 2,
            final(self).logs@[0].gen == old(self).current_gen + 1,
            final(self).logs@[1].gen == old(self).current_gen + 2,
            final(self).logs@[1].records@.len() == 0,
            final(self).index@.len() == old(self).index@.len(),
            final(self).logs@[0].records@.len() == old(self).index@.len(),
            forall|x: int|
                0 <= x < final(self).index@.len() ==> (#[trigger] final(self).index@[x]).key@
                    == old(self).index@[x].key@ && final(self).index@[x].pos.gen == old(
                    self,
                ).current_gen + 1 && final(self).index@[x].pos.len == old(
                    self,
                ).index@[x].pos.len && final(self).index@[x].pos.pos
                    == final(self).logs@[0].records@[x].pos && final(self).index@[x].pos.pos
                    as int == recs_size(final(self).logs@[0].records@, x),
    {
        let target_gen = self.current_gen + 1;
        let new_gen = self.current_gen + 2;
        let mut new_records: Vec<Record> = Vec::new();
        let mut new_index: Vec<IndexEntry> = Vec::new();
        let mut new_pos: u64 = 0;
        let mut i: usize = 0;
        let n = self.index.len();
        while i < n
            invariant
                i <= n,
                n == self.index@.len(),
                self.wf(),
                *self == *old(self),
                target_gen == self.current_gen + 1,
                new_gen == self.current_gen + 2,
                self.current_gen + 2 <= u64::MAX,
                new_index@.len() == i,
                new_records@.len() == i,
                keys_unique(new_index@),
                forall|x: int|
                    0 <= x < i ==> (#[trigger] new_index@[x]).key@ == self.index@[x].key@,
                forall|x: int| 0 <= x < i ==> (#[trigger] new_index@[x]).pos.gen == target_gen,
                forall|x: int|
                    0 <= x < i ==> (#[trigger] new_index@[x]).pos.pos == new_records@[x].pos
                        && new_index@[x].pos.len == new_records@[x].len,
                forall|x: int| 0 <= x < i ==> rec_wf(#[trigger] new_records@[x]),
                forall|x: int|
                    0 <= x < i ==> (#[trigger] new_records@[x]).len == self.index@[x].pos.len,
                forall|x: int|
                    0 <= x < i ==> (#[trigger] new_records@[x]).pos as int == recs_size(
                        new_records@,
                        x,
                    ),
                forall|x: int|
                    0 <= x < i ==> ((#[trigger] new_records@[x]).cmd matches Command::Put {
                        key,
                        val,
                    } && key@ == self.index@[x].key@ && val@ == self.kv()[self.index@[x].key@]),
                new_pos as int == live_size(self.index@.subrange(0, i as int)),
                new_pos as int == live_size(new_index@),
                new_pos as int == recs_size(new_records@, i as int),
                replay_index(tagged(target_gen, new_records@)) == index_map(new_index@),
                replay_kv(tagged(target_gen, new_records@)).dom() == index_map(
                    new_index@,
                ).dom(),
                forall|k: Seq<char>|
                    #[trigger] index_map(new_index@).dom().contains(k) ==> self.kv().dom().contains(
                        k,
                    ) && replay_kv(tagged(target_gen, new_records@))[k] == self.kv()[k],
                replay_unc(tagged(target_gen, new_records@)) == 0,
            decreases n - i,
        {
            let p = self.index[i].pos;
            let entry_key = self.index[i].key.clone();
            proof {
                lemma_index_map_find(self.index@, i as int);
            }
            match find_record(&self.logs, p) {
                None => {
                    proof {
                        let k = self.index@[i as int].key@;
                        assert(has_record(self.logs@, k, p, self.kv()[k]));
                        let (jw, iw) = choose|jw: int, iw: int|
                            ptr_at(self.logs@, jw, iw, k, p, self.kv()[k]);
                        assert(false);
                    }
                    return Err(KvsError::UnexpectedCommandType);
                },
                Some((j, ri)) => {
                    proof {
                        let k = self.index@[i as int].key@;
                        assert(has_record(self.logs@, k, p, self.kv()[k]));
                        let (jw, iw) = choose|jw: int, iw: int|
                            ptr_at(self.logs@, jw, iw, k, p, self.kv()[k]);
                        lemma_gen_unique(self.logs@, j as int, jw);
                        if (ri as int) < iw {
                            lemma_positions_increase(self.logs@[j as int], ri as int, iw);
                        } else if iw < ri as int {
                            lemma_positions_increase(self.logs@[j as int], iw, ri as int);
                        }
                    }
                    let grec = &self.logs[j];
                    let rec0 = &grec.records[ri];
                    let cmd2 = match &rec0.cmd {
                        Command::Put { key, val } => Command::Put {
                            key: key.clone(),
                            val: val.clone(),
                        },
                        Command::Rm { key } => {
                            proof {
                                assert(false);
                            }
                            Command::Rm { key: key.clone() }
                        },
                    };
                    proof {
                        assert(cmd2 == rec0.cmd);
                        // room for this record's copy
                        lemma_replay_unc_nonneg(all_records(self.logs@));
                        assert(self.index@.subrange(0, i as int + 1).drop_last() =~= self.index@
                            .subrange(0, i as int));
                        assert(self.index@.subrange(0, i as int + 1).last() == self.index@[
                            i as int]);
                        lemma_live_size_prefix(self.index@, i as int + 1);
                    }
                    let rec2 = Record { pos: new_pos, len: p.len, cmd: cmd2 };
                    let ghost grec2 = rec2;
                    let ghost tg0 = tagged(target_gen, new_records@);
                    let ghost prev_index = new_index@;
                    let ghost prev_recs = new_records@;
                    new_records.push(rec2);
                    proof {
                        assert forall|x: int| 0 <= x <= i implies recs_size(new_records@, x)
                            == recs_size(prev_recs, x) by {
                            lemma_recs_size_congruent(new_records@, prev_recs, x);
                        }
                        assert(recs_size(new_records@, i as int + 1) == recs_size(
                            new_records@,
                            i as int,
                        ) + p.len);
                    }
                    let e2 = IndexEntry {
                        key: entry_key,
                        pos: CommandPos { gen: target_gen, pos: new_pos, len: p.len },
                    };
                    let ghost ge2 = e2;
                    new_index.push(e2);
                    proof {
                        assert(tagged(target_gen, new_records@) =~= tg0.push((target_gen, grec2)));
                        lemma_replay_push(tg0, target_gen, grec2);
                        assert(new_index@.drop_last() =~= prev_index);
                        let k = self.index@[i as int].key@;
                        assert forall|x: int| 0 <= x < i implies (#[trigger] prev_index[x]).key@
                            != k by {
                            assert(self.index@[x].key@ != k);
                        }
                        lemma_index_map_absent(prev_index, k);
                        assert(keys_unique(new_index@)) by {
                            assert(forall|x: int| 0 <= x < i ==> new_index@[x] == prev_index[x]);
                        }
                        assert(replay_kv(tagged(target_gen, new_records@)).dom() =~= index_map(
                            new_index@,
                        ).dom());
                    }
                    new_pos = new_pos + p.len;
                    i = i + 1;
                },
            }
        }
        let ghost recs = new_records@;
        let ghost final_index = new_index@;
        let g1 = GenLog { gen: target_gen, records: new_records, size: new_pos };
        let g2 = GenLog { gen: new_gen, records: Vec::new(), size: 0 };
        let mut newlogs: Vec<GenLog> = Vec::new();
        newlogs.push(g1);
        newlogs.push(g2);
        self.logs = newlogs;
        self.index = new_index;
        self.current_gen = new_gen;
        self.uncompacted = 0;
        proof {
            let lg = self.logs@;
            let tg = tagged(target_gen, recs);
            assert(old(self).index@.subrange(0, old(self).index@.len() as int) =~= old(
                self,
            ).index@);
            Self::lemma_compact_logs(lg, recs, target_gen, new_gen, new_pos);
            Self::lemma_compact_kv(old(self).index@, old(self).kv(), final_index, replay_kv(tg));
            assert forall|x: int| 0 <= x < recs.len() implies ((#[trigger] recs[x]).cmd matches
                Command::Put { key, val } && key@ == final_index[x].key@ && val@ == old(
                self,
            ).kv()[final_index[x].key@]) by {
                assert(final_index[x].key@ == old(self).index@[x].key@);
            }
            Self::lemma_compact_ptrs(lg, final_index, recs, old(self).kv(), target_gen);
            assert(self.kv() == old(self).kv());
            assert(self.wf());
        }
        Ok(())
    }

    /// Removes a key: appends an `Rm` tombstone and deletes the index
    /// entry.  Fails with `KeyNotFound`, changing nothing, exactly when
    /// the key is absent.
    pub fn remove(&mut self, key: String) -> (r: Result<(), KvsError>)
        requires
            old(self).wf(),
            old(self).can_append(rm_len(key@)),
        ensures
            final(self).wf(),
            old(self).kv().dom().contains(key@) ==> r is Ok && final(self).kv() == old(
                self,
            ).kv().remove(key@) && ({
                &&& final(self).current_gen == old(self).current_gen
                &&& final(self).logs@.len() == old(self).logs@.len()
                &&& forall|i: int|
                    0 <= i < old(self).logs@.len() - 1 ==> final(self).logs@[i] == old(
                        self,
                    ).logs@[i]
                &&& final(self).logs@.last().records@ == old(self).logs@.last().records@.push(
                    final(self).logs@.last().records@.last(),
                )
                &&& final(self).logs@.last().records@.last().pos == old(self).logs@.last().size
                &&& final(self).logs@.last().records@.last().len as int == rm_len(key@)
                &&& !(final(self).logs@.last().records@.last().cmd is Put)
                &&& cmd_key(final(self).logs@.last().records@.last().cmd) == key@
                &&& final(self).imap() == old(self).imap().remove(key@)
                &&& !final(self).imap().dom().contains(key@)
                &&& final(self).uncompacted as int == old(self).uncompacted + old(
                    self,
                ).imap()[key@].len + rm_len(key@)
                &&& final(self).spec_total_size() == old(self).spec_total_size() + rm_len(key@)
            }),
            !old(self).kv().dom().contains(key@) ==> *final(self) == *old(self) && (r matches Err(
                e,
            ) && (e matches KvsError::KeyNotFound(k) && k@ == key@)),
    {
        let found = index_find(&self.index, &key);
        match found {
            None => {
                proof {
                    lemma_index_map_absent(self.index@, key@);
                }
                Err(KvsError::KeyNotFound(key))
            },
            Some(i) => {
                proof {
                    lemma_index_map_find(self.index@, i as int);
                    lemma_live_size_entry(self.index@, i as int);
                }
                let old_len = self.index[i].pos.len;
                let cmd = Command::Rm { key };
                let ghost gcmd = cmd;
                let ghost a = self.logs@;
                let ghost es0 = all_records(self.logs@);
                let ghost ix0 = self.index@;
                let cp = self.append_record(cmd);
                let ghost rec = Record { pos: cp.pos, len: cp.len, cmd: gcmd };
                proof {
                    lemma_replay_push(es0, old(self).current_gen, rec);
                    lemma_index_map_remove(ix0, i as int);
                }
                self.index.remove(i);
                self.uncompacted = self.uncompacted + old_len + cp.len;
                proof {
                    let b = self.logs@;
                    let es1 = all_records(b);
                    assert(es1 == es0.push((old(self).current_gen, rec)));
                    assert(self.kv() =~= old(self).kv().remove(cmd_key(gcmd)));
                    assert(self.kv().dom() =~= self.imap().dom());
                    assert forall|k: Seq<char>| #[trigger] self.imap().dom().contains(k)
                        implies has_record(b, k, self.imap()[k], self.kv()[k]) by {
                        assert(old(self).imap().dom().contains(k));
                        assert(has_record(a, k, old(self).imap()[k], old(self).kv()[k]));
                        lemma_has_record_append(
                            a,
                            b,
                            rec,
                            k,
                            old(self).imap()[k],
                            old(self).kv()[k],
                        );
                    }
                    assert(self.wf());
                    assert(self.logs@.last().records@.last() == rec);
                    assert(self.imap() =~= old(self).imap().remove(key@));
                }
                Ok(())
            },
        }
    }

    /// Looks a key up: the value of its latest live `Put` record, or
    /// `None` for a key that is absent or removed.
    pub fn get(&mut self, key: String) -> (r: Result<Option<String>, KvsError>)
        requires
            old(self).wf(),
        ensures
            *final(self) == *old(self),
            r is Ok,
            r->Ok_0 matches Some(v) ==> old(self).kv().dom().contains(key@) && v@ == old(
                self,
            ).kv()[key@],
            r->Ok_0 is None <==> !old(self).kv().dom().contains(key@),
    {
        match index_find(&self.index, &key) {
            None => {
                proof {
                    lemma_index_map_absent(self.index@, key@);
                }
                Ok(None)
            },
            Some(i) => {
                let p = self.index[i].pos;
                proof {
                    lemma_index_map_find(self.index@, i as int);
                }
                match find_record(&self.logs, p) {
                    None => {
                        proof {
                            assert(has_record(self.logs@, key@, p, self.kv()[key@]));
                            let (jw, iw) = choose|jw: int, iw: int|
                                ptr_at(self.logs@, jw, iw, key@, p, self.kv()[key@]);
                            assert(false);
                        }
                        Err(KvsError::UnexpectedCommandType)
                    },
                    Some((j, ri)) => {
                        proof {
                            assert(has_record(self.logs@, key@, p, self.kv()[key@]));
                            let (jw, iw) = choose|jw: int, iw: int|
                                ptr_at(self.logs@, jw, iw, key@, p, self.kv()[key@]);
                            lemma_gen_unique(self.logs@, j as int, jw);
                            if (ri as int) < iw {
                                lemma_positions_increase(self.logs@[j as int], ri as int, iw);
                            } else if iw < ri as int {
                                lemma_positions_increase(self.logs@[j as int], iw, ri as int);
                            }
                        }
                        let grec = &self.logs[j];
                        let rec = &grec.records[ri];
                        match &rec.cmd {
                            Command::Put { val, .. } => Ok(Some(val.clone())),
                            Command::Rm { .. } => {
                                proof {
                                    assert(false);
                                }
                                Err(KvsError::UnexpectedCommandType)
                            },
                        }
                    },
                }
            },
        }
    }
}

/// The file name of one generation: its number in decimal, then the
/// `.log` suffix.
pub open spec fn log_file_name(gen: u64) -> Seq<char> {
    dec_digits(gen as int) + Seq::empty().push('.').push('l').push('o').push('g')
}

/// Renders the file name of one generation.
pub fn log_file(gen: u64) -> (name: String)
    ensures
        name@ == log_file_name(gen),
{
    let mut out: Vec<char> = Vec::new();
    push_dec(&mut out, gen);
    out.push('.');
    out.push('l');
    out.push('o');
    out.push('g');
    proof {
        assert(out@ =~= log_file_name(gen));
    }
    chars_to_string(&out)
}

impl KvStore {
    /// The text of every generation's file, the active one included:
    /// what the store's directory holds.
    pub fn export_files(&self) -> (files: Vec<GenFile>)
        ensures
            files@.len() == self.logs@.len(),
            forall|j: int|
                0 <= j < files@.len() ==> (#[trigger] files@[j]).gen == self.logs@[j].gen
                    && files@[j].text@ == recs_text(self.logs@[j].records@),
    {
        let mut files: Vec<GenFile> = Vec::new();
        let mut j: usize = 0;
        while j < self.logs.len()
            invariant
                j <= self.logs@.len(),
                files@.len() == j,
                forall|x: int|
                    0 <= x < j ==> (#[trigger] files@[x]).gen == self.logs@[x].gen
                        && files@[x].text@ == recs_text(self.logs@[x].records@),
            decreases self.logs@.len() - j,
        {
            let mut text: Vec<char> = Vec::new();
            let mut i: usize = 0;
            while i < self.logs[j].records.len()
                invariant
                    (j as int) < self.logs@.len(),
                    i <= self.logs@[j as int].records@.len(),
                    text@ == recs_text(self.logs@[j as int].records@.subrange(0, i as int)),
                decreases self.logs@[j as int].records@.len() - i,
            {
                let ghost rs = self.logs@[j as int].records@;
                let mut enc = encode_command(&self.logs[j].records[i].cmd);
                text.append(&mut enc);
                proof {
                    assert(rs.subrange(0, i as int + 1) =~= rs.subrange(0, i as int).push(
                        rs[i as int],
                    ));
                    lemma_recs_text_push(rs.subrange(0, i as int), rs[i as int]);
                }
                i = i + 1;
            }
            proof {
                let rs = self.logs@[j as int].records@;
                assert(rs.subrange(0, rs.len() as int) =~= rs);
            }
            let g = self.logs[j].gen;
            files.push(GenFile { gen: g, text });
            j = j + 1;
        }
        files
    }

    /// The total encoded length of all generations, as stored.
    pub fn total_size_exec(&self) -> (t: u64)
        requires
            self.wf(),
        ensures
            t as int == total_size(self.logs@),
    {
        let mut t: u64 = 0;
        let mut j: usize = 0;
        while j < self.logs.len()
            invariant
                self.wf(),
                j <= self.logs@.len(),
                t as int == total_size(self.logs@.subrange(0, j as int)),
            decreases self.logs@.len() - j,
        {
            proof {
                assert(self.logs@.subrange(0, j as int + 1).drop_last() =~= self.logs@.subrange(
                    0,
                    j as int,
                ));
                assert(self.logs@.subrange(0, j as int + 1).last() == self.logs@[j as int]);
                lemma_total_size_prefix(self.logs@, j as int + 1);
                lemma_total_size_nonneg(self.logs@.subrange(0, j as int));
            }
            t = t + self.logs[j].size;
            j = j + 1;
        }
        proof {
            assert(self.logs@.subrange(0, self.logs@.len() as int) =~= self.logs@);
        }
        t
    }
}

} // verus!
