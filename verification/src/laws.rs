//! The store's laws, stated over the same model maps that the
//! operations' contracts speak of, and the durability theorem: a
//! well-formed store's exported file text replays to the same
//! contents.

use vstd::prelude::*;

use crate::codec::{
    cmd_key, cmd_val, enc_cmd, lemma_enc_len_min, lemma_parse_record_enc, parse_record,
    parses_from, Command,
};
use crate::kv::{
    all_records, files_size, lemma_replay_unc_nonneg, lemma_live_size_nonneg, live_size,
    recs_text, replay_kv, tagged, total_size, GenFile, GenLog, KvStore, Record,
};

verus! {

/// Round trip: after a key is set to a value, looking that key up
/// finds exactly that value.  `set` ensures the model becomes
/// `insert(k, v)`; `get` returns the model's value at `k`.
pub proof fn lemma_round_trip(m: Map<Seq<char>, Seq<char>>, k: Seq<char>, v: Seq<char>)
    ensures
        m.insert(k, v).dom().contains(k),
        m.insert(k, v)[k] == v,
{
}

/// Tombstone: after a key is removed, looking it up finds nothing.
/// `remove` ensures the model becomes `remove(k)`; on a key that was
/// never set, `remove` itself fails with `KeyNotFound`.
pub proof fn lemma_tombstone(m: Map<Seq<char>, Seq<char>>, k: Seq<char>)
    ensures
        !m.remove(k).dom().contains(k),
{
}

/// Idempotent overwrite: setting a key twice leaves exactly the second
/// value, and the model holds one entry for the key.
pub proof fn lemma_overwrite(
    m: Map<Seq<char>, Seq<char>>,
    k: Seq<char>,
    v1: Seq<char>,
    v2: Seq<char>,
)
    ensures
        m.insert(k, v1).insert(k, v2) == m.insert(k, v2),
        m.insert(k, v1).insert(k, v2)[k] == v2,
{
    assert(m.insert(k, v1).insert(k, v2) =~= m.insert(k, v2));
}

/// Disjoint keys: operations on one key neither observe nor disturb
/// another key, and operations on distinct keys commute.
pub proof fn lemma_disjoint_keys(
    m: Map<Seq<char>, Seq<char>>,
    k1: Seq<char>,
    v1: Seq<char>,
    k2: Seq<char>,
    v2: Seq<char>,
)
    requires
        k1 != k2,
    ensures
        m.insert(k1, v1).dom().contains(k2) == m.dom().contains(k2),
        m.dom().contains(k2) ==> m.insert(k1, v1)[k2] == m[k2],
        m.remove(k1).dom().contains(k2) == m.dom().contains(k2),
        m.dom().contains(k2) ==> m.remove(k1)[k2] == m[k2],
        m.insert(k1, v1).insert(k2, v2) == m.insert(k2, v2).insert(k1, v1),
        m.insert(k1, v1).remove(k2) == m.remove(k2).insert(k1, v1),
{
    assert(m.insert(k1, v1).insert(k2, v2) =~= m.insert(k2, v2).insert(k1, v1));
    assert(m.insert(k1, v1).remove(k2) =~= m.remove(k2).insert(k1, v1));
}

/// Compaction's accounting: the dead-byte counter is exactly the log's
/// size beyond its live records, so compaction, which ensures the new
/// size is the live size, reclaims exactly that many bytes.
pub proof fn lemma_compaction_reclaims(store: KvStore)
    requires
        store.wf(),
    ensures
        0 <= live_size(store.index@),
        live_size(store.index@) <= total_size(store.logs@),
        store.uncompacted as int == total_size(store.logs@) - live_size(store.index@),
{
    lemma_live_size_nonneg(store.index@);
    lemma_replay_unc_nonneg(all_records(store.logs@));
}

/// Two commands with the same tag and the same field text.
pub open spec fn cmd_eq(c1: Command, c2: Command) -> bool {
    &&& (c1 is Put <==> c2 is Put)
    &&& cmd_key(c1) == cmd_key(c2)
    &&& cmd_val(c1) == cmd_val(c2)
}

/// A run of encoded records always replays: the log text a store
/// writes is readable.
pub proof fn lemma_recs_text_parses(rs: Seq<Record>, s: Seq<char>, i: int)
    requires
        0 <= i <= s.len(),
        s.subrange(i, s.len() as int) == recs_text(rs),
    ensures
        parses_from(s, i),
    decreases rs.len(),
{
    if rs.len() == 0 {
        assert(recs_text(rs).len() == 0);
        assert(i == s.len());
    } else {
        let c = rs[0].cmd;
        let e = enc_cmd(c);
        lemma_enc_len_min(c);
        let l = e.len() as int;
        assert(recs_text(rs) == e + recs_text(rs.drop_first()));
        assert(i + l <= s.len());
        assert(s.subrange(i, i + l) =~= e) by {
            assert forall|x: int| 0 <= x < l implies s.subrange(i, i + l)[x] == e[x] by {
                assert(s.subrange(i, s.len() as int)[x] == s[i + x]);
                assert(recs_text(rs)[x] == e[x]);
            }
        }
        lemma_parse_record_enc(c is Put, cmd_key(c), cmd_val(c), s, i);
        let p = parse_record(s, i)->Some_0;
        assert(p.end == i + l);
        assert(s.subrange(i + l, s.len() as int) =~= recs_text(rs.drop_first())) by {
            assert forall|x: int| 0 <= x < s.len() - i - l implies s.subrange(
                i + l,
                s.len() as int,
            )[x] == recs_text(rs.drop_first())[x] by {
                assert(s.subrange(i, s.len() as int)[l + x] == s[i + l + x]);
                assert(recs_text(rs)[l + x] == recs_text(rs.drop_first())[x]);
            }
        }
        lemma_recs_text_parses(rs.drop_first(), s, i + l);
    }
}

/// Two record runs with the same file text carry the same commands.
pub proof fn lemma_recs_text_fields(rs1: Seq<Record>, rs2: Seq<Record>)
    requires
        recs_text(rs1) == recs_text(rs2),
    ensures
        rs1.len() == rs2.len(),
        forall|x: int| 0 <= x < rs1.len() ==> cmd_eq(#[trigger] rs1[x].cmd, rs2[x].cmd),
    decreases rs1.len(),
{
    if rs1.len() == 0 || rs2.len() == 0 {
        if rs1.len() != 0 {
            lemma_enc_len_min(rs1[0].cmd);
            assert(recs_text(rs1).len() >= enc_cmd(rs1[0].cmd).len());
        }
        if rs2.len() != 0 {
            lemma_enc_len_min(rs2[0].cmd);
            assert(recs_text(rs2).len() >= enc_cmd(rs2[0].cmd).len());
        }
    } else {
        let t = recs_text(rs1);
        let c1 = rs1[0].cmd;
        let c2 = rs2[0].cmd;
        let e1 = enc_cmd(c1);
        let e2 = enc_cmd(c2);
        lemma_enc_len_min(c1);
        lemma_enc_len_min(c2);
        assert(t == e1 + recs_text(rs1.drop_first()));
        assert(t == e2 + recs_text(rs2.drop_first()));
        assert(t.subrange(0, e1.len() as int) =~= e1);
        assert(t.subrange(0, e2.len() as int) =~= e2);
        lemma_parse_record_enc(c1 is Put, cmd_key(c1), cmd_val(c1), t, 0);
        lemma_parse_record_enc(c2 is Put, cmd_key(c2), cmd_val(c2), t, 0);
        let p = parse_record(t, 0)->Some_0;
        assert(e1.len() == p.end && e2.len() == p.end);
        assert(cmd_eq(c1, c2));
        assert(recs_text(rs1.drop_first()) =~= recs_text(rs2.drop_first())) by {
            assert forall|x: int| 0 <= x < recs_text(rs1.drop_first()).len() implies recs_text(
                rs1.drop_first(),
            )[x] == recs_text(rs2.drop_first())[x] by {
                assert(t[p.end + x] == recs_text(rs1.drop_first())[x]);
                assert(t[p.end + x] == recs_text(rs2.drop_first())[x]);
            }
        }
        lemma_recs_text_fields(rs1.drop_first(), rs2.drop_first());
        assert forall|x: int| 0 <= x < rs1.len() implies cmd_eq(
            #[trigger] rs1[x].cmd,
            rs2[x].cmd,
        ) by {
            if x > 0 {
                assert(rs1.drop_first()[x - 1] == rs1[x]);
                assert(rs2.drop_first()[x - 1] == rs2[x]);
            }
        }
    }
}

/// Replaying depends only on each record's tag and field text.
pub proof fn lemma_replay_kv_congruent(es1: Seq<(u64, Record)>, es2: Seq<(u64, Record)>)
    requires
        es1.len() == es2.len(),
        forall|x: int| 0 <= x < es1.len() ==> cmd_eq(#[trigger] es1[x].1.cmd, es2[x].1.cmd),
    ensures
        replay_kv(es1) == replay_kv(es2),
    decreases es1.len(),
{
    if es1.len() > 0 {
        assert(forall|x: int|
            0 <= x < es1.len() - 1 ==> es1.drop_last()[x] == es1[x] && es2.drop_last()[x]
                == es2[x]);
        lemma_replay_kv_congruent(es1.drop_last(), es2.drop_last());
        let c1 = es1.last().1.cmd;
        let c2 = es2.last().1.cmd;
        assert(cmd_eq(c1, c2));
        match c1 {
            Command::Put { key, val } => {
                assert(replay_kv(es1) =~= replay_kv(es2));
            },
            Command::Rm { key } => {
                assert(replay_kv(es1) =~= replay_kv(es2));
            },
        }
    }
}

/// Generation-by-generation command equality carries to the flattened
/// replay order.
pub proof fn lemma_all_records_cmd_eq(ls1: Seq<GenLog>, ls2: Seq<GenLog>)
    requires
        ls1.len() == ls2.len(),
        forall|j: int|
            0 <= j < ls1.len() ==> (#[trigger] ls1[j]).records@.len() == ls2[j].records@.len(),
        forall|j: int, x: int|
            0 <= j < ls1.len() && 0 <= x < ls1[j].records@.len() ==> cmd_eq(
                (#[trigger] ls1[j].records@[x]).cmd,
                ls2[j].records@[x].cmd,
            ),
    ensures
        all_records(ls1).len() == all_records(ls2).len(),
        forall|x: int|
            0 <= x < all_records(ls1).len() ==> cmd_eq(
                (#[trigger] all_records(ls1)[x]).1.cmd,
                all_records(ls2)[x].1.cmd,
            ),
    decreases ls1.len(),
{
    if ls1.len() > 0 {
        assert(forall|j: int|
            0 <= j < ls1.len() - 1 ==> ls1.drop_last()[j] == ls1[j] && ls2.drop_last()[j]
                == ls2[j]);
        lemma_all_records_cmd_eq(ls1.drop_last(), ls2.drop_last());
        let a1 = all_records(ls1.drop_last());
        let a2 = all_records(ls2.drop_last());
        let t1 = tagged(ls1.last().gen, ls1.last().records@);
        let t2 = tagged(ls2.last().gen, ls2.last().records@);
        assert(ls1.last() == ls1[ls1.len() - 1]);
        assert(ls2.last() == ls2[ls2.len() - 1]);
        assert(t1.len() == t2.len());
        assert forall|x: int| 0 <= x < all_records(ls1).len() implies cmd_eq(
            (#[trigger] all_records(ls1)[x]).1.cmd,
            all_records(ls2)[x].1.cmd,
        ) by {
            if x < a1.len() {
                assert(all_records(ls1)[x] == a1[x]);
                assert(all_records(ls2)[x] == a2[x]);
            } else {
                assert(all_records(ls1)[x] == t1[x - a1.len()]);
                assert(all_records(ls2)[x] == t2[x - a2.len()]);
                assert(t1[x - a1.len()].1 == ls1.last().records@[x - a1.len()]);
                assert(t2[x - a2.len()].1 == ls2.last().records@[x - a2.len()]);
            }
        }
    }
}

/// Exported file sizes total the log's size.
pub proof fn lemma_export_size(files: Seq<GenFile>, logs: Seq<GenLog>)
    requires
        files.len() == logs.len(),
        forall|j: int| 0 <= j < files.len() ==> (#[trigger] files[j]).text@.len() == logs[j].size,
    ensures
        files_size(files) == total_size(logs),
    decreases files.len(),
{
    if files.len() > 0 {
        assert(forall|j: int|
            0 <= j < files.len() - 1 ==> files.drop_last()[j] == files[j] && logs.drop_last()[j]
                == logs[j]);
        lemma_export_size(files.drop_last(), logs.drop_last());
        assert(files.last() == files[files.len() - 1]);
        assert(logs.last() == logs[logs.len() - 1]);
    }
}

/// Durability: the text a well-formed store exports always opens, and
/// whatever store `open` builds from it holds exactly the same
/// contents.  `files` is the store's export; `reopened` is any store
/// meeting `open`'s success contract on those files.
pub proof fn lemma_durability(store: KvStore, files: Seq<GenFile>, reopened: KvStore)
    requires
        store.wf(),
        files.len() == store.logs@.len(),
        forall|j: int|
            0 <= j < files.len() ==> (#[trigger] files[j]).gen == store.logs@[j].gen
                && files[j].text@ == recs_text(store.logs@[j].records@),
        reopened.logs@.len() == files.len() + 1,
        forall|j: int|
            0 <= j < files.len() ==> (#[trigger] reopened.logs@[j]).gen == files[j].gen
                && recs_text(reopened.logs@[j].records@) == files[j].text@,
        reopened.logs@.last().records@.len() == 0,
    ensures
        forall|j: int| 0 <= j < files.len() ==> parses_from((#[trigger] files[j]).text@, 0),
        files_size(files) <= u64::MAX as int,
    reopened.kv() == store.kv(),
{
    assert forall|j: int| 0 <= j < files.len() implies parses_from(
        (#[trigger] files[j]).text@,
        0,
    ) by {
        let t = files[j].text@;
        assert(t.subrange(0, t.len() as int) =~= t);
        lemma_recs_text_parses(store.logs@[j].records@, t, 0);
    }
    assert forall|j: int| 0 <= j < files.len() implies (#[trigger] files[j]).text@.len()
        == store.logs@[j].size by {
        lemma_recs_text_size(store.logs@[j]);
    }
    lemma_export_size(files, store.logs@);
    // the reopened generations carry the same commands
    let pre = reopened.logs@.drop_last();
    assert(pre.len() == store.logs@.len());
    assert forall|j: int| 0 <= j < pre.len() implies (#[trigger] pre[j]).records@.len()
        == store.logs@[j].records@.len() && (forall|x: int|
        0 <= x < pre[j].records@.len() ==> cmd_eq(
            (#[trigger] pre[j].records@[x]).cmd,
            store.logs@[j].records@[x].cmd,
        )) by {
        assert(pre[j] == reopened.logs@[j]);
        lemma_recs_text_fields(pre[j].records@, store.logs@[j].records@);
    }
    lemma_all_records_cmd_eq(pre, store.logs@);
    lemma_replay_kv_congruent(all_records(pre), all_records(store.logs@));
    assert(tagged(reopened.logs@.last().gen, reopened.logs@.last().records@)
        =~= Seq::<(u64, Record)>::empty());
    assert(all_records(reopened.logs@) =~= all_records(pre));
}

/// A well-formed generation's text is as long as its recorded size.
pub proof fn lemma_recs_text_size(g: GenLog)
    requires
        crate::kv::gen_log_wf(g),
    ensures
        recs_text(g.records@).len() == g.size,
{
    lemma_recs_text_len(g.records@, g.records@.len() as int);
    assert(g.records@.subrange(0, g.records@.len() as int) =~= g.records@);
}

/// The text of the first `i` records is their total encoded length.
proof fn lemma_recs_text_len(rs: Seq<Record>, i: int)
    requires
        0 <= i <= rs.len(),
        forall|x: int| 0 <= x < rs.len() ==> crate::kv::rec_wf(#[trigger] rs[x]),
    ensures
        recs_text(rs.subrange(rs.len() - i, rs.len() as int)).len() == crate::kv::recs_size(
            rs,
            rs.len() as int,
        ) - crate::kv::recs_size(rs, rs.len() - i),
    decreases i,
{
    if i == 0 {
        assert(rs.subrange(rs.len() as int, rs.len() as int) =~= Seq::<Record>::empty());
    } else {
        lemma_recs_text_len(rs, i - 1);
        let sub = rs.subrange(rs.len() - i, rs.len() as int);
        assert(sub[0] == rs[rs.len() - i]);
        assert(sub.drop_first() =~= rs.subrange(rs.len() - (i - 1), rs.len() as int));
        assert(recs_text(sub) == enc_cmd(sub[0].cmd) + recs_text(sub.drop_first()));
        assert(crate::kv::recs_size(rs, rs.len() - i + 1) == crate::kv::recs_size(
            rs,
            rs.len() - i,
        ) + rs[rs.len() - i].len);
    }
}

} // verus!
