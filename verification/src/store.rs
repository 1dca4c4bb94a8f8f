//! The durable log and its consumer-group delivery protocol.
//!
//! [`LogStore`] is the reference model of the log partition the ingestion
//! pipeline writes to: append-only streams of immutable entries with strictly
//! increasing identifiers, and per-(stream, group) cursors that track a
//! last-delivered watermark and a pending set. The contracts here state the
//! delivery guarantees — idempotent group creation, at-least-once delivery,
//! idempotent acknowledgement, per-stream ordering — and the law lemmas at
//! the end restate them over the operation relations.

use vstd::prelude::*;

use crate::order::{parse_option, parse_order_type, create_shape_ok, CmdView, ValidationError};

verus! {

/// An immutable log entry: a store-assigned identifier and the payload.
pub struct LogEntry {
    pub id: u64,
    pub payload: Vec<u8>,
}

/// A delivered-but-unacknowledged entry and the consumer holding it.
pub struct PendingEntry {
    pub id: u64,
    pub consumer: String,
}

/// A consumer group's cursor over one stream.
pub struct Group {
    pub name: String,
    pub watermark: u64,
    pub pending: Vec<PendingEntry>,
}

/// One append-only stream and the groups reading it.
pub struct StreamSt {
    pub name: String,
    pub next_id: u64,
    pub entries: Vec<LogEntry>,
    pub groups: Vec<Group>,
}

/// The log store: every stream this partition holds.
pub struct LogStore {
    pub streams: Vec<StreamSt>,
}

/// The identifier space of a stream is exhausted, so no further entry can be
/// appended. The transport edge reports unreachable stores before a call ever
/// reaches this model.
#[derive(Clone, Copy, PartialEq, Eq, Structural, Debug)]
pub enum AppendError {
    Exhausted,
}

/// Reading on behalf of a group that was never created.
#[derive(Clone, Copy, PartialEq, Eq, Structural, Debug)]
pub enum ReadError {
    NoGroup,
}

pub open spec fn find_stream(ss: Seq<StreamSt>, name: Seq<char>) -> Option<StreamSt>
    decreases ss.len(),
{
    if ss.len() == 0 {
        None
    } else if ss[0].name@ == name {
        Some(ss[0])
    } else {
        find_stream(ss.drop_first(), name)
    }
}

pub open spec fn find_group(gs: Seq<Group>, name: Seq<char>) -> Option<Group>
    decreases gs.len(),
{
    if gs.len() == 0 {
        None
    } else if gs[0].name@ == name {
        Some(gs[0])
    } else {
        find_group(gs.drop_first(), name)
    }
}

/// The consumer holding a pending entry, if the entry is pending.
pub open spec fn pending_lookup(ps: Seq<PendingEntry>, id: u64) -> Option<Seq<char>>
    decreases ps.len(),
{
    if ps.len() == 0 {
        None
    } else if ps[0].id == id {
        Some(ps[0].consumer@)
    } else {
        pending_lookup(ps.drop_first(), id)
    }
}

/// The payload of the entry with the given identifier, if it exists.
pub open spec fn entry_lookup(es: Seq<LogEntry>, id: u64) -> Option<Seq<u8>>
    decreases es.len(),
{
    if es.len() == 0 {
        None
    } else if es[0].id == id {
        Some(es[0].payload@)
    } else {
        entry_lookup(es.drop_first(), id)
    }
}

impl LogStore {
    pub open spec fn has_stream(self, sn: Seq<char>) -> bool {
        find_stream(self.streams@, sn) is Some
    }

    /// The entries of a stream as (identifier, payload) pairs, oldest first.
    pub open spec fn entries_of(self, sn: Seq<char>) -> Seq<(u64, Seq<u8>)> {
        match find_stream(self.streams@, sn) {
            None => Seq::empty(),
            Some(st) => st.entries@.map_values(|e: LogEntry| (e.id, e.payload@)),
        }
    }

    /// The identifier the next append to the stream will receive.
    pub open spec fn next_id_of(self, sn: Seq<char>) -> u64 {
        match find_stream(self.streams@, sn) {
            None => 1,
            Some(st) => st.next_id,
        }
    }

    pub open spec fn group_of(self, sn: Seq<char>, gn: Seq<char>) -> Option<Group> {
        match find_stream(self.streams@, sn) {
            None => None,
            Some(st) => find_group(st.groups@, gn),
        }
    }

    pub open spec fn has_group(self, sn: Seq<char>, gn: Seq<char>) -> bool {
        self.group_of(sn, gn) is Some
    }

    /// The group's last-delivered identifier; zero before any delivery.
    pub open spec fn watermark_of(self, sn: Seq<char>, gn: Seq<char>) -> u64 {
        match self.group_of(sn, gn) {
            None => 0,
            Some(g) => g.watermark,
        }
    }

    /// Who holds an entry of the group's pending set, if anyone.
    pub open spec fn pending_of(self, sn: Seq<char>, gn: Seq<char>, id: u64) -> Option<Seq<char>> {
        match self.group_of(sn, gn) {
            None => None,
            Some(g) => pending_lookup(g.pending@, id),
        }
    }

    pub open spec fn is_pending(self, sn: Seq<char>, gn: Seq<char>, id: u64) -> bool {
        self.pending_of(sn, gn, id) is Some
    }
}

pub open spec fn group_wf(g: Group, st: StreamSt) -> bool {
    &&& forall|i: int, j: int|
        0 <= i < j < g.pending@.len() ==> g.pending@[i].id != g.pending@[j].id
    &&& forall|i: int|
        0 <= i < g.pending@.len() ==> (#[trigger] g.pending@[i].id) <= g.watermark
            && entry_lookup(st.entries@, g.pending@[i].id) is Some
}

pub open spec fn stream_wf(st: StreamSt) -> bool {
    &&& forall|i: int, j: int|
        0 <= i < j < st.entries@.len() ==> st.entries@[i].id < st.entries@[j].id
    &&& forall|i: int| 0 <= i < st.entries@.len() ==> 0 < (#[trigger] st.entries@[i].id) < st.next_id
    &&& st.next_id >= 1
    &&& forall|i: int, j: int|
        0 <= i < j < st.groups@.len() ==> st.groups@[i].name@ != st.groups@[j].name@
    &&& forall|i: int| 0 <= i < st.groups@.len() ==> group_wf(#[trigger] st.groups@[i], st)
}

impl LogStore {
    /// Internal consistency: distinct names, sorted identifiers below the
    /// counter, pending entries that really were delivered.
    pub open spec fn wf(self) -> bool {
        &&& forall|i: int, j: int|
            0 <= i < j < self.streams@.len() ==> self.streams@[i].name@ != self.streams@[j].name@
        &&& forall|i: int| 0 <= i < self.streams@.len() ==> stream_wf(#[trigger] self.streams@[i])
    }
}

/// The named stream looks the same in both stores.
pub open spec fn stream_equiv(s0: LogStore, s1: LogStore, sn: Seq<char>) -> bool {
    &&& s1.has_stream(sn) == s0.has_stream(sn)
    &&& s1.next_id_of(sn) == s0.next_id_of(sn)
    &&& s1.entries_of(sn) == s0.entries_of(sn)
}

/// The named group looks the same in both stores.
pub open spec fn group_equiv(s0: LogStore, s1: LogStore, sn: Seq<char>, gn: Seq<char>) -> bool {
    &&& s1.has_group(sn, gn) == s0.has_group(sn, gn)
    &&& s1.watermark_of(sn, gn) == s0.watermark_of(sn, gn)
    &&& forall|id: u64| s1.pending_of(sn, gn, id) == s0.pending_of(sn, gn, id)
}

/// No observable difference anywhere.
pub open spec fn store_equiv(s0: LogStore, s1: LogStore) -> bool {
    &&& forall|sn: Seq<char>| #[trigger] stream_equiv(s0, s1, sn)
    &&& forall|sn: Seq<char>, gn: Seq<char>| #[trigger] group_equiv(s0, s1, sn, gn)
}

proof fn lemma_find_stream_at(ss: Seq<StreamSt>, n: Seq<char>, i: int)
    requires
        0 <= i < ss.len(),
        forall|j: int| 0 <= j < i ==> (#[trigger] ss[j].name@) != n,
        ss[i].name@ == n,
    ensures
        find_stream(ss, n) == Some(ss[i]),
    decreases i,
{
    if i > 0 {
        lemma_find_stream_at(ss.drop_first(), n, i - 1);
    }
}

proof fn lemma_find_stream_none(ss: Seq<StreamSt>, n: Seq<char>)
    requires
        forall|j: int| 0 <= j < ss.len() ==> (#[trigger] ss[j].name@) != n,
    ensures
        find_stream(ss, n) is None,
    decreases ss.len(),
{
    if ss.len() > 0 {
        lemma_find_stream_none(ss.drop_first(), n);
    }
}

/// Appending a stream with a fresh name changes only that name's lookup.
proof fn lemma_find_stream_push(ss: Seq<StreamSt>, st: StreamSt, n: Seq<char>)
    ensures
        find_stream(ss.push(st), n) == if n == st.name@ && find_stream(ss, n) is None {
            Some(st)
        } else {
            find_stream(ss, n)
        },
    decreases ss.len(),
{
    if ss.len() == 0 {
        assert(ss.push(st).drop_first() =~= Seq::<StreamSt>::empty());
        assert(ss.push(st)[0] == st);
        assert(find_stream(ss, n) is None);
        if st.name@ == n {
            assert(find_stream(ss.push(st), n) == Some(st));
        } else {
            assert(find_stream(ss.push(st), n) == find_stream(
                ss.push(st).drop_first(),
                n,
            ));
            assert(find_stream(Seq::<StreamSt>::empty(), n) is None);
        }
    } else {
        lemma_find_stream_push(ss.drop_first(), st, n);
        assert(ss.push(st).drop_first() =~= ss.drop_first().push(st));
        assert(ss.push(st)[0] == ss[0]);
        if ss[0].name@ == n {
            assert(find_stream(ss.push(st), n) == Some(ss[0]));
            assert(find_stream(ss, n) == Some(ss[0]));
        } else {
            assert(find_stream(ss.push(st), n) == find_stream(ss.drop_first().push(st), n));
            assert(find_stream(ss, n) == find_stream(ss.drop_first(), n));
        }
    }
}

/// Replacing a stream in place changes only that name's lookup.
proof fn lemma_find_stream_update(ss: Seq<StreamSt>, i: int, st: StreamSt, n: Seq<char>)
    requires
        0 <= i < ss.len(),
        st.name@ == ss[i].name@,
        forall|j: int, k: int| 0 <= j < k < ss.len() ==> (#[trigger] ss[j].name@) != (#[trigger] ss[k].name@),
    ensures
        find_stream(ss.update(i, st), n) == if n == st.name@ {
            Some(st)
        } else {
            find_stream(ss, n)
        },
    decreases i,
{
    if i == 0 {
        assert(ss.update(0, st)[0] == st);
        assert(ss.update(0, st).drop_first() =~= ss.drop_first());
        if n == st.name@ {
        } else {
            assert(ss[0].name@ != n);
        }
        if ss[0].name@ == n && n != st.name@ {
            assert(false);
        }
        if n != st.name@ && find_stream(ss, n) is Some {
        }
    } else {
        assert(ss.update(i, st)[0] == ss[0]);
        assert(ss.update(i, st).drop_first() =~= ss.drop_first().update(i - 1, st));
        lemma_find_stream_update(ss.drop_first(), i - 1, st, n);
        assert(ss[0].name@ != ss[i].name@);
    }
}

proof fn lemma_find_group_at(gs: Seq<Group>, n: Seq<char>, i: int)
    requires
        0 <= i < gs.len(),
        forall|j: int| 0 <= j < i ==> (#[trigger] gs[j].name@) != n,
        gs[i].name@ == n,
    ensures
        find_group(gs, n) == Some(gs[i]),
    decreases i,
{
    if i > 0 {
        lemma_find_group_at(gs.drop_first(), n, i - 1);
    }
}

proof fn lemma_find_group_none(gs: Seq<Group>, n: Seq<char>)
    requires
        forall|j: int| 0 <= j < gs.len() ==> (#[trigger] gs[j].name@) != n,
    ensures
        find_group(gs, n) is None,
    decreases gs.len(),
{
    if gs.len() > 0 {
        lemma_find_group_none(gs.drop_first(), n);
    }
}

proof fn lemma_find_group_push(gs: Seq<Group>, g: Group, n: Seq<char>)
    ensures
        find_group(gs.push(g), n) == if n == g.name@ && find_group(gs, n) is None {
            Some(g)
        } else {
            find_group(gs, n)
        },
    decreases gs.len(),
{
    if gs.len() == 0 {
        assert(gs.push(g).drop_first() =~= Seq::<Group>::empty());
        assert(gs.push(g)[0] == g);
        assert(find_group(gs, n) is None);
        if g.name@ == n {
            assert(find_group(gs.push(g), n) == Some(g));
        } else {
            assert(find_group(gs.push(g), n) == find_group(gs.push(g).drop_first(), n));
            assert(find_group(Seq::<Group>::empty(), n) is None);
        }
    } else {
        lemma_find_group_push(gs.drop_first(), g, n);
        assert(gs.push(g).drop_first() =~= gs.drop_first().push(g));
        assert(gs.push(g)[0] == gs[0]);
        if gs[0].name@ == n {
            assert(find_group(gs.push(g), n) == Some(gs[0]));
            assert(find_group(gs, n) == Some(gs[0]));
        } else {
            assert(find_group(gs.push(g), n) == find_group(gs.drop_first().push(g), n));
            assert(find_group(gs, n) == find_group(gs.drop_first(), n));
        }
    }
}

proof fn lemma_find_group_update(gs: Seq<Group>, i: int, g: Group, n: Seq<char>)
    requires
        0 <= i < gs.len(),
        g.name@ == gs[i].name@,
        forall|j: int, k: int| 0 <= j < k < gs.len() ==> (#[trigger] gs[j].name@) != (#[trigger] gs[k].name@),
    ensures
        find_group(gs.update(i, g), n) == if n == g.name@ {
            Some(g)
        } else {
            find_group(gs, n)
        },
    decreases i,
{
    if i == 0 {
        assert(gs.update(0, g)[0] == g);
        assert(gs.update(0, g).drop_first() =~= gs.drop_first());
    } else {
        assert(gs.update(i, g)[0] == gs[0]);
        assert(gs.update(i, g).drop_first() =~= gs.drop_first().update(i - 1, g));
        lemma_find_group_update(gs.drop_first(), i - 1, g, n);
        assert(gs[0].name@ != gs[i].name@);
    }
}

impl LogStore {
    /// A fresh, empty store: no streams, no groups.
    pub fn new() -> (r: LogStore)
        ensures
            r.wf(),
            forall|sn: Seq<char>| !(#[trigger] r.has_stream(sn)),
            forall|sn: Seq<char>, gn: Seq<char>| !(#[trigger] r.has_group(sn, gn)),
    {
        let r = LogStore { streams: Vec::new() };
        proof {
            assert forall|sn: Seq<char>| !(#[trigger] r.has_stream(sn)) by {
                lemma_find_stream_none(r.streams@, sn);
            }
            assert forall|sn: Seq<char>, gn: Seq<char>| !(#[trigger] r.has_group(sn, gn)) by {
                lemma_find_stream_none(r.streams@, sn);
            }
        }
        r
    }

    fn find_stream_idx(&self, name: &String) -> (r: Option<usize>)
        ensures
            match r {
                Some(i) => i < self.streams@.len() && self.streams@[i as int].name@ == name@
                    && find_stream(self.streams@, name@) == Some(self.streams@[i as int]),
                None => find_stream(self.streams@, name@) is None,
            },
    {
        let n = self.streams.len();
        let mut i: usize = 0;
        while i < n
            invariant
                i <= n,
                n == self.streams@.len(),
                forall|j: int| 0 <= j < i ==> (#[trigger] self.streams@[j].name@) != name@,
            decreases n - i,
        {
            if crate::order::str_eq(self.streams[i].name.as_str(), name.as_str()) {
                proof {
                    lemma_find_stream_at(self.streams@, name@, i as int);
                }
                return Some(i);
            }
            i = i + 1;
        }
        proof {
            lemma_find_stream_none(self.streams@, name@);
        }
        None
    }
}

fn find_group_idx(groups: &Vec<Group>, name: &String) -> (r: Option<usize>)
    ensures
        match r {
            Some(i) => i < groups@.len() && groups@[i as int].name@ == name@ && find_group(
                groups@,
                name@,
            ) == Some(groups@[i as int]),
            None => find_group(groups@, name@) is None,
        },
{
    let n = groups.len();
    let mut i: usize = 0;
    while i < n
        invariant
            i <= n,
            n == groups@.len(),
            forall|j: int| 0 <= j < i ==> (#[trigger] groups@[j].name@) != name@,
        decreases n - i,
    {
        if crate::order::str_eq(groups[i].name.as_str(), name.as_str()) {
            proof {
                lemma_find_group_at(groups@, name@, i as int);
            }
            return Some(i);
        }
        i = i + 1;
    }
    proof {
        lemma_find_group_none(groups@, name@);
    }
    None
}

fn find_pending_idx(ps: &Vec<PendingEntry>, id: u64) -> (r: Option<usize>)
    ensures
        match r {
            Some(i) => i < ps@.len() && ps@[i as int].id == id && pending_lookup(ps@, id)
                == Some(ps@[i as int].consumer@),
            None => pending_lookup(ps@, id) is None,
        },
{
    let n = ps.len();
    let mut i: usize = 0;
    while i < n
        invariant
            i <= n,
            n == ps@.len(),
            forall|j: int| 0 <= j < i ==> (#[trigger] ps@[j].id) != id,
        decreases n - i,
    {
        if ps[i].id == id {
            proof {
                lemma_pending_at(ps@, id, i as int);
            }
            return Some(i);
        }
        i = i + 1;
    }
    proof {
        lemma_pending_none(ps@, id);
    }
    None
}

proof fn lemma_pending_at(ps: Seq<PendingEntry>, id: u64, i: int)
    requires
        0 <= i < ps.len(),
        forall|j: int| 0 <= j < i ==> (#[trigger] ps[j].id) != id,
        ps[i].id == id,
    ensures
        pending_lookup(ps, id) == Some(ps[i].consumer@),
    decreases i,
{
    if i > 0 {
        lemma_pending_at(ps.drop_first(), id, i - 1);
    }
}

proof fn lemma_pending_none(ps: Seq<PendingEntry>, id: u64)
    requires
        forall|j: int| 0 <= j < ps.len() ==> (#[trigger] ps[j].id) != id,
    ensures
        pending_lookup(ps, id) is None,
    decreases ps.len(),
{
    if ps.len() > 0 {
        lemma_pending_none(ps.drop_first(), id);
    }
}

proof fn lemma_pending_push(ps: Seq<PendingEntry>, pe: PendingEntry, id: u64)
    ensures
        pending_lookup(ps.push(pe), id) == match pending_lookup(ps, id) {
            Some(c) => Some(c),
            None => if pe.id == id {
                Some(pe.consumer@)
            } else {
                None
            },
        },
    decreases ps.len(),
{
    if ps.len() == 0 {
        assert(ps.push(pe).drop_first() =~= Seq::<PendingEntry>::empty());
        assert(ps.push(pe)[0] == pe);
        if pe.id != id {
            assert(pending_lookup(Seq::<PendingEntry>::empty(), id) is None);
        }
    } else {
        lemma_pending_push(ps.drop_first(), pe, id);
        assert(ps.push(pe).drop_first() =~= ps.drop_first().push(pe));
        assert(ps.push(pe)[0] == ps[0]);
    }
}

proof fn lemma_pending_remove(ps: Seq<PendingEntry>, k: int, id: u64)
    requires
        0 <= k < ps.len(),
        forall|i: int, j: int| 0 <= i < j < ps.len() ==> ps[i].id != ps[j].id,
        ps[k].id == id,
    ensures
        pending_lookup(ps.remove(k), id) is None,
        forall|id2: u64| id2 != id ==> pending_lookup(ps.remove(k), id2) == pending_lookup(ps, id2),
    decreases k,
{
    if k == 0 {
        assert(ps.remove(0) =~= ps.drop_first());
        assert forall|j: int| 0 <= j < ps.drop_first().len() implies (#[trigger] ps.drop_first()[j].id) != id by {
            assert(ps.drop_first()[j] == ps[j + 1]);
        }
        lemma_pending_none(ps.drop_first(), id);
        assert forall|id2: u64| id2 != id implies pending_lookup(ps.remove(0), id2)
            == pending_lookup(ps, id2) by {
            assert(ps[0].id != id2);
            assert(pending_lookup(ps, id2) == pending_lookup(ps.drop_first(), id2));
        }
    } else {
        lemma_pending_remove(ps.drop_first(), k - 1, id);
        assert(ps.remove(k).drop_first() =~= ps.drop_first().remove(k - 1));
        assert(ps.remove(k)[0] == ps[0]);
        assert(ps[0].id != id);
        assert forall|id2: u64| id2 != id implies pending_lookup(ps.remove(k), id2)
            == pending_lookup(ps, id2) by {
            if ps[0].id == id2 {
            } else {
                assert(pending_lookup(ps.remove(k), id2) == pending_lookup(
                    ps.drop_first().remove(k - 1),
                    id2,
                ));
                assert(pending_lookup(ps.drop_first().remove(k - 1), id2) == pending_lookup(
                    ps.drop_first(),
                    id2,
                ));
            }
        }
    }
}

proof fn lemma_entry_at(es: Seq<LogEntry>, id: u64, i: int)
    requires
        0 <= i < es.len(),
        forall|j: int| 0 <= j < i ==> (#[trigger] es[j].id) != id,
        es[i].id == id,
    ensures
        entry_lookup(es, id) == Some(es[i].payload@),
    decreases i,
{
    if i > 0 {
        lemma_entry_at(es.drop_first(), id, i - 1);
    }
}

proof fn lemma_entry_none(es: Seq<LogEntry>, id: u64)
    requires
        forall|j: int| 0 <= j < es.len() ==> (#[trigger] es[j].id) != id,
    ensures
        entry_lookup(es, id) is None,
    decreases es.len(),
{
    if es.len() > 0 {
        lemma_entry_none(es.drop_first(), id);
    }
}

proof fn lemma_entry_push(es: Seq<LogEntry>, e: LogEntry, id: u64)
    ensures
        entry_lookup(es.push(e), id) == match entry_lookup(es, id) {
            Some(c) => Some(c),
            None => if e.id == id {
                Some(e.payload@)
            } else {
                None
            },
        },
    decreases es.len(),
{
    if es.len() == 0 {
        assert(es.push(e).drop_first() =~= Seq::<LogEntry>::empty());
        assert(es.push(e)[0] == e);
        if e.id != id {
            assert(entry_lookup(Seq::<LogEntry>::empty(), id) is None);
        }
    } else {
        lemma_entry_push(es.drop_first(), e, id);
        assert(es.push(e).drop_first() =~= es.drop_first().push(e));
        assert(es.push(e)[0] == es[0]);
    }
}

proof fn lemma_remove_insert_stream(ss: Seq<StreamSt>, i: int, st: StreamSt)
    requires
        0 <= i < ss.len(),
    ensures
        ss.remove(i).insert(i, st) =~= ss.update(i, st),
{
}

proof fn lemma_remove_insert_group(gs: Seq<Group>, i: int, g: Group)
    requires
        0 <= i < gs.len(),
    ensures
        gs.remove(i).insert(i, g) =~= gs.update(i, g),
{
}

fn copy_payload(src: &Vec<u8>) -> (r: Vec<u8>)
    ensures
        r@ == src@,
{
    let mut r: Vec<u8> = Vec::new();
    let n = src.len();
    let mut i: usize = 0;
    while i < n
        invariant
            i <= n,
            n == src@.len(),
            r@ == src@.take(i as int),
        decreases n - i,
    {
        r.push(src[i]);
        proof {
            assert(r@ =~= src@.take(i + 1 as int));
        }
        i = i + 1;
    }
    proof {
        assert(src@.take(n as int) =~= src@);
    }
    r
}

/// What creating a group observably does: the group exists afterwards with a
/// fresh cursor; an existing group, and everything else, is left untouched.
pub open spec fn ensure_group_rel(s0: LogStore, s1: LogStore, sn: Seq<char>, gn: Seq<char>) -> bool {
    &&& s1.has_stream(sn)
    &&& s1.has_group(sn, gn)
    &&& s1.entries_of(sn) == s0.entries_of(sn)
    &&& s1.next_id_of(sn) == s0.next_id_of(sn)
    &&& (s0.has_group(sn, gn) ==> store_equiv(s0, s1))
    &&& (!s0.has_group(sn, gn) ==> s1.watermark_of(sn, gn) == 0 && (forall|id: u64|
        s1.pending_of(sn, gn, id) is None))
    &&& forall|sn2: Seq<char>| sn2 != sn ==> #[trigger] stream_equiv(s0, s1, sn2)
    &&& forall|sn2: Seq<char>, gn2: Seq<char>|
        !(sn2 == sn && gn2 == gn) ==> #[trigger] group_equiv(s0, s1, sn2, gn2)
}

/// What appending observably does: on success the entry is persisted at the
/// end of the stream under a fresh identifier greater than every earlier one,
/// and nothing else changes; failure happens exactly when the identifier
/// space is exhausted, and changes nothing.
pub open spec fn append_rel(
    s0: LogStore,
    s1: LogStore,
    sn: Seq<char>,
    pl: Seq<u8>,
    r: Result<u64, AppendError>,
) -> bool {
    &&& (r is Ok <==> s0.next_id_of(sn) < u64::MAX)
    &&& match r {
        Ok(id) => {
            &&& id == s0.next_id_of(sn)
            &&& id >= 1
            &&& s1.has_stream(sn)
            &&& s1.next_id_of(sn) == id + 1
            &&& s1.entries_of(sn) == s0.entries_of(sn).push((id, pl))
            &&& forall|i: int|
                0 <= i < s0.entries_of(sn).len() ==> (#[trigger] s0.entries_of(sn)[i]).0 < id
            &&& forall|gn2: Seq<char>| #[trigger] group_equiv(s0, s1, sn, gn2)
            &&& forall|sn2: Seq<char>| sn2 != sn ==> #[trigger] stream_equiv(s0, s1, sn2)
            &&& forall|sn2: Seq<char>, gn2: Seq<char>|
                sn2 != sn ==> #[trigger] group_equiv(s0, s1, sn2, gn2)
        },
        Err(_) => store_equiv(s0, s1),
    }
}

/// What acknowledging observably does: the entry leaves the pending set (and
/// only it), and the count says whether it was pending — so a second call for
/// the same entry returns zero and changes nothing.
pub open spec fn ack_rel(
    s0: LogStore,
    s1: LogStore,
    sn: Seq<char>,
    gn: Seq<char>,
    id: u64,
    r: u64,
) -> bool {
    &&& r == if s0.is_pending(sn, gn, id) {
        1u64
    } else {
        0u64
    }
    &&& !s1.is_pending(sn, gn, id)
    &&& forall|id2: u64| id2 != id ==> s1.pending_of(sn, gn, id2) == s0.pending_of(sn, gn, id2)
    &&& s1.has_group(sn, gn) == s0.has_group(sn, gn)
    &&& s1.watermark_of(sn, gn) == s0.watermark_of(sn, gn)
    &&& forall|sn2: Seq<char>| #[trigger] stream_equiv(s0, s1, sn2)
    &&& forall|sn2: Seq<char>, gn2: Seq<char>|
        !(sn2 == sn && gn2 == gn) ==> #[trigger] group_equiv(s0, s1, sn2, gn2)
}

/// How many leading entries the group has already been delivered.
pub open spec fn cut_of(ps: Seq<(u64, Seq<u8>)>, wm: u64) -> int
    decreases ps.len(),
{
    if ps.len() == 0 {
        0
    } else if ps[0].0 > wm {
        0
    } else {
        1 + cut_of(ps.drop_first(), wm)
    }
}

/// The entries not yet delivered to the group, oldest first. The entries of
/// a stream carry strictly increasing identifiers, so these are exactly the
/// ones beyond the group's watermark.
pub open spec fn available_of(s: LogStore, sn: Seq<char>, gn: Seq<char>) -> Seq<(u64, Seq<u8>)> {
    let ps = s.entries_of(sn);
    ps.skip(cut_of(ps, s.watermark_of(sn, gn)))
}

pub open spec fn batch_view(v: Seq<(u64, Vec<u8>)>) -> Seq<(u64, Seq<u8>)> {
    v.map_values(|p: (u64, Vec<u8>)| (p.0, p.1@))
}

pub open spec fn batch_contains(b: Seq<(u64, Seq<u8>)>, id: u64) -> bool {
    exists|i: int| 0 <= i < b.len() && (#[trigger] b[i]).0 == id
}

/// What reading observably does: the first `count` undelivered entries are
/// returned in identifier order, each joins the pending set held by the
/// calling consumer, the watermark advances to the last returned identifier,
/// and no pending entry is ever removed. Reading fails exactly when the group
/// does not exist, and then changes nothing.
pub open spec fn read_rel(
    s0: LogStore,
    s1: LogStore,
    sn: Seq<char>,
    gn: Seq<char>,
    cn: Seq<char>,
    count: int,
    r: Result<Seq<(u64, Seq<u8>)>, ReadError>,
) -> bool {
    &&& (r is Ok <==> s0.has_group(sn, gn))
    &&& match r {
        Err(_) => store_equiv(s0, s1),
        Ok(b) => {
            let avail = available_of(s0, sn, gn);
            let k = if count <= avail.len() {
                count
            } else {
                avail.len() as int
            };
            &&& b == avail.take(k)
            &&& forall|x: int, y: int| 0 <= x < y < b.len() ==> b[x].0 < b[y].0
            &&& s1.has_group(sn, gn)
            &&& s1.watermark_of(sn, gn) == if k > 0 {
                b[k - 1].0
            } else {
                s0.watermark_of(sn, gn)
            }
            &&& forall|id: u64|
                s1.pending_of(sn, gn, id) == if batch_contains(b, id) {
                    Some(cn)
                } else {
                    s0.pending_of(sn, gn, id)
                }
            &&& forall|sn2: Seq<char>| #[trigger] stream_equiv(s0, s1, sn2)
            &&& forall|sn2: Seq<char>, gn2: Seq<char>|
                !(sn2 == sn && gn2 == gn) ==> #[trigger] group_equiv(s0, s1, sn2, gn2)
        },
    }
}

/// What reclaiming observably does: a pending entry is handed to the calling
/// consumer again, with its original payload; a non-pending identifier is
/// refused; nothing else changes either way.
pub open spec fn claim_rel(
    s0: LogStore,
    s1: LogStore,
    sn: Seq<char>,
    gn: Seq<char>,
    cn: Seq<char>,
    id: u64,
    r: Option<(u64, Seq<u8>)>,
) -> bool {
    &&& (r is Some <==> s0.is_pending(sn, gn, id))
    &&& match r {
        None => store_equiv(s0, s1),
        Some(p) => {
            &&& p.0 == id
            &&& match find_stream(s0.streams@, sn) {
                None => false,
                Some(st) => entry_lookup(st.entries@, id) == Some(p.1),
            }
            &&& s1.pending_of(sn, gn, id) == Some(cn)
            &&& forall|id2: u64|
                id2 != id ==> s1.pending_of(sn, gn, id2) == s0.pending_of(sn, gn, id2)
            &&& s1.has_group(sn, gn)
            &&& s1.watermark_of(sn, gn) == s0.watermark_of(sn, gn)
            &&& forall|sn2: Seq<char>| #[trigger] stream_equiv(s0, s1, sn2)
            &&& forall|sn2: Seq<char>, gn2: Seq<char>|
                !(sn2 == sn && gn2 == gn) ==> #[trigger] group_equiv(s0, s1, sn2, gn2)
        },
    }
}

impl LogStore {
    /// Create a consumer group, and the stream itself if need be.
    /// Idempotent: an existing group keeps its cursor, and the call is then a
    /// no-op — creation never errors and never resets delivery state.
    pub fn ensure_group(&mut self, stream: &String, group: &String)
        requires
            old(self).wf(),
        ensures
            final(self).wf(),
            ensure_group_rel(*old(self), *final(self), stream@, group@),
    {
        let ghost s0 = *self;
        match self.find_stream_idx(stream) {
            Some(i) => {
                let gi = find_group_idx(&self.streams[i].groups, group);
                if gi.is_some() {
                    proof {
                        assert forall|sn2: Seq<char>| #[trigger] stream_equiv(s0, *self, sn2) by {}
                        assert forall|sn2: Seq<char>, gn2: Seq<char>| #[trigger] group_equiv(
                            s0,
                            *self,
                            sn2,
                            gn2,
                        ) by {}
                    }
                    return ;
                }
                let mut st = self.streams.remove(i);
                let ghost st0 = st;
                st.groups.push(Group { name: group.clone(), watermark: 0, pending: Vec::new() });
                self.streams.insert(i, st);
                proof {
                    let g = st.groups@.last();
                    lemma_remove_insert_stream(s0.streams@, i as int, st);
                    assert(self.streams@ =~= s0.streams@.update(i as int, st));
                    assert forall|n: Seq<char>| true implies find_stream(self.streams@, n) == (
                    if n == stream@ {
                        Some(st)
                    } else {
                        find_stream(s0.streams@, n)
                    }) by {
                        lemma_find_stream_update(s0.streams@, i as int, st, n);
                    }
                    assert forall|n: Seq<char>| true implies find_group(st.groups@, n) == (
                    if n == group@ {
                        Some(g)
                    } else {
                        find_group(st0.groups@, n)
                    }) by {
                        lemma_find_group_push(st0.groups@, g, n);
                    }
                    assert(st.entries@ =~= st0.entries@);
                    assert forall|id: u64| self.pending_of(stream@, group@, id) is None by {
                        assert(pending_lookup(g.pending@, id) is None);
                    }
                    assert forall|sn2: Seq<char>| sn2 != stream@ implies #[trigger] stream_equiv(
                        s0,
                        *self,
                        sn2,
                    ) by {}
                    assert forall|sn2: Seq<char>, gn2: Seq<char>|
                        !(sn2 == stream@ && gn2 == group@) implies #[trigger] group_equiv(
                        s0,
                        *self,
                        sn2,
                        gn2,
                    ) by {}
                    assert(stream_wf(st)) by {
                        assert forall|j: int| 0 <= j < st.groups@.len() implies group_wf(
                            #[trigger] st.groups@[j],
                            st,
                        ) by {
                            if j < st0.groups@.len() {
                                assert(st.groups@[j] == st0.groups@[j]);
                                assert(group_wf(st0.groups@[j], st0));
                            }
                        }
                        assert forall|j: int, k: int|
                            0 <= j < k < st.groups@.len() implies st.groups@[j].name@
                            != st.groups@[k].name@ by {
                            if k < st0.groups@.len() {
                            } else {
                                assert(st.groups@[k] == g);
                                assert(find_group(st0.groups@, group@) is None);
                                if st.groups@[j].name@ == group@ {
                                    lemma_find_group_at(st0.groups@, group@, j);
                                }
                            }
                        }
                    }
                    assert(self.wf());
                }
            },
            None => {
                let mut groups: Vec<Group> = Vec::new();
                groups.push(Group { name: group.clone(), watermark: 0, pending: Vec::new() });
                let st = StreamSt {
                    name: stream.clone(),
                    next_id: 1,
                    entries: Vec::new(),
                    groups,
                };
                self.streams.push(st);
                proof {
                    let g = st.groups@[0];
                    assert forall|n: Seq<char>| true implies find_stream(self.streams@, n) == (
                    if n == stream@ {
                        Some(st)
                    } else {
                        find_stream(s0.streams@, n)
                    }) by {
                        lemma_find_stream_push(s0.streams@, st, n);
                    }
                    assert forall|n: Seq<char>| true implies find_group(st.groups@, n) == (
                    if n == group@ {
                        Some(g)
                    } else {
                        Option::<Group>::None
                    }) by {
                        if n != group@ {
                            lemma_find_group_none(st.groups@, n);
                        } else {
                            lemma_find_group_at(st.groups@, n, 0);
                        }
                    }
                    assert(self.entries_of(stream@) =~= s0.entries_of(stream@));
                    assert forall|id: u64| self.pending_of(stream@, group@, id) is None by {
                        assert(pending_lookup(g.pending@, id) is None);
                    }
                    assert forall|sn2: Seq<char>| sn2 != stream@ implies #[trigger] stream_equiv(
                        s0,
                        *self,
                        sn2,
                    ) by {}
                    assert forall|sn2: Seq<char>, gn2: Seq<char>|
                        !(sn2 == stream@ && gn2 == group@) implies #[trigger] group_equiv(
                        s0,
                        *self,
                        sn2,
                        gn2,
                    ) by {}
                    assert(stream_wf(st)) by {
                        assert forall|j: int| 0 <= j < st.groups@.len() implies group_wf(
                            #[trigger] st.groups@[j],
                            st,
                        ) by {
                            assert(st.groups@[j] == g);
                        }
                    }
                    assert forall|j: int, k: int|
                        0 <= j < k < self.streams@.len() implies self.streams@[j].name@
                        != self.streams@[k].name@ by {
                        if k < s0.streams@.len() {
                        } else {
                            assert(self.streams@[k] == st);
                            if self.streams@[j].name@ == stream@ {
                                lemma_find_stream_at(s0.streams@, stream@, j);
                            }
                        }
                    }
                    assert(self.wf());
                }
            },
        }
    }

    /// Append a payload to a stream, creating the stream on first use.
    /// On success the returned identifier is strictly greater than every
    /// identifier already in the stream, and the entry is durably at the end;
    /// the append is refused exactly when the identifier space is exhausted,
    /// and then nothing changes.
    pub fn append(&mut self, stream: &String, payload: Vec<u8>) -> (r: Result<u64, AppendError>)
        requires
            old(self).wf(),
        ensures
            final(self).wf(),
            append_rel(*old(self), *final(self), stream@, payload@, r),
    {
        let ghost s0 = *self;
        let ghost pl = payload@;
        match self.find_stream_idx(stream) {
            Some(i) => {
                if self.streams[i].next_id == u64::MAX {
                    proof {
                        assert forall|sn2: Seq<char>| #[trigger] stream_equiv(s0, *self, sn2) by {}
                        assert forall|sn2: Seq<char>, gn2: Seq<char>| #[trigger] group_equiv(
                            s0,
                            *self,
                            sn2,
                            gn2,
                        ) by {}
                    }
                    return Err(AppendError::Exhausted);
                }
                let mut st = self.streams.remove(i);
                let ghost st0 = st;
                let id = st.next_id;
                st.next_id = id + 1;
                st.entries.push(LogEntry { id, payload });
                self.streams.insert(i, st);
                proof {
                    lemma_remove_insert_stream(s0.streams@, i as int, st);
                    assert(self.streams@ =~= s0.streams@.update(i as int, st));
                    assert forall|n: Seq<char>| true implies find_stream(self.streams@, n) == (
                    if n == stream@ {
                        Some(st)
                    } else {
                        find_stream(s0.streams@, n)
                    }) by {
                        lemma_find_stream_update(s0.streams@, i as int, st, n);
                    }
                    assert(self.entries_of(stream@) =~= s0.entries_of(stream@).push((id, pl)));
                    assert forall|j: int|
                        0 <= j < s0.entries_of(stream@).len() implies (#[trigger] s0.entries_of(
                        stream@,
                    )[j]).0 < id by {
                        assert(s0.entries_of(stream@)[j].0 == st0.entries@[j].id);
                    }
                    assert forall|gn2: Seq<char>| #[trigger] group_equiv(s0, *self, stream@, gn2) by {}
                    assert forall|sn2: Seq<char>| sn2 != stream@ implies #[trigger] stream_equiv(
                        s0,
                        *self,
                        sn2,
                    ) by {}
                    assert forall|sn2: Seq<char>, gn2: Seq<char>| sn2 != stream@ implies #[trigger] group_equiv(
                        s0,
                        *self,
                        sn2,
                        gn2,
                    ) by {}
                    assert(stream_wf(st)) by {
                        assert forall|j: int| 0 <= j < st.groups@.len() implies group_wf(
                            #[trigger] st.groups@[j],
                            st,
                        ) by {
                            assert(group_wf(st0.groups@[j], st0));
                            assert forall|t: int|
                                0 <= t < st.groups@[j].pending@.len() implies (
                            #[trigger] st.groups@[j].pending@[t].id) <= st.groups@[j].watermark
                                && entry_lookup(st.entries@, st.groups@[j].pending@[t].id) is Some by {
                                lemma_entry_push(
                                    st0.entries@,
                                    st.entries@.last(),
                                    st.groups@[j].pending@[t].id,
                                );
                            }
                        }
                    }
                    assert(self.wf());
                }
                Ok(id)
            },
            None => {
                let mut entries: Vec<LogEntry> = Vec::new();
                entries.push(LogEntry { id: 1, payload });
                let st = StreamSt {
                    name: stream.clone(),
                    next_id: 2,
                    entries,
                    groups: Vec::new(),
                };
                self.streams.push(st);
                proof {
                    assert forall|n: Seq<char>| true implies find_stream(self.streams@, n) == (
                    if n == stream@ {
                        Some(st)
                    } else {
                        find_stream(s0.streams@, n)
                    }) by {
                        lemma_find_stream_push(s0.streams@, st, n);
                    }
                    assert(self.entries_of(stream@) =~= s0.entries_of(stream@).push((1u64, pl)));
                    assert forall|gn2: Seq<char>| #[trigger] group_equiv(s0, *self, stream@, gn2) by {
                        lemma_find_group_none(st.groups@, gn2);
                    }
                    assert forall|sn2: Seq<char>| sn2 != stream@ implies #[trigger] stream_equiv(
                        s0,
                        *self,
                        sn2,
                    ) by {}
                    assert forall|sn2: Seq<char>, gn2: Seq<char>| sn2 != stream@ implies #[trigger] group_equiv(
                        s0,
                        *self,
                        sn2,
                        gn2,
                    ) by {}
                    assert(stream_wf(st));
                    assert forall|j: int, k: int|
                        0 <= j < k < self.streams@.len() implies self.streams@[j].name@
                        != self.streams@[k].name@ by {
                        if k < s0.streams@.len() {
                        } else {
                            assert(self.streams@[k] == st);
                            if self.streams@[j].name@ == stream@ {
                                lemma_find_stream_at(s0.streams@, stream@, j);
                            }
                        }
                    }
                    assert(self.wf());
                }
                Ok(1)
            },
        }
    }

    /// Acknowledge a delivered entry. Returns `1` and removes the entry from
    /// the group's pending set if it was pending; returns `0` and changes
    /// nothing otherwise — including for an unknown stream, an unknown group,
    /// or an already acknowledged entry, so retrying is always safe.
    pub fn ack(&mut self, stream: &String, group: &String, id: u64) -> (r: u64)
        requires
            old(self).wf(),
        ensures
            final(self).wf(),
            ack_rel(*old(self), *final(self), stream@, group@, id, r),
    {
        let ghost s0 = *self;
        let si = match self.find_stream_idx(stream) {
            None => {
                proof {
                    assert forall|sn2: Seq<char>| #[trigger] stream_equiv(s0, *self, sn2) by {}
                    assert forall|sn2: Seq<char>, gn2: Seq<char>| #[trigger] group_equiv(
                        s0,
                        *self,
                        sn2,
                        gn2,
                    ) by {}
                }
                return 0;
            },
            Some(i) => i,
        };
        let gi = match find_group_idx(&self.streams[si].groups, group) {
            None => {
                proof {
                    assert forall|sn2: Seq<char>| #[trigger] stream_equiv(s0, *self, sn2) by {}
                    assert forall|sn2: Seq<char>, gn2: Seq<char>| #[trigger] group_equiv(
                        s0,
                        *self,
                        sn2,
                        gn2,
                    ) by {}
                }
                return 0;
            },
            Some(g) => g,
        };
        let pk = match find_pending_idx(&self.streams[si].groups[gi].pending, id) {
            None => {
                proof {
                    assert forall|sn2: Seq<char>| #[trigger] stream_equiv(s0, *self, sn2) by {}
                    assert forall|sn2: Seq<char>, gn2: Seq<char>| #[trigger] group_equiv(
                        s0,
                        *self,
                        sn2,
                        gn2,
                    ) by {}
                }
                return 0;
            },
            Some(k) => k,
        };
        let mut st = self.streams.remove(si);
        let ghost st0 = st;
        let mut g = st.groups.remove(gi);
        let ghost g0 = g;
        g.pending.remove(pk);
        st.groups.insert(gi, g);
        self.streams.insert(si, st);
        proof {
            lemma_remove_insert_group(st0.groups@, gi as int, g);
            assert(st.groups@ =~= st0.groups@.update(gi as int, g));
            lemma_remove_insert_stream(s0.streams@, si as int, st);
            assert(self.streams@ =~= s0.streams@.update(si as int, st));
            assert forall|n: Seq<char>| true implies find_stream(self.streams@, n) == (
            if n == stream@ {
                Some(st)
            } else {
                find_stream(s0.streams@, n)
            }) by {
                lemma_find_stream_update(s0.streams@, si as int, st, n);
            }
            assert forall|n: Seq<char>| true implies find_group(st.groups@, n) == (
            if n == group@ {
                Some(g)
            } else {
                find_group(st0.groups@, n)
            }) by {
                lemma_find_group_update(st0.groups@, gi as int, g, n);
            }
            assert(g.pending@ == g0.pending@.remove(pk as int));
            lemma_pending_remove(g0.pending@, pk as int, id);
            assert(st.entries@ =~= st0.entries@);
            assert(self.entries_of(stream@) =~= s0.entries_of(stream@));
            assert forall|sn2: Seq<char>| #[trigger] stream_equiv(s0, *self, sn2) by {}
            assert forall|sn2: Seq<char>, gn2: Seq<char>|
                !(sn2 == stream@ && gn2 == group@) implies #[trigger] group_equiv(
                s0,
                *self,
                sn2,
                gn2,
            ) by {}
            assert(group_wf(g, st)) by {
                assert(group_wf(g0, st0));
                assert forall|t1: int, t2: int|
                    0 <= t1 < t2 < g.pending@.len() implies g.pending@[t1].id != g.pending@[t2].id by {
                    let m1 = if t1 < pk as int { t1 } else { t1 + 1 };
                    let m2 = if t2 < pk as int { t2 } else { t2 + 1 };
                    assert(g.pending@[t1] == g0.pending@[m1]);
                    assert(g.pending@[t2] == g0.pending@[m2]);
                }
                assert forall|t: int|
                    0 <= t < g.pending@.len() implies (#[trigger] g.pending@[t].id) <= g.watermark
                    && entry_lookup(st.entries@, g.pending@[t].id) is Some by {
                    let m = if t < pk as int { t } else { t + 1 };
                    assert(g.pending@[t] == g0.pending@[m]);
                }
            }
            assert(stream_wf(st)) by {
                assert forall|j: int| 0 <= j < st.groups@.len() implies group_wf(
                    #[trigger] st.groups@[j],
                    st,
                ) by {
                    if j != gi as int {
                        assert(st.groups@[j] == st0.groups@[j]);
                        assert(group_wf(st0.groups@[j], st0));
                    }
                }
            }
            assert(self.wf());
        }
        1
    }
}

fn find_entry_idx(es: &Vec<LogEntry>, id: u64) -> (r: Option<usize>)
    ensures
        match r {
            Some(i) => i < es@.len() && es@[i as int].id == id && entry_lookup(es@, id) == Some(
                es@[i as int].payload@,
            ),
            None => entry_lookup(es@, id) is None,
        },
{
    let n = es.len();
    let mut i: usize = 0;
    while i < n
        invariant
            i <= n,
            n == es@.len(),
            forall|j: int| 0 <= j < i ==> (#[trigger] es@[j].id) != id,
        decreases n - i,
    {
        if es[i].id == id {
            proof {
                lemma_entry_at(es@, id, i as int);
            }
            return Some(i);
        }
        i = i + 1;
    }
    proof {
        lemma_entry_none(es@, id);
    }
    None
}

proof fn lemma_cut_at(ps: Seq<(u64, Seq<u8>)>, wm: u64, c: int)
    requires
        0 <= c <= ps.len(),
        forall|j: int| 0 <= j < c ==> (#[trigger] ps[j]).0 <= wm,
        c == ps.len() || ps[c].0 > wm,
    ensures
        cut_of(ps, wm) == c,
    decreases c,
{
    if c == 0 {
    } else {
        assert(ps[0].0 <= wm);
        assert forall|j: int| 0 <= j < c - 1 implies (#[trigger] ps.drop_first()[j]).0 <= wm by {
            assert(ps.drop_first()[j] == ps[j + 1]);
        }
        if c - 1 < ps.drop_first().len() {
            assert(ps.drop_first()[c - 1] == ps[c]);
        }
        lemma_cut_at(ps.drop_first(), wm, c - 1);
    }
}

impl LogStore {
    /// Deliver up to `count` undelivered entries of the stream to the calling
    /// consumer, in identifier order. Delivered entries join the group's
    /// pending set and the watermark advances past them; nothing ever leaves
    /// the pending set here, so an unacknowledged entry stays redeliverable.
    /// With no undelivered entries the result is empty — the model returns at
    /// once, the transport edge performs the bounded wait `block_millis`
    /// names. Fails exactly when the group does not exist.
    pub fn read(
        &mut self,
        stream: &String,
        group: &String,
        consumer: &String,
        count: usize,
        block_millis: u64,
    ) -> (r: Result<Vec<(u64, Vec<u8>)>, ReadError>)
        requires
            old(self).wf(),
        ensures
            final(self).wf(),
            read_rel(
                *old(self),
                *final(self),
                stream@,
                group@,
                consumer@,
                count as int,
                match r {
                    Ok(v) => Ok(batch_view(v@)),
                    Err(e) => Err(e),
                },
            ),
    {
        let ghost s0 = *self;
        let si = match self.find_stream_idx(stream) {
            None => {
                proof {
                    assert forall|sn2: Seq<char>| #[trigger] stream_equiv(s0, *self, sn2) by {}
                    assert forall|sn2: Seq<char>, gn2: Seq<char>| #[trigger] group_equiv(
                        s0,
                        *self,
                        sn2,
                        gn2,
                    ) by {}
                }
                return Err(ReadError::NoGroup);
            },
            Some(i) => i,
        };
        let gi = match find_group_idx(&self.streams[si].groups, group) {
            None => {
                proof {
                    assert forall|sn2: Seq<char>| #[trigger] stream_equiv(s0, *self, sn2) by {}
                    assert forall|sn2: Seq<char>, gn2: Seq<char>| #[trigger] group_equiv(
                        s0,
                        *self,
                        sn2,
                        gn2,
                    ) by {}
                }
                return Err(ReadError::NoGroup);
            },
            Some(g) => g,
        };
        let wm0 = self.streams[si].groups[gi].watermark;
        let ghost pairs = s0.entries_of(stream@);
        let n_entries = self.streams[si].entries.len();
        proof {
            assert forall|j: int| 0 <= j < pairs.len() implies (#[trigger] pairs[j]) == (
            s0.streams@[si as int].entries@[j].id, s0.streams@[si as int].entries@[j].payload@) by {}
        }
        let mut c: usize = 0;
        while c < n_entries && self.streams[si].entries[c].id <= wm0
            invariant
                c <= n_entries,
                n_entries == self.streams@[si as int].entries@.len(),
                si < self.streams@.len(),
                *self == s0,
                find_stream(s0.streams@, stream@) == Some(s0.streams@[si as int]),
                pairs == s0.entries_of(stream@),
                forall|j: int| 0 <= j < c ==> (#[trigger] pairs[j]).0 <= wm0,
            decreases n_entries - c,
        {
            proof {
                assert(pairs[c as int].0 == self.streams@[si as int].entries@[c as int].id);
            }
            c = c + 1;
        }
        proof {
            if c < n_entries {
                assert(pairs[c as int].0 == self.streams@[si as int].entries@[c as int].id);
            }
            lemma_cut_at(pairs, wm0, c as int);
        }
        let ghost avail = pairs.skip(c as int);
        let mut taken: Vec<(u64, Vec<u8>)> = Vec::new();
        let mut t: usize = 0;
        while t < count && c + t < n_entries
            invariant
                t <= count,
                c + t <= n_entries,
                c <= n_entries,
                n_entries == self.streams@[si as int].entries@.len(),
                si < self.streams@.len(),
                *self == s0,
                find_stream(s0.streams@, stream@) == Some(s0.streams@[si as int]),
                pairs == s0.entries_of(stream@),
                batch_view(taken@) == pairs.subrange(c as int, c + t),
                taken@.len() == t,
            decreases count - t,
        {
            let id = self.streams[si].entries[c + t].id;
            let pl = copy_payload(&self.streams[si].entries[c + t].payload);
            taken.push((id, pl));
            proof {
                assert(pairs[c + t] == (s0.streams@[si as int].entries@[c + t].id, s0.streams@[
                    si as int].entries@[c + t].payload@));
                assert(batch_view(taken@) =~= pairs.subrange(c as int, c + t + 1));
            }
            t = t + 1;
        }
        let ghost k = if count as int <= avail.len() { count as int } else { avail.len() as int };
        proof {
            assert(avail.len() == pairs.len() - c);
            assert(k == t);
            assert(avail.take(k) =~= pairs.subrange(c as int, c + k));
            assert(batch_view(taken@) == avail.take(k));
        }
        if taken.len() == 0 {
            proof {
                assert forall|sn2: Seq<char>| #[trigger] stream_equiv(s0, *self, sn2) by {}
                assert forall|sn2: Seq<char>, gn2: Seq<char>| #[trigger] group_equiv(
                    s0,
                    *self,
                    sn2,
                    gn2,
                ) by {}
                assert forall|id: u64| !batch_contains(batch_view(taken@), id) by {}
            }
            return Ok(taken);
        }
        let new_wm = taken[taken.len() - 1].0;
        proof {
            assert(batch_view(taken@)[k - 1].0 == taken@[k - 1].0);
        }
        let mut st = self.streams.remove(si);
        let ghost st0 = st;
        let mut g = st.groups.remove(gi);
        let ghost g0 = g;
        g.watermark = new_wm;
        let ghost b = batch_view(taken@);
        proof {
            // delivered identifiers: in order, all above the old watermark,
            // and bounded by the new one
            assert forall|x: int, y: int| 0 <= x < y < b.len() implies b[x].0 < b[y].0 by {
                assert(b[x] == pairs[c + x]);
                assert(b[y] == pairs[c + y]);
                assert(pairs[c + x].0 == st0.entries@[c + x].id);
                assert(pairs[c + y].0 == st0.entries@[c + y].id);
            }
            assert forall|x: int| 0 <= x < b.len() implies (#[trigger] b[x]).0 > wm0 && b[x].0
                <= new_wm && entry_lookup(st0.entries@, b[x].0) is Some by {
                assert(b[x] == pairs[c + x]);
                assert(pairs[c + x].0 == st0.entries@[c + x].id);
                assert(pairs[c as int].0 == st0.entries@[c as int].id);
                assert(b[k - 1] == pairs[c + k - 1]);
                assert(pairs[c + k - 1].0 == st0.entries@[c + k - 1].id);
                assert forall|j: int| 0 <= j < c + x implies (#[trigger] st0.entries@[j].id)
                    != st0.entries@[c + x].id by {}
                lemma_entry_at(st0.entries@, st0.entries@[c + x].id, c + x);
            }
        }
        let n_taken = taken.len();
        let mut t2: usize = 0;
        while t2 < n_taken
            invariant
                t2 <= n_taken,
                n_taken == taken@.len(),
                n_taken == b.len(),
                b == batch_view(taken@),
                g.watermark == new_wm,
                g.name == g0.name,
                forall|x: int| 0 <= x < b.len() ==> (#[trigger] b[x]).0 > wm0 && b[x].0 <= new_wm
                    && entry_lookup(st0.entries@, b[x].0) is Some,
                forall|x: int, y: int| 0 <= x < y < b.len() ==> b[x].0 < b[y].0,
                forall|x: int| 0 <= x < g0.pending@.len() ==> (#[trigger] g0.pending@[x].id) <= wm0,
                forall|x: int, y: int|
                    0 <= x < y < g0.pending@.len() ==> g0.pending@[x].id != g0.pending@[y].id,
                forall|x: int| 0 <= x < g0.pending@.len() ==> entry_lookup(
                    st0.entries@,
                    #[trigger] g0.pending@[x].id,
                ) is Some,
                g.pending@.len() == g0.pending@.len() + t2,
                forall|x: int| 0 <= x < g0.pending@.len() ==> g.pending@[x] == g0.pending@[x],
                forall|x: int|
                    0 <= x < t2 ==> (#[trigger] g.pending@[g0.pending@.len() + x]).id == b[x].0
                        && g.pending@[g0.pending@.len() + x].consumer@ == consumer@,
                forall|id: u64|
                    pending_lookup(g.pending@, id) == if batch_contains(b.take(t2 as int), id) {
                        Some(consumer@)
                    } else {
                        pending_lookup(g0.pending@, id)
                    },
            decreases n_taken - t2,
        {
            let id = taken[t2].0;
            let ghost gprev = g;
            g.pending.push(PendingEntry { id, consumer: consumer.clone() });
            proof {
                assert(b[t2 as int].0 == id);
                assert forall|id2: u64| true implies pending_lookup(g.pending@, id2) == (
                if batch_contains(b.take(t2 + 1), id2) {
                    Some(consumer@)
                } else {
                    pending_lookup(g0.pending@, id2)
                }) by {
                    lemma_pending_push(gprev.pending@, g.pending@.last(), id2);
                    if id2 == id {
                        assert(!batch_contains(b.take(t2 as int), id2)) by {
                            assert forall|x: int|
                                0 <= x < t2 implies (#[trigger] b.take(t2 as int)[x]).0 != id2 by {
                                assert(b.take(t2 as int)[x] == b[x]);
                            }
                        }
                        assert(pending_lookup(g0.pending@, id2) is None) by {
                            assert forall|x: int|
                                0 <= x < g0.pending@.len() implies (#[trigger] g0.pending@[x].id)
                                != id2 by {}
                            lemma_pending_none(g0.pending@, id2);
                        }
                        assert(batch_contains(b.take(t2 + 1), id2)) by {
                            assert(b.take(t2 + 1)[t2 as int].0 == id2);
                        }
                    } else {
                        assert(batch_contains(b.take(t2 + 1), id2) == batch_contains(
                            b.take(t2 as int),
                            id2,
                        )) by {
                            if batch_contains(b.take(t2 as int), id2) {
                                let x = choose|x: int|
                                    0 <= x < t2 && (#[trigger] b.take(t2 as int)[x]).0 == id2;
                                assert(b.take(t2 + 1)[x].0 == id2);
                            }
                            if batch_contains(b.take(t2 + 1), id2) {
                                let x = choose|x: int|
                                    0 <= x < t2 + 1 && (#[trigger] b.take(t2 + 1)[x]).0 == id2;
                                assert(x < t2);
                                assert(b.take(t2 as int)[x].0 == id2);
                            }
                        }
                    }
                }
            }
            t2 = t2 + 1;
        }
        st.groups.insert(gi, g);
        self.streams.insert(si, st);
        proof {
            assert(b.take(k) =~= b);
            lemma_remove_insert_group(st0.groups@, gi as int, g);
            assert(st.groups@ =~= st0.groups@.update(gi as int, g));
            lemma_remove_insert_stream(s0.streams@, si as int, st);
            assert(self.streams@ =~= s0.streams@.update(si as int, st));
            assert forall|n: Seq<char>| true implies find_stream(self.streams@, n) == (
            if n == stream@ {
                Some(st)
            } else {
                find_stream(s0.streams@, n)
            }) by {
                lemma_find_stream_update(s0.streams@, si as int, st, n);
            }
            assert forall|n: Seq<char>| true implies find_group(st.groups@, n) == (
            if n == group@ {
                Some(g)
            } else {
                find_group(st0.groups@, n)
            }) by {
                lemma_find_group_update(st0.groups@, gi as int, g, n);
            }
            assert(st.entries@ =~= st0.entries@);
            assert(self.entries_of(stream@) =~= s0.entries_of(stream@));
            assert forall|sn2: Seq<char>| #[trigger] stream_equiv(s0, *self, sn2) by {}
            assert forall|sn2: Seq<char>, gn2: Seq<char>|
                !(sn2 == stream@ && gn2 == group@) implies #[trigger] group_equiv(
                s0,
                *self,
                sn2,
                gn2,
            ) by {}
            assert(group_wf(g, st)) by {
                assert forall|x: int, y: int|
                    0 <= x < y < g.pending@.len() implies g.pending@[x].id != g.pending@[y].id by {
                    let n0 = g0.pending@.len() as int;
                    if y < n0 {
                    } else if x < n0 {
                        assert(g.pending@[g0.pending@.len() + (y - n0)].id == b[y - n0].0);
                        assert(g.pending@[x].id <= wm0);
                        assert(g.pending@[y].id > wm0);
                    } else {
                        assert(g.pending@[g0.pending@.len() + (x - n0)].id == b[x - n0].0);
                        assert(g.pending@[g0.pending@.len() + (y - n0)].id == b[y - n0].0);
                        assert(g.pending@[x].id == b[x - n0].0);
                        assert(g.pending@[y].id == b[y - n0].0);
                    }
                }
                assert forall|x: int|
                    0 <= x < g.pending@.len() implies (#[trigger] g.pending@[x].id) <= g.watermark
                    && entry_lookup(st.entries@, g.pending@[x].id) is Some by {
                    let n0 = g0.pending@.len() as int;
                    if x < n0 {
                        assert(g.pending@[x] == g0.pending@[x]);
                        assert(g0.pending@[x].id <= wm0);
                        assert(wm0 < new_wm) by {
                            assert(b[0].0 > wm0);
                            assert(b[0].0 <= new_wm);
                        }
                    } else {
                        assert(g.pending@[g0.pending@.len() + (x - n0)].id == b[x - n0].0);
                        assert(g.pending@[g0.pending@.len() + (x - n0)].consumer@ == consumer@);
                        assert(g.pending@[x].id == b[x - n0].0);
                    }
                }
            }
            assert(stream_wf(st)) by {
                assert forall|j: int| 0 <= j < st.groups@.len() implies group_wf(
                    #[trigger] st.groups@[j],
                    st,
                ) by {
                    if j != gi as int {
                        assert(st.groups@[j] == st0.groups@[j]);
                        assert(group_wf(st0.groups@[j], st0));
                    }
                }
            }
            assert(self.wf());
            assert(self.watermark_of(stream@, group@) == b[k - 1].0);
        }
        Ok(taken)
    }

    /// Hand a pending entry to another (or the same) consumer again: the
    /// recovery path for entries whose consumer crashed before acknowledging.
    /// Returns the entry's identifier and original payload if it was pending,
    /// reassigning it to the caller; refuses identifiers that are not
    /// pending. The log itself and every watermark stay untouched.
    pub fn claim(&mut self, stream: &String, group: &String, consumer: &String, id: u64) -> (r:
        Option<(u64, Vec<u8>)>)
        requires
            old(self).wf(),
        ensures
            final(self).wf(),
            claim_rel(
                *old(self),
                *final(self),
                stream@,
                group@,
                consumer@,
                id,
                match r {
                    Some(p) => Some((p.0, p.1@)),
                    None => None,
                },
            ),
    {
        let ghost s0 = *self;
        let si = match self.find_stream_idx(stream) {
            None => {
                proof {
                    assert forall|sn2: Seq<char>| #[trigger] stream_equiv(s0, *self, sn2) by {}
                    assert forall|sn2: Seq<char>, gn2: Seq<char>| #[trigger] group_equiv(
                        s0,
                        *self,
                        sn2,
                        gn2,
                    ) by {}
                }
                return None;
            },
            Some(i) => i,
        };
        let gi = match find_group_idx(&self.streams[si].groups, group) {
            None => {
                proof {
                    assert forall|sn2: Seq<char>| #[trigger] stream_equiv(s0, *self, sn2) by {}
                    assert forall|sn2: Seq<char>, gn2: Seq<char>| #[trigger] group_equiv(
                        s0,
                        *self,
                        sn2,
                        gn2,
                    ) by {}
                }
                return None;
            },
            Some(g) => g,
        };
        let pk = match find_pending_idx(&self.streams[si].groups[gi].pending, id) {
            None => {
                proof {
                    assert forall|sn2: Seq<char>| #[trigger] stream_equiv(s0, *self, sn2) by {}
                    assert forall|sn2: Seq<char>, gn2: Seq<char>| #[trigger] group_equiv(
                        s0,
                        *self,
                        sn2,
                        gn2,
                    ) by {}
                }
                return None;
            },
            Some(k) => k,
        };
        // the pending invariant says the entry exists in the log
        let found = match find_entry_idx(&self.streams[si].entries, id) {
            None => {
                proof {
                    assert(false);
                }
                return None;
            },
            Some(j) => j,
        };
        let payload = copy_payload(&self.streams[si].entries[found].payload);
        let mut st = self.streams.remove(si);
        let ghost st0 = st;
        let mut g = st.groups.remove(gi);
        let ghost g0 = g;
        g.pending.remove(pk);
        g.pending.push(PendingEntry { id, consumer: consumer.clone() });
        st.groups.insert(gi, g);
        self.streams.insert(si, st);
        proof {
            lemma_remove_insert_group(st0.groups@, gi as int, g);
            assert(st.groups@ =~= st0.groups@.update(gi as int, g));
            lemma_remove_insert_stream(s0.streams@, si as int, st);
            assert(self.streams@ =~= s0.streams@.update(si as int, st));
            assert forall|n: Seq<char>| true implies find_stream(self.streams@, n) == (
            if n == stream@ {
                Some(st)
            } else {
                find_stream(s0.streams@, n)
            }) by {
                lemma_find_stream_update(s0.streams@, si as int, st, n);
            }
            assert forall|n: Seq<char>| true implies find_group(st.groups@, n) == (
            if n == group@ {
                Some(g)
            } else {
                find_group(st0.groups@, n)
            }) by {
                lemma_find_group_update(st0.groups@, gi as int, g, n);
            }
            lemma_pending_remove(g0.pending@, pk as int, id);
            let mid = g0.pending@.remove(pk as int);
            assert(g.pending@ == mid.push(g.pending@.last()));
            assert forall|id2: u64| true implies pending_lookup(g.pending@, id2) == (
            if id2 == id {
                Some(consumer@)
            } else {
                pending_lookup(g0.pending@, id2)
            }) by {
                lemma_pending_push(mid, g.pending@.last(), id2);
            }
            assert(st.entries@ =~= st0.entries@);
            assert(self.entries_of(stream@) =~= s0.entries_of(stream@));
            assert forall|sn2: Seq<char>| #[trigger] stream_equiv(s0, *self, sn2) by {}
            assert forall|sn2: Seq<char>, gn2: Seq<char>|
                !(sn2 == stream@ && gn2 == group@) implies #[trigger] group_equiv(
                s0,
                *self,
                sn2,
                gn2,
            ) by {}
            assert(group_wf(g, st)) by {
                assert(group_wf(g0, st0));
                let n0 = mid.len() as int;
                assert forall|x: int|
                    0 <= x < g.pending@.len() implies (#[trigger] g.pending@[x].id) <= g.watermark
                    && entry_lookup(st.entries@, g.pending@[x].id) is Some by {
                    if x < n0 {
                        let m = if x < pk as int { x } else { x + 1 };
                        assert(g.pending@[x] == g0.pending@[m]);
                    } else {
                        assert(g.pending@[x].id == id);
                        assert(g0.pending@[pk as int].id == id);
                    }
                }
                assert forall|x: int, y: int|
                    0 <= x < y < g.pending@.len() implies g.pending@[x].id != g.pending@[y].id by {
                    if y < n0 {
                        let mx = if x < pk as int { x } else { x + 1 };
                        let my = if y < pk as int { y } else { y + 1 };
                        assert(g.pending@[x] == g0.pending@[mx]);
                        assert(g.pending@[y] == g0.pending@[my]);
                    } else {
                        assert(g.pending@[y].id == id);
                        assert(pending_lookup(mid, id) is None);
                        let mx = if x < pk as int { x } else { x + 1 };
                        assert(g.pending@[x] == g0.pending@[mx]);
                        assert(mid[x] == g0.pending@[mx]);
                        if g.pending@[x].id == id {
                            lemma_pending_at(mid, id, x);
                        }
                    }
                }
            }
            assert(stream_wf(st)) by {
                assert forall|j2: int| 0 <= j2 < st.groups@.len() implies group_wf(
                    #[trigger] st.groups@[j2],
                    st,
                ) by {
                    if j2 != gi as int {
                        assert(st.groups@[j2] == st0.groups@[j2]);
                        assert(group_wf(st0.groups@[j2], st0));
                    }
                }
            }
            assert(self.wf());
        }
        Some((id, payload))
    }
}

/// One error type for the whole submission path.
#[derive(Clone, Copy, PartialEq, Eq, Structural, Debug)]
pub enum SubmitError {
    /// The request failed validation; nothing reached the log.
    Rejected(ValidationError),
    /// The command was valid but the log refused the append.
    Log(AppendError),
}

/// The command a well-formed create request builds.
pub open spec fn submitted_view(
    user_id: Seq<char>,
    market_id: Seq<char>,
    option: Seq<char>,
    order_type: Seq<char>,
    price: u64,
    quantity: u32,
) -> CmdView {
    CmdView::CreateOrder {
        user_id,
        market_id,
        option: parse_option(option).unwrap(),
        order_type: parse_order_type(order_type).unwrap(),
        price,
        quantity,
    }
}

impl LogStore {
    /// The inbound operation: validate the request, encode the command, and
    /// append it to the stream. Validation runs first and rejection is pure —
    /// an invalid request changes nothing and never reaches the log — while a
    /// valid request is appended as exactly the encoding of the command it
    /// builds.
    pub fn submit_order(
        &mut self,
        stream: &String,
        user_id: String,
        market_id: String,
        option: String,
        order_type: String,
        price: u64,
        quantity: u32,
    ) -> (r: Result<u64, SubmitError>)
        requires
            old(self).wf(),
        ensures
            final(self).wf(),
            match r {
                Ok(id) => {
                    &&& create_shape_ok(user_id@, market_id@, option@, order_type@, price, quantity)
                    &&& parse_option(option@) is Some
                    &&& parse_order_type(order_type@) is Some
                    &&& append_rel(
                        *old(self),
                        *final(self),
                        stream@,
                        crate::codec::enc_cmd(
                            submitted_view(
                                user_id@,
                                market_id@,
                                option@,
                                order_type@,
                                price,
                                quantity,
                            ),
                        ),
                        Ok(id),
                    )
                },
                Err(SubmitError::Rejected(e)) => {
                    &&& store_equiv(*old(self), *final(self))
                    &&& match e {
                        ValidationError::InvalidParameters => !create_shape_ok(
                            user_id@,
                            market_id@,
                            option@,
                            order_type@,
                            price,
                            quantity,
                        ),
                        ValidationError::InvalidOption => create_shape_ok(
                            user_id@,
                            market_id@,
                            option@,
                            order_type@,
                            price,
                            quantity,
                        ) && parse_option(option@) is None,
                        ValidationError::InvalidOrderType => create_shape_ok(
                            user_id@,
                            market_id@,
                            option@,
                            order_type@,
                            price,
                            quantity,
                        ) && parse_option(option@) is Some && parse_order_type(order_type@) is None,
                    }
                },
                Err(SubmitError::Log(_)) => {
                    &&& create_shape_ok(user_id@, market_id@, option@, order_type@, price, quantity)
                    &&& parse_option(option@) is Some
                    &&& parse_order_type(order_type@) is Some
                    &&& old(self).next_id_of(stream@) == u64::MAX
                    &&& store_equiv(*old(self), *final(self))
                },
            },
    {
        let ghost s0 = *self;
        let cmd = match crate::order::build_create_order(
            user_id,
            market_id,
            option,
            order_type,
            price,
            quantity,
        ) {
            Err(e) => {
                proof {
                    assert forall|sn2: Seq<char>| #[trigger] stream_equiv(s0, *self, sn2) by {}
                    assert forall|sn2: Seq<char>, gn2: Seq<char>| #[trigger] group_equiv(
                        s0,
                        *self,
                        sn2,
                        gn2,
                    ) by {}
                }
                return Err(SubmitError::Rejected(e));
            },
            Ok(c) => c,
        };
        let payload = crate::codec::encode(&cmd);
        match self.append(stream, payload) {
            Ok(id) => Ok(id),
            Err(e) => Err(SubmitError::Log(e)),
        }
    }
}

/// Idempotent group creation: the second of two identical creations finds the
/// group already there and leaves every observable part of the store — the
/// cursor included — exactly as the first call left it.
pub proof fn lemma_ensure_group_idempotent(
    s0: LogStore,
    s1: LogStore,
    s2: LogStore,
    sn: Seq<char>,
    gn: Seq<char>,
)
    requires
        ensure_group_rel(s0, s1, sn, gn),
        ensure_group_rel(s1, s2, sn, gn),
    ensures
        store_equiv(s1, s2),
{
}

/// Idempotent acknowledgement: acknowledging an entry a second time returns
/// zero and leaves the group's delivery state untouched.
pub proof fn lemma_ack_idempotent(
    s0: LogStore,
    s1: LogStore,
    s2: LogStore,
    sn: Seq<char>,
    gn: Seq<char>,
    id: u64,
    r1: u64,
    r2: u64,
)
    requires
        ack_rel(s0, s1, sn, gn, id, r1),
        ack_rel(s1, s2, sn, gn, id, r2),
    ensures
        r2 == 0,
        s2.watermark_of(sn, gn) == s1.watermark_of(sn, gn),
        forall|id2: u64| s2.pending_of(sn, gn, id2) == s1.pending_of(sn, gn, id2),
{
    assert forall|id2: u64| s2.pending_of(sn, gn, id2) == s1.pending_of(sn, gn, id2) by {
        if id2 == id {
            assert(!s1.is_pending(sn, gn, id));
            assert(!s2.is_pending(sn, gn, id));
        }
    }
}

/// At-least-once, first half: every entry a read hands out is in the pending
/// set afterwards, and an entry already pending stays pending through any
/// later read, by any consumer — only an acknowledgement removes it.
pub proof fn lemma_read_keeps_pending(
    s0: LogStore,
    s1: LogStore,
    sn: Seq<char>,
    gn: Seq<char>,
    cn: Seq<char>,
    count: int,
    b: Seq<(u64, Seq<u8>)>,
    id: u64,
)
    requires
        read_rel(s0, s1, sn, gn, cn, count, Ok(b)),
        s0.is_pending(sn, gn, id) || batch_contains(b, id),
    ensures
        s1.is_pending(sn, gn, id),
{
}

/// At-least-once, second half: a pending entry can always be handed out
/// again, with the payload the log recorded for it — an unacknowledged entry
/// is never silently dropped.
pub proof fn lemma_reclaim_redelivers(
    s0: LogStore,
    s1: LogStore,
    sn: Seq<char>,
    gn: Seq<char>,
    cn: Seq<char>,
    id: u64,
    r: Option<(u64, Seq<u8>)>,
)
    requires
        claim_rel(s0, s1, sn, gn, cn, id, r),
        s0.is_pending(sn, gn, id),
    ensures
        r is Some,
        r.unwrap().0 == id,
        s1.is_pending(sn, gn, id),
        find_stream(s0.streams@, sn) is Some && entry_lookup(
            find_stream(s0.streams@, sn).unwrap().entries@,
            id,
        ) == Some(r.unwrap().1),
{
    if find_stream(s0.streams@, sn) is None {
        assert(!s0.has_group(sn, gn));
    }
}

/// Ordering, producer side: two successive appends to one stream receive
/// strictly increasing identifiers, and the log holds them in that order.
pub proof fn lemma_append_ordering(
    s0: LogStore,
    s1: LogStore,
    s2: LogStore,
    sn: Seq<char>,
    pl1: Seq<u8>,
    pl2: Seq<u8>,
    id1: u64,
    id2: u64,
)
    requires
        append_rel(s0, s1, sn, pl1, Ok(id1)),
        append_rel(s1, s2, sn, pl2, Ok(id2)),
    ensures
        id1 < id2,
        s2.entries_of(sn) == s0.entries_of(sn).push((id1, pl1)).push((id2, pl2)),
{
}

/// Ordering, consumer side: a read returns entries in strictly increasing
/// identifier order — the order in which one producer appended them.
pub proof fn lemma_read_ordered(
    s0: LogStore,
    s1: LogStore,
    sn: Seq<char>,
    gn: Seq<char>,
    cn: Seq<char>,
    count: int,
    b: Seq<(u64, Seq<u8>)>,
)
    requires
        read_rel(s0, s1, sn, gn, cn, count, Ok(b)),
    ensures
        forall|x: int, y: int| 0 <= x < y < b.len() ==> b[x].0 < b[y].0,
{
}

} // verus!
