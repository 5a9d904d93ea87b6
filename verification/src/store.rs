//! The log-structured store core. Log files live in memory as character
//! buffers; the caller mirrors them to a data directory. Every operation
//! keeps the store well formed: each file is a concatenation of encoded
//! commands, the index points at the live `Set` command of each key, and
//! replaying the whole log yields exactly the index's contents.

use crate::codec::{
    encodes_at, put_len, rm_len, spec_encode, Cmd, CmdModel, DecodeResult, decode_cmd, encode_cmd,
    lemma_encode_len,
};
use crate::index::{CmdPos, EntryModel, Index};
use crate::KvsError;
use vstd::map::*;
use vstd::prelude::*;

verus! {

/// Number of stale bytes past which a write triggers compaction.
pub const COMPACTION_THRESHOLD: u64 = 1024 * 1024;

/// One log file as callers exchange it: a generation id and its contents.
#[derive(Debug, Clone)]
pub struct LogFile {
    /// The generation id; the file is named `<fid>.log` on disk.
    pub fid: u64,
    /// The characters of the file.
    pub data: Vec<char>,
}

impl View for LogFile {
    type V = (u64, Seq<char>);

    open spec fn view(&self) -> (u64, Seq<char>) {
        (self.fid, self.data@)
    }
}

impl DeepView for LogFile {
    type V = (u64, Seq<char>);

    open spec fn deep_view(&self) -> (u64, Seq<char>) {
        self.view()
    }
}

struct StoreFile {
    fid: u64,
    data: Vec<char>,
    cmds: Ghost<Seq<CmdModel>>,
}

/// `data` is exactly the concatenation of the encodings of `cmds`.
pub open spec fn is_cmd_log(data: Seq<char>, cmds: Seq<CmdModel>) -> bool
    decreases cmds.len(),
{
    if cmds.len() == 0 {
        data.len() == 0
    } else {
        let e = spec_encode(cmds[0]);
        &&& e.len() <= data.len()
        &&& data.take(e.len() as int) == e
        &&& is_cmd_log(data.skip(e.len() as int), cmds.skip(1))
    }
}

/// The effect of one command on a key/value map.
pub open spec fn apply_cmd(
    m: Map<Seq<char>, Seq<char>>,
    c: CmdModel,
) -> Map<Seq<char>, Seq<char>> {
    match c {
        CmdModel::Put { key, value } => m.insert(key, value),
        CmdModel::Rm { key } => m.remove(key),
    }
}

/// The effect of a command sequence on a key/value map, first to last.
pub open spec fn apply_log(
    m: Map<Seq<char>, Seq<char>>,
    cs: Seq<CmdModel>,
) -> Map<Seq<char>, Seq<char>>
    decreases cs.len(),
{
    if cs.len() == 0 {
        m
    } else {
        apply_log(apply_cmd(m, cs[0]), cs.skip(1))
    }
}

/// Appending one command applies it after the rest.
pub proof fn lemma_apply_log_snoc(m: Map<Seq<char>, Seq<char>>, cs: Seq<CmdModel>, c: CmdModel)
    ensures
        apply_log(m, cs.push(c)) == apply_cmd(apply_log(m, cs), c),
    decreases cs.len(),
{
    if cs.len() == 0 {
        assert(cs.push(c).skip(1) =~= Seq::<CmdModel>::empty());
        assert(cs.push(c)[0] == c);
        assert(apply_log(apply_cmd(m, c), Seq::<CmdModel>::empty()) == apply_cmd(m, c));
        assert(apply_log(m, cs) == m);
    } else {
        assert(cs.push(c).skip(1) =~= cs.skip(1).push(c));
        assert(cs.push(c)[0] == cs[0]);
        lemma_apply_log_snoc(apply_cmd(m, cs[0]), cs.skip(1), c);
    }
}

/// A log grows by one encoded command at its end.
pub proof fn lemma_cmd_log_snoc(data: Seq<char>, cs: Seq<CmdModel>, c: CmdModel)
    requires
        is_cmd_log(data, cs),
    ensures
        is_cmd_log(data + spec_encode(c), cs.push(c)),
    decreases cs.len(),
{
    let e = spec_encode(c);
    if cs.len() == 0 {
        assert(data + e =~= e);
        let one = cs.push(c);
        assert(one[0] == c);
        assert(e.take(e.len() as int) =~= e);
        assert(e.skip(e.len() as int) =~= Seq::<char>::empty());
        assert(one.skip(1) =~= Seq::<CmdModel>::empty());
        assert(is_cmd_log(Seq::<char>::empty(), Seq::<CmdModel>::empty()));
        assert(is_cmd_log((data + e).skip(e.len() as int), one.skip(1)));
    } else {
        let e0 = spec_encode(cs[0]);
        assert((data + e).take(e0.len() as int) =~= data.take(e0.len() as int));
        assert((data + e).skip(e0.len() as int) =~= data.skip(e0.len() as int) + e);
        assert(cs.push(c)[0] == cs[0]);
        assert(cs.push(c).skip(1) =~= cs.skip(1).push(c));
        lemma_cmd_log_snoc(data.skip(e0.len() as int), cs.skip(1), c);
    }
}

spec fn cmds_of(files: Seq<StoreFile>) -> Seq<CmdModel>
    decreases files.len(),
{
    if files.len() == 0 {
        Seq::empty()
    } else {
        cmds_of(files.drop_last()) + files.last().cmds@
    }
}

spec fn bytes_of(files: Seq<StoreFile>) -> int
    decreases files.len(),
{
    if files.len() == 0 {
        0
    } else {
        bytes_of(files.drop_last()) + files.last().data@.len()
    }
}

spec fn fids_sorted(files: Seq<StoreFile>) -> bool {
    forall|i: int, j: int| 0 <= i < j < files.len() ==> files[i].fid < files[j].fid
}

spec fn logs_ok(files: Seq<StoreFile>) -> bool {
    forall|i: int| 0 <= i < files.len() ==> is_cmd_log(files[i].data@, files[i].cmds@)
}

spec fn entry_ok(files: Seq<StoreFile>, k: Seq<char>, e: EntryModel) -> bool {
    exists|fi: int|
        0 <= fi < files.len() && (#[trigger] files[fi]).fid == e.pos.fid && e.pos.pos + e.pos.len
            <= files[fi].data@.len() && files[fi].data@.subrange(
            e.pos.pos as int,
            e.pos.pos + e.pos.len,
        ) == spec_encode(CmdModel::Put { key: k, value: e.value })
}

spec fn entries_ok(files: Seq<StoreFile>, m: Map<Seq<char>, EntryModel>) -> bool {
    forall|k: Seq<char>| m.contains_key(k) ==> entry_ok(files, k, #[trigger] m[k])
}

/// The key/value map an index stands for: each live key bound to the value
/// its entry carries.
pub open spec fn contents_of(m: Map<Seq<char>, EntryModel>) -> Map<Seq<char>, Seq<char>> {
    Map::new(|k: Seq<char>| m.contains_key(k), |k: Seq<char>| m[k].value)
}

/// The store core: the log files, the index over them, and the running
/// count of stale bytes.
pub struct KvStore {
    files: Vec<StoreFile>,
    index: Index,
    uncompacted: u64,
}

impl KvStore {
    /// The key/value map the store holds.
    pub closed spec fn contents(self) -> Map<Seq<char>, Seq<char>> {
        contents_of(self.index@)
    }

    /// The generation id of the file that accepts appends.
    pub closed spec fn active_fid(self) -> u64 {
        self.files@.last().fid
    }

    /// The commands of all log files, in log order.
    pub closed spec fn log(self) -> Seq<CmdModel> {
        cmds_of(self.files@)
    }

    /// The generation ids and contents of the log files, in fid order.
    pub closed spec fn files_model(self) -> Seq<(u64, Seq<char>)> {
        Seq::new(self.files@.len(), |i: int| (self.files@[i].fid, self.files@[i].data@))
    }

    /// The total size of the log files.
    pub closed spec fn disk_bytes(self) -> int {
        bytes_of(self.files@)
    }

    /// The total encoded size of the live commands.
    pub closed spec fn live_bytes(self) -> int {
        self.index.total_len()
    }

    /// The stale bytes counted towards the compaction threshold.
    pub closed spec fn stale_bytes(self) -> u64 {
        self.uncompacted
    }

    /// The encoded length of the live command for `k`; meaningful only
    /// when `k` is live.
    pub closed spec fn live_len(self, k: Seq<char>) -> int {
        self.index@[k].pos.len as int
    }

    /// The stale bytes a `set` of `k` leaves before any compaction: the
    /// current count plus the superseded record, if one exists.
    pub open spec fn stale_after_set(self, k: Seq<char>) -> int {
        self.stale_bytes() + if self.contents().contains_key(k) {
            self.live_len(k)
        } else {
            0
        }
    }

    /// The stale bytes a successful `remove` of `k` leaves before any
    /// compaction: the current count, the superseded record, and the
    /// `Rm` record itself.
    pub open spec fn stale_after_remove(self, k: Seq<char>) -> int {
        self.stale_bytes() + self.live_len(k) + rm_len(k)
    }

    /// The store invariant: files are sorted command logs, the index points
    /// at the live `Set` of each key, replaying the whole log yields the
    /// contents, and the stale-byte count is exactly what compaction could
    /// reclaim.
    pub closed spec fn wf(self) -> bool {
        &&& self.files@.len() >= 1
        &&& fids_sorted(self.files@)
        &&& logs_ok(self.files@)
        &&& self.index.wf()
        &&& entries_ok(self.files@, self.index@)
        &&& apply_log(Map::empty(), cmds_of(self.files@)) == self.contents()
        &&& bytes_of(self.files@) <= u64::MAX
        &&& self.uncompacted as int == bytes_of(self.files@) - self.index.total_len()
        &&& self.index.total_len() >= 0
    }

    /// Replaying the store's own log yields its contents; this is what
    /// makes reopening over the same files faithful.
    pub proof fn lemma_replay_faithful(self)
        requires
            self.wf(),
        ensures
            apply_log(Map::empty(), self.log()) == self.contents(),
    {
    }

    /// Every character of the log is either live or counted as stale:
    /// the file sizes add up to the live records plus the stale bytes
    /// that the next compaction reclaims.
    pub proof fn lemma_space_accounting(self)
        requires
            self.wf(),
        ensures
            self.disk_bytes() == self.live_bytes() + self.stale_bytes(),
    {
    }

    /// The generation id of the active file, executably.
    pub fn cur_fid(&self) -> (f: u64)
        requires
            self.wf(),
        ensures
            f == self.active_fid(),
    {
        self.files[self.files.len() - 1].fid
    }

    /// The stale-byte count, executably.
    pub fn stale(&self) -> (n: u64)
        ensures
            n == self.stale_bytes(),
    {
        self.uncompacted
    }

    /// The total size of the log files, executably.
    pub fn disk_size(&self) -> (n: u64)
        requires
            self.wf(),
        ensures
            n as int == self.disk_bytes(),
    {
        let m = self.files.len();
        let mut n: u64 = 0;
        let mut i: usize = 0;
        while i < m
            invariant
                0 <= i <= m,
                m == self.files@.len(),
                bytes_of(self.files@) <= u64::MAX,
                n as int == bytes_of(self.files@.take(i as int)),
                bytes_of(self.files@.take(i as int)) <= bytes_of(self.files@),
            decreases m - i,
        {
            proof {
                assert(self.files@.take(i + 1).drop_last() =~= self.files@.take(i as int));
                assert(self.files@.take(i + 1).last() == self.files@[i as int]);
                lemma_bytes_of_take(self.files@, i + 1);
            }
            n = n + self.files[i].data.len() as u64;
            i += 1;
        }
        proof {
            assert(self.files@.take(m as int) =~= self.files@);
        }
        n
    }

    /// A copy of the log files, for mirroring to disk or reopening.
    pub fn snapshot(&self) -> (r: Vec<LogFile>)
        requires
            self.wf(),
        ensures
            r.deep_view() == self.files_model(),
    {
        let m = self.files.len();
        let mut r: Vec<LogFile> = Vec::new();
        let mut i: usize = 0;
        while i < m
            invariant
                0 <= i <= m,
                m == self.files@.len(),
                r@.len() == i,
                forall|j: int| 0 <= j < i ==> (#[trigger] r@[j])@ == (self.files@[j].fid, self.files@[j].data@),
            decreases m - i,
        {
            let f = &self.files[i];
            let data = clone_chars(&f.data);
            r.push(LogFile { fid: f.fid, data });
            i += 1;
        }
        proof {
            assert(r.deep_view() =~= self.files_model());
        }
        r
    }

    fn find_file(&self, fid: u64) -> (r: Option<usize>)
        ensures
            match r {
                Option::Some(i) => i < self.files@.len() && self.files@[i as int].fid == fid,
                Option::None => forall|i: int| 0 <= i < self.files@.len() ==> self.files@[i].fid != fid,
            },
    {
        let m = self.files.len();
        let mut i: usize = 0;
        while i < m
            invariant
                0 <= i <= m,
                m == self.files@.len(),
                forall|j: int| 0 <= j < i ==> self.files@[j].fid != fid,
            decreases m - i,
        {
            if self.files[i].fid == fid {
                return Option::Some(i);
            }
            i += 1;
        }
        Option::None
    }

    /// Look up the value bound to `key`.
    ///
    /// Returns `Ok(None)` when the key is not live; read errors cannot
    /// occur on a well-formed store.
    pub fn get(&self, key: String) -> (r: Result<Option<String>, KvsError>)
        requires
            self.wf(),
        ensures
            match r {
                Result::Ok(v) => match v {
                    Option::Some(s) => self.contents().contains_key(key@) && s@
                        == self.contents()[key@],
                    Option::None => !self.contents().contains_key(key@),
                },
                Result::Err(_) => false,
            },
    {
        let found = self.index.get(&key);
        match found {
            Option::Some(p) => {
                let ghost em = self.index@[key@];
                let fi = match self.find_file(p.fid) {
                    Option::Some(fi) => fi,
                    Option::None => {
                        proof {
                            assert(entry_ok(self.files@, key@, em));
                            let w = choose|w: int|
                                0 <= w < self.files@.len() && (#[trigger] self.files@[w]).fid
                                    == em.pos.fid;
                            assert(self.files@[w].fid == p.fid);
                        }
                        return Result::Err(KvsError::Unknown);
                    },
                };
                let file = &self.files[fi];
                proof {
                    assert(entry_ok(self.files@, key@, em));
                    let w = choose|w: int|
                        0 <= w < self.files@.len() && (#[trigger] self.files@[w]).fid == em.pos.fid
                            && em.pos.pos + em.pos.len <= self.files@[w].data@.len()
                            && self.files@[w].data@.subrange(
                            em.pos.pos as int,
                            em.pos.pos + em.pos.len,
                        ) == spec_encode(CmdModel::Put { key: key@, value: em.value });
                    if w != fi as int {
                        assert(self.files@[w].fid == self.files@[fi as int].fid);
                        assert(false);
                    }
                    lemma_encode_len(CmdModel::Put { key: key@, value: em.value });
                    assert(encodes_at(
                        file.data@,
                        em.pos.pos as int,
                        (CmdModel::Put { key: key@, value: em.value }),
                    ));
                }
                let dlen = file.data.len();
                proof {
                    assert(em.pos.pos <= file.data@.len());
                    assert(dlen == file.data@.len());
                }
                let start = p.pos as usize;
                proof {
                    assert(start as int == p.pos as int);
                }
                match decode_cmd(&file.data, start) {
                    DecodeResult::Found { cmd, end } => {
                        match cmd {
                            Cmd::Put { key: k2, value } => {
                                proof {
                                    assert(cmd@ == (CmdModel::Put { key: key@, value: em.value }));
                                    assert(value@ == em.value);
                                    assert(self.contents().contains_key(key@));
                                    assert(self.contents()[key@] == em.value);
                                }
                                Result::Ok(Option::Some(value))
                            },
                            Cmd::Rm { key: k2 } => Result::Err(KvsError::Unknown),
                        }
                    },
                    _ => Result::Err(KvsError::Unknown),
                }
            },
            Option::None => Result::Ok(Option::None),
        }
    }
}

/// The commands that set the first `t` index entries, in entry order.
spec fn puts_of(idx: Index, t: int) -> Seq<CmdModel>
    decreases t,
{
    if t <= 0 {
        Seq::empty()
    } else {
        puts_of(idx, t - 1).push(CmdModel::Put { key: idx.key_at(t - 1), value: idx.val_at(t - 1) })
    }
}

proof fn lemma_puts_of_index(idx: Index, t: int)
    requires
        0 <= t,
    ensures
        puts_of(idx, t).len() == t,
        forall|j: int|
            0 <= j < t ==> puts_of(idx, t)[j] == (CmdModel::Put {
                key: idx.key_at(j),
                value: idx.val_at(j),
            }),
    decreases t,
{
    if t > 0 {
        lemma_puts_of_index(idx, t - 1);
    }
}

proof fn lemma_apply_puts(idx: Index, t: int)
    requires
        idx.wf(),
        0 <= t <= idx.num(),
    ensures
        forall|k: Seq<char>|
            #[trigger] apply_log(Map::empty(), puts_of(idx, t)).contains_key(k) <==> exists|j: int|
                0 <= j < t && idx.key_at(j) == k,
        forall|j: int|
            0 <= j < t ==> apply_log(Map::empty(), puts_of(idx, t))[#[trigger] idx.key_at(j)]
                == idx.val_at(j),
    decreases t,
{
    idx.lemma_enumerate();
    if t > 0 {
        lemma_apply_puts(idx, t - 1);
        lemma_apply_log_snoc(
            Map::empty(),
            puts_of(idx, t - 1),
            CmdModel::Put { key: idx.key_at(t - 1), value: idx.val_at(t - 1) },
        );
        assert forall|j: int|
            0 <= j < t implies apply_log(Map::empty(), puts_of(idx, t))[#[trigger] idx.key_at(j)]
            == idx.val_at(j) by {
            if j < t - 1 {
                assert(idx.key_at(j) != idx.key_at(t - 1));
            }
        }
    }
}

/// A subrange within the existing part survives an append.
proof fn lemma_append_subrange(d: Seq<char>, e: Seq<char>, a: int, b: int)
    requires
        0 <= a <= b <= d.len(),
    ensures
        (d + e).subrange(a, b) == d.subrange(a, b),
{
    assert((d + e).subrange(a, b) =~= d.subrange(a, b));
}

/// Inserting an entry shifts the contents map by the entry's value.
proof fn lemma_contents_insert(m: Map<Seq<char>, EntryModel>, k: Seq<char>, e: EntryModel)
    ensures
        contents_of(m.insert(k, e)) == contents_of(m).insert(k, e.value),
{
    assert(contents_of(m.insert(k, e)) =~= contents_of(m).insert(k, e.value));
}

/// Removing an entry removes its key from the contents map.
proof fn lemma_contents_remove(m: Map<Seq<char>, EntryModel>, k: Seq<char>)
    ensures
        contents_of(m.remove(k)) == contents_of(m).remove(k),
{
    assert(contents_of(m.remove(k)) =~= contents_of(m).remove(k));
}

impl KvStore {
    /// Copy every live command into a fresh compaction file, retire all
    /// older files, and open a new empty active file.
    ///
    /// The contents are unchanged; afterwards no stale bytes remain, so
    /// the log size equals the live size.
    pub fn compact(&mut self) -> (r: Result<(), KvsError>)
        requires
            old(self).wf(),
            old(self).active_fid() <= u64::MAX - 2,
        ensures
            final(self).wf(),
            r is Ok,
            final(self).contents() == old(self).contents(),
            final(self).stale_bytes() == 0,
            final(self).disk_bytes() == final(self).live_bytes(),
            final(self).live_bytes() == old(self).live_bytes(),
            final(self).active_fid() == old(self).active_fid() + 2,
    {
        let ghost files0 = self.files@;
        let ghost idx0 = self.index;
        let last = self.files.len() - 1;
        let comp_fid = self.files[last].fid + 1;
        let new_fid = comp_fid + 1;
        let mut comp_data: Vec<char> = Vec::new();
        let ghost comp_cmds = Seq::<CmdModel>::empty();
        let ghost mut comp_cmds = comp_cmds;
        let n = self.index.count();
        proof {
            self.index.lemma_enumerate();
            self.index.lemma_len_sum_total();
            self.index.lemma_total_nonneg();
            assert forall|j: int|
                0 <= j < n implies entry_ok(
                files0,
                self.index.key_at(j),
                (EntryModel { pos: self.index.pos_at(j), value: self.index.val_at(j) }),
            ) by {
                assert(self.index@.contains_key(self.index.key_at(j)));
            }
        }
        let mut t: usize = 0;
        while t < n
            invariant
                0 <= t <= n,
                n == self.index.num(),
                self.files@ == files0,
                files0.len() >= 1,
                fids_sorted(files0),
                logs_ok(files0),
                bytes_of(files0) <= u64::MAX,
                comp_fid == files0.last().fid + 1,
                self.index.wf(),
                self.index.total_len() == idx0.total_len(),
                idx0.total_len() <= bytes_of(files0),
                contents_of(self.index@) == contents_of(idx0@),
                forall|j: int| 0 <= j < n ==> self.index.key_at(j) == idx0.key_at(j),
                forall|j: int| 0 <= j < n ==> self.index.val_at(j) == idx0.val_at(j),
                forall|j: int|
                    0 <= j < n ==> (#[trigger] self.index.pos_at(j)).len == idx0.pos_at(j).len,
                forall|j: int| t <= j < n ==> self.index.pos_at(j) == idx0.pos_at(j),
                forall|j: int|
                    t <= j < n ==> entry_ok(
                        files0,
                        self.index.key_at(j),
                        (EntryModel { pos: self.index.pos_at(j), value: self.index.val_at(j) }),
                    ),
                forall|j: int|
                    0 <= j < t ==> (#[trigger] self.index.pos_at(j)).fid == comp_fid
                        && self.index.pos_at(j).pos + self.index.pos_at(j).len
                        <= comp_data@.len() && comp_data@.subrange(
                        self.index.pos_at(j).pos as int,
                        self.index.pos_at(j).pos + self.index.pos_at(j).len,
                    ) == spec_encode(
                        (CmdModel::Put {
                            key: self.index.key_at(j),
                            value: self.index.val_at(j),
                        }),
                    ),
                comp_data@.len() == self.index.len_sum(t as int),
                self.index.len_sum(n as int) == idx0.total_len(),
                is_cmd_log(comp_data@, comp_cmds),
                comp_cmds.len() == t,
                forall|j: int|
                    0 <= j < t ==> comp_cmds[j] == (CmdModel::Put {
                        key: self.index.key_at(j),
                        value: self.index.val_at(j),
                    }),
            decreases n - t,
        {
            let ghost idx_pre = self.index;
            let ghost comp_pre = comp_data@;
            let (kstr, p) = self.index.entry_at(t);
            let ghost em = EntryModel { pos: p, value: self.index.val_at(t as int) };
            let fi = match self.find_file(p.fid) {
                Option::Some(fi) => fi,
                Option::None => {
                    proof {
                        assert(entry_ok(files0, self.index.key_at(t as int), em));
                        let w = choose|w: int|
                            0 <= w < files0.len() && (#[trigger] files0[w]).fid == em.pos.fid;
                        assert(self.files@[w].fid == p.fid);
                    }
                    return Result::Err(KvsError::Unknown);
                },
            };
            proof {
                assert(entry_ok(files0, self.index.key_at(t as int), em));
                let w = choose|w: int|
                    0 <= w < files0.len() && (#[trigger] files0[w]).fid == em.pos.fid && em.pos.pos
                        + em.pos.len <= files0[w].data@.len() && files0[w].data@.subrange(
                        em.pos.pos as int,
                        em.pos.pos + em.pos.len,
                    ) == spec_encode(
                        (CmdModel::Put { key: self.index.key_at(t as int), value: em.value }),
                    );
                if w != fi as int {
                    assert(files0[w].fid == files0[fi as int].fid);
                    assert(false);
                }
            }
            let file = &self.files[fi];
            let dlen = file.data.len();
            let s = p.pos as usize;
            let l = p.len as usize;
            let new_pos = comp_data.len();
            let mut m: usize = 0;
            while m < l
                invariant
                    0 <= m <= l,
                    s + l <= dlen,
                    dlen == file.data@.len(),
                    comp_data@.len() == new_pos + m,
                    comp_data@ == comp_pre + file.data@.subrange(s as int, s + m),
                    comp_pre == comp_data@.take(new_pos as int),
                decreases l - m,
            {
                comp_data.push(file.data[s + m]);
                proof {
                    assert(comp_pre + file.data@.subrange(s as int, s + m + 1) =~= (comp_pre
                        + file.data@.subrange(s as int, s + m)).push(file.data@[s + m]));
                }
                m += 1;
            }
            proof {
                assert(comp_data@ == comp_pre + spec_encode(
                    (CmdModel::Put { key: idx_pre.key_at(t as int), value: em.value }),
                ));
            }
            self.index.set_pos_at(
                t,
                CmdPos { fid: comp_fid, pos: new_pos as u64, len: p.len },
            );
            proof {
                let c = CmdModel::Put { key: idx_pre.key_at(t as int), value: em.value };
                lemma_cmd_log_snoc(comp_pre, comp_cmds, c);
                comp_cmds = comp_cmds.push(c);
                // the contents map is unchanged: the same key keeps the same value
                idx_pre.lemma_enumerate();
                lemma_contents_insert(idx_pre@, idx_pre.key_at(t as int), (EntryModel {
                    pos: self.index.pos_at(t as int),
                    value: em.value,
                }));
                assert(contents_of(self.index@) =~= contents_of(idx_pre@));
                // regions already copied stay put
                assert forall|j: int|
                    0 <= j < t + 1 implies (#[trigger] self.index.pos_at(j)).fid == comp_fid
                    && self.index.pos_at(j).pos + self.index.pos_at(j).len <= comp_data@.len()
                    && comp_data@.subrange(
                    self.index.pos_at(j).pos as int,
                    self.index.pos_at(j).pos + self.index.pos_at(j).len,
                ) == spec_encode(
                    (CmdModel::Put { key: self.index.key_at(j), value: self.index.val_at(j) }),
                ) by {
                    if j < t as int {
                        assert(self.index.pos_at(j) == idx_pre.pos_at(j));
                        lemma_append_subrange(
                            comp_pre,
                            spec_encode(c),
                            idx_pre.pos_at(j).pos as int,
                            idx_pre.pos_at(j).pos + idx_pre.pos_at(j).len,
                        );
                    }
                }
                // the prefix sums follow the unchanged entry lengths
                self.index.lemma_len_sum_congruent(idx_pre, t as int);
                self.index.lemma_len_sum_congruent(idx0, t + 1);
                idx_pre.lemma_len_sum_congruent(idx0, t as int);
                self.index.lemma_len_sum_congruent(idx0, n as int);
                idx_pre.lemma_len_sum_congruent(idx0, n as int);
            }
            t += 1;
        }
        // retire every old file: the compaction file and a fresh active file
        // take their place
        let mut new_files: Vec<StoreFile> = Vec::new();
        let ghost final_comp = comp_data@;
        new_files.push(StoreFile { fid: comp_fid, data: comp_data, cmds: Ghost(comp_cmds) });
        new_files.push(StoreFile { fid: new_fid, data: Vec::new(), cmds: Ghost(Seq::empty()) });
        self.files = new_files;
        self.uncompacted = 0;
        proof {
            let fs = self.files@;
            assert(fs.len() == 2);
            let one = fs.drop_last();
            assert(one.len() == 1);
            assert(one.drop_last() =~= Seq::<StoreFile>::empty());
            assert(cmds_of(Seq::<StoreFile>::empty()) =~= Seq::<CmdModel>::empty());
            assert(bytes_of(Seq::<StoreFile>::empty()) == 0);
            assert(one.last() == fs[0]);
            assert(cmds_of(one) =~= comp_cmds);
            assert(bytes_of(one) == final_comp.len());
            assert(fs.last().cmds@ =~= Seq::<CmdModel>::empty());
            assert(fs.last().data@.len() == 0);
            assert(cmds_of(fs) =~= comp_cmds);
            assert(bytes_of(fs) == final_comp.len());
            // every entry now points into the compaction file
            assert forall|k: Seq<char>| self.index@.contains_key(k) implies entry_ok(
                fs,
                k,
                #[trigger] self.index@[k],
            ) by {
                self.index.lemma_enumerate();
                let j = choose|j: int| 0 <= j < self.index.num() && self.index.key_at(j) == k;
                assert(self.index@[k] == (EntryModel {
                    pos: self.index.pos_at(j),
                    value: self.index.val_at(j),
                }));
                assert(fs[0].fid == comp_fid);
                assert(fs[0].data@ == final_comp);
            }
            // replaying the compaction log yields the contents
            self.index.lemma_enumerate();
            lemma_puts_of_index(self.index, self.index.num());
            assert(comp_cmds =~= puts_of(self.index, self.index.num()));
            lemma_apply_puts(self.index, self.index.num());
            assert(apply_log(Map::empty(), cmds_of(fs)) =~= contents_of(self.index@));
            self.index.lemma_len_sum_total();
        }
        Result::Ok(())
    }
}

impl KvStore {
    /// Append the encoding of `cmd` to the active file, recording it in
    /// the file's command log. Returns the offset of the first appended
    /// character. The index is untouched, so `wf` does not hold until the
    /// caller updates it; the ensures spell out every piece a caller needs.
    fn append_active(&mut self, cmd: &Cmd) -> (pos: usize)
        requires
            old(self).wf(),
            old(self).disk_bytes() + spec_encode(cmd@).len() <= u64::MAX,
        ensures
            final(self).files@.len() == old(self).files@.len(),
            fids_sorted(final(self).files@),
            logs_ok(final(self).files@),
            final(self).index == old(self).index,
            final(self).uncompacted == old(self).uncompacted,
            entries_ok(final(self).files@, final(self).index@),
            final(self).active_fid() == old(self).active_fid(),
            cmds_of(final(self).files@) == cmds_of(old(self).files@).push(cmd@),
            bytes_of(final(self).files@) == bytes_of(old(self).files@) + spec_encode(cmd@).len(),
            pos as int == old(self).files@.last().data@.len(),
            final(self).files@.last().fid == old(self).active_fid(),
            final(self).files@.last().data@.len() == pos + spec_encode(cmd@).len(),
            final(self).files@.last().data@.subrange(pos as int, pos + spec_encode(cmd@).len())
                == spec_encode(cmd@),
            final(self).log() == old(self).log().push(cmd@),
            final(self).files_model() == old(self).files_model().update(
                old(self).files@.len() - 1,
                (old(self).active_fid(), old(self).files@.last().data@ + spec_encode(cmd@)),
            ),
    {
        let ghost files0 = self.files@;
        let mut enc = encode_cmd(cmd);
        let mut f = match self.files.pop() {
            Option::Some(f) => f,
            Option::None => {
                proof {
                    assert(false);
                }
                vstd::pervasive::unreached()
            },
        };
        let pos = f.data.len();
        f.data.append(&mut enc);
        proof {
            lemma_cmd_log_snoc(files0.last().data@, files0.last().cmds@, cmd@);
        }
        let ghost new_cmds = f.cmds@.push(cmd@);
        f.cmds = Ghost(new_cmds);
        self.files.push(f);
        proof {
            let e = spec_encode(cmd@);
            let files1 = self.files@;
            assert(files1.drop_last() =~= files0.drop_last());
            assert(files1.last().data@ == files0.last().data@ + e);
            assert(files1.last().cmds@ == files0.last().cmds@.push(cmd@));
            assert forall|i: int| 0 <= i < files1.len() implies (#[trigger] files1[i]).fid
                == files0[i].fid by {
                if i < files1.len() - 1 {
                    assert(files1[i] == files0[i]);
                }
            }
            assert(cmds_of(files1) =~= cmds_of(files0).push(cmd@)) by {
                assert(cmds_of(files1) == cmds_of(files1.drop_last()) + files1.last().cmds@);
                assert(cmds_of(files0) == cmds_of(files0.drop_last()) + files0.last().cmds@);
                assert(cmds_of(files0.drop_last()) + files0.last().cmds@.push(cmd@) =~= (cmds_of(
                    files0.drop_last(),
                ) + files0.last().cmds@).push(cmd@));
            }
            assert(bytes_of(files1) == bytes_of(files0) + e.len());
            assert(logs_ok(files1)) by {
                assert forall|i: int| 0 <= i < files1.len() implies is_cmd_log(
                    (#[trigger] files1[i]).data@,
                    files1[i].cmds@,
                ) by {
                    if i < files1.len() - 1 {
                        assert(files1[i] == files0[i]);
                        assert(is_cmd_log(files0[i].data@, files0[i].cmds@));
                    }
                }
            }
            assert(entries_ok(files1, self.index@)) by {
                assert forall|k: Seq<char>| self.index@.contains_key(k) implies entry_ok(
                    files1,
                    k,
                    #[trigger] self.index@[k],
                ) by {
                    let em = self.index@[k];
                    assert(entry_ok(files0, k, em));
                    let w = choose|w: int|
                        0 <= w < files0.len() && (#[trigger] files0[w]).fid == em.pos.fid
                            && em.pos.pos + em.pos.len <= files0[w].data@.len()
                            && files0[w].data@.subrange(
                            em.pos.pos as int,
                            em.pos.pos + em.pos.len,
                        ) == spec_encode(CmdModel::Put { key: k, value: em.value });
                    if w < files0.len() - 1 {
                        assert(files1[w] == files0[w]);
                    } else {
                        lemma_append_subrange(
                            files0.last().data@,
                            e,
                            em.pos.pos as int,
                            em.pos.pos + em.pos.len,
                        );
                        assert(files1[w].fid == em.pos.fid);
                    }
                }
            }
            assert(files1.last().data@.subrange(pos as int, pos + e.len()) =~= e);
            assert(self.files_model() =~= old(self).files_model().update(
                files0.len() - 1,
                (files0.last().fid, files0.last().data@ + e),
            ));
        }
        pos
    }

    /// Bind `key` to `value`.
    ///
    /// The previous binding, if any, becomes stale; once enough stale
    /// bytes accumulate the write triggers compaction, so the log never
    /// ends more than the threshold above its live size.
    pub fn set(&mut self, key: String, value: String) -> (r: Result<(), KvsError>)
        requires
            old(self).wf(),
            old(self).disk_bytes() + put_len(key@, value@) <= u64::MAX,
            old(self).active_fid() <= u64::MAX - 2,
        ensures
            final(self).wf(),
            r is Ok,
            final(self).contents() == old(self).contents().insert(key@, value@),
            final(self).stale_bytes() <= COMPACTION_THRESHOLD,
            final(self).disk_bytes() <= final(self).live_bytes() + COMPACTION_THRESHOLD,
            final(self).disk_bytes() <= old(self).disk_bytes() + put_len(key@, value@),
            old(self).stale_after_set(key@) <= COMPACTION_THRESHOLD ==> final(self).log() == old(
                self,
            ).log().push((CmdModel::Put { key: key@, value: value@ })) && final(self).files_model()
                == old(self).files_model().update(
                old(self).files_model().len() - 1,
                (
                    old(self).active_fid(),
                    old(self).files_model().last().1 + spec_encode(
                        (CmdModel::Put { key: key@, value: value@ }),
                    ),
                ),
            ) && final(self).active_fid() == old(self).active_fid() && final(self).stale_bytes()
                == old(self).stale_after_set(key@),
            old(self).stale_after_set(key@) > COMPACTION_THRESHOLD ==> final(self).stale_bytes()
                == 0 && final(self).disk_bytes() == final(self).live_bytes()
                && final(self).active_fid() == old(self).active_fid() + 2,
    {
        let ghost files0 = self.files@;
        let ghost idx0 = self.index;
        let cmd = Cmd::set(key.clone(), value.clone());
        proof {
            lemma_encode_len(cmd@);
        }
        let pos = self.append_active(&cmd);
        let fid = self.cur_fid_raw();
        let last_len = self.active_len();
        let p_new = CmdPos { fid, pos: pos as u64, len: (last_len - pos) as u64 };
        let prev = self.index.insert(key, p_new, Ghost(value@));
        proof {
            self.index.lemma_total_nonneg();
            lemma_contents_insert(idx0@, key@, (EntryModel { pos: p_new, value: value@ }));
            lemma_apply_log_snoc(Map::empty(), cmds_of(files0), cmd@);
        }
        match prev {
            Option::Some(p) => {
                self.uncompacted = self.uncompacted + p.len;
            },
            Option::None => {},
        }
        proof {
            // the new entry points at the just-appended encoding
            let files1 = self.files@;
            assert(entries_ok(files1, self.index@)) by {
                assert forall|k: Seq<char>| self.index@.contains_key(k) implies entry_ok(
                    files1,
                    k,
                    #[trigger] self.index@[k],
                ) by {
                    if k == key@ {
                        let w = files1.len() - 1;
                        assert(files1[w] == files1.last());
                        assert(files1[w].fid == p_new.fid);
                    } else {
                        assert(idx0@.contains_key(k));
                        assert(self.index@[k] == idx0@[k]);
                    }
                }
            }
            assert(self.wf());
        }
        if self.uncompacted > COMPACTION_THRESHOLD {
            let cr = self.compact();
            match cr {
                Result::Ok(u) => {},
                Result::Err(e) => {
                    proof {
                        assert(false);
                    }
                },
            }
        }
        Result::Ok(())
    }

    /// Unbind `key`.
    ///
    /// When the key is not live, the store is left untouched and
    /// `KeyNotFound` is returned; the log does not grow. Otherwise a
    /// `Rm` record is appended and both it and the superseded `Set`
    /// become stale.
    pub fn remove(&mut self, key: String) -> (r: Result<(), KvsError>)
        requires
            old(self).wf(),
            old(self).contents().contains_key(key@) ==> old(self).disk_bytes() + rm_len(key@)
                <= u64::MAX && old(self).active_fid() <= u64::MAX - 2,
        ensures
            final(self).wf(),
            old(self).contents().contains_key(key@) ==> r is Ok && final(self).contents() == old(
                self,
            ).contents().remove(key@) && final(self).stale_bytes() <= COMPACTION_THRESHOLD
                && final(self).disk_bytes() <= final(self).live_bytes() + COMPACTION_THRESHOLD
                && final(self).disk_bytes() <= old(self).disk_bytes() + rm_len(key@),
            !old(self).contents().contains_key(key@) ==> (r matches Result::Err(
                KvsError::KeyNotFound,
            )) && *final(self) == *old(self),
            old(self).contents().contains_key(key@) && old(self).stale_after_remove(key@)
                <= COMPACTION_THRESHOLD ==> final(self).log() == old(self).log().push(
                (CmdModel::Rm { key: key@ }),
            ) && final(self).files_model() == old(self).files_model().update(
                old(self).files_model().len() - 1,
                (
                    old(self).active_fid(),
                    old(self).files_model().last().1 + spec_encode((CmdModel::Rm { key: key@ })),
                ),
            ) && final(self).active_fid() == old(self).active_fid() && final(self).stale_bytes()
                == old(self).stale_after_remove(key@),
            old(self).contents().contains_key(key@) && old(self).stale_after_remove(key@)
                > COMPACTION_THRESHOLD ==> final(self).stale_bytes() == 0
                && final(self).disk_bytes() == final(self).live_bytes()
                && final(self).active_fid() == old(self).active_fid() + 2,
    {
        let present = match self.index.get(&key) {
            Option::Some(p) => true,
            Option::None => false,
        };
        if !present {
            return Result::Err(KvsError::KeyNotFound);
        }
        let ghost files0 = self.files@;
        let ghost idx0 = self.index;
        let cmd = Cmd::rm(key.clone());
        proof {
            lemma_encode_len(cmd@);
        }
        let pos = self.append_active(&cmd);
        let last_len = self.active_len();
        let rm_bytes = (last_len - pos) as u64;
        let prev = self.index.remove(&key);
        let p = match prev {
            Option::Some(p) => p,
            Option::None => {
                proof {
                    assert(false);
                }
                vstd::pervasive::unreached()
            },
        };
        proof {
            self.index.lemma_total_nonneg();
            lemma_contents_remove(idx0@, key@);
            lemma_apply_log_snoc(Map::empty(), cmds_of(files0), cmd@);
        }
        self.uncompacted = self.uncompacted + p.len;
        self.uncompacted = self.uncompacted + rm_bytes;
        proof {
            let files1 = self.files@;
            assert(entries_ok(files1, self.index@)) by {
                assert forall|k: Seq<char>| self.index@.contains_key(k) implies entry_ok(
                    files1,
                    k,
                    #[trigger] self.index@[k],
                ) by {
                    assert(idx0@.contains_key(k));
                    assert(self.index@[k] == idx0@[k]);
                }
            }
            assert(self.wf());
        }
        if self.uncompacted > COMPACTION_THRESHOLD {
            let cr = self.compact();
            match cr {
                Result::Ok(u) => {},
                Result::Err(e) => {
                    proof {
                        assert(false);
                    }
                },
            }
        }
        Result::Ok(())
    }

    /// The generation id of the active file, without the `wf` premise.
    fn cur_fid_raw(&self) -> (f: u64)
        requires
            self.files@.len() >= 1,
        ensures
            f == self.files@.last().fid,
    {
        self.files[self.files.len() - 1].fid
    }

    /// The length of the active file.
    fn active_len(&self) -> (n: usize)
        requires
            self.files@.len() >= 1,
        ensures
            n == self.files@.last().data@.len(),
    {
        self.files[self.files.len() - 1].data.len()
    }
}

/// The concatenation of the per-file command logs.
pub open spec fn flatten_logs(logs: Seq<Seq<CmdModel>>) -> Seq<CmdModel>
    decreases logs.len(),
{
    if logs.len() == 0 {
        Seq::empty()
    } else {
        flatten_logs(logs.drop_last()) + logs.last()
    }
}

/// The total size of a sequence of files handed to `open`.
pub open spec fn sum_bytes(files: Seq<(u64, Seq<char>)>) -> int
    decreases files.len(),
{
    if files.len() == 0 {
        0
    } else {
        sum_bytes(files.drop_last()) + files.last().1.len()
    }
}

/// What `open` demands of its input for an exact outcome: the files are in
/// strictly ascending generation order, each decodes completely into its
/// log, the whole fits the byte counter, and one more generation id is
/// available for the new active file.
pub open spec fn valid_input(files: Seq<(u64, Seq<char>)>, logs: Seq<Seq<CmdModel>>) -> bool {
    &&& logs.len() == files.len()
    &&& forall|i: int| 0 <= i < files.len() ==> is_cmd_log((#[trigger] files[i]).1, logs[i])
    &&& forall|i: int, j: int| 0 <= i < j < files.len() ==> files[i].0 < files[j].0
    &&& sum_bytes(files) <= u64::MAX
    &&& files.len() > 0 ==> files.last().0 < u64::MAX
}

proof fn lemma_flatten_take(logs: Seq<Seq<CmdModel>>, t: int)
    requires
        0 < t <= logs.len(),
    ensures
        flatten_logs(logs.take(t)) == flatten_logs(logs.take(t - 1)) + logs[t - 1],
{
    assert(logs.take(t).drop_last() =~= logs.take(t - 1));
    assert(logs.take(t).last() == logs[t - 1]);
}

proof fn lemma_sum_bytes_take(files: Seq<(u64, Seq<char>)>, t: int)
    requires
        0 < t <= files.len(),
    ensures
        sum_bytes(files.take(t)) == sum_bytes(files.take(t - 1)) + files[t - 1].1.len(),
{
    assert(files.take(t).drop_last() =~= files.take(t - 1));
    assert(files.take(t).last() == files[t - 1]);
}

proof fn lemma_sum_bytes_prefix(files: Seq<(u64, Seq<char>)>, t: int)
    requires
        0 <= t <= files.len(),
    ensures
        sum_bytes(files.take(t)) <= sum_bytes(files),
    decreases files.len() - t,
{
    if t < files.len() {
        lemma_sum_bytes_prefix(files, t + 1);
        lemma_sum_bytes_take(files, t + 1);
    } else {
        assert(files.take(t) =~= files);
    }
}

/// The facts the parse pass establishes about a file's commands and
/// their start offsets; opaque so that proofs pay for them only where
/// they are used.
#[verifier::opaque]
spec fn parse_facts(d: Seq<char>, pos: int, cmds: Seq<CmdModel>, pv: Seq<Cmd>, sv: Seq<usize>) -> bool {
    &&& pv.len() == cmds.len()
    &&& sv.len() == cmds.len()
    &&& forall|tt: int| 0 <= tt < cmds.len() ==> (#[trigger] pv[tt])@ == cmds[tt]
    &&& forall|tt: int|
        0 <= tt < cmds.len() ==> 0 <= (#[trigger] sv[tt]) && sv[tt] + spec_encode(
            cmds[tt],
        ).len() <= pos && encodes_at(d, sv[tt] as int, cmds[tt])
    &&& forall|tt: int|
        0 <= tt < cmds.len() - 1 ==> (#[trigger] sv[tt]) + spec_encode(cmds[tt]).len() == sv[tt
            + 1]
    &&& (cmds.len() > 0 ==> sv[0] == 0 && sv[cmds.len() - 1] + spec_encode(cmds.last()).len()
        == pos)
    &&& (cmds.len() == 0 ==> pos == 0)
}

/// One step of the fold: the arithmetic and region facts the parse pass
/// guarantees for the `t`-th command.
proof fn lemma_fold_step(
    d: Seq<char>,
    pos: int,
    cmds: Seq<CmdModel>,
    pv: Seq<Cmd>,
    sv: Seq<usize>,
    t: int,
    applied_base: Seq<CmdModel>,
)
    requires
        parse_facts(d, pos, cmds, pv, sv),
        0 <= t < cmds.len(),
        0 <= pos <= d.len(),
    ensures
        sv.len() == cmds.len() && pv.len() == cmds.len(),
        consumed_at(sv, pos, t) == sv[t],
        consumed_at(sv, pos, t + 1) == sv[t] + spec_encode(cmds[t]).len(),
        consumed_at(sv, pos, t + 1) <= pos,
        encodes_at(d.take(pos), sv[t] as int, cmds[t]),
        pv[t]@ == cmds[t],
        applied_base + cmds.take(t + 1) == (applied_base + cmds.take(t)).push(cmds[t]),
        t + 1 < cmds.len() ==> sv[t + 1] == sv[t] + spec_encode(cmds[t]).len(),
{
    reveal(parse_facts);
    if t + 1 < cmds.len() {
        assert(sv[t] + spec_encode(cmds[t]).len() == sv[t + 1]);
    }
    assert(encodes_at(d, sv[t] as int, cmds[t]));
    let e = spec_encode(cmds[t]);
    assert(d.take(pos).subrange(sv[t] as int, sv[t] + e.len()) =~= d.subrange(
        sv[t] as int,
        sv[t] + e.len(),
    ));
    assert(applied_base + cmds.take(t + 1) =~= (applied_base + cmds.take(t)).push(cmds[t]));
}

/// The state carried while folding parsed commands into the index: the
/// files are fixed, the index reflects exactly the commands applied so
/// far, and the stale count matches the bytes consumed; opaque so the
/// fold loop carries it as one fact.
#[verifier::opaque]
spec fn fold_inv(
    st: KvStore,
    files1: Seq<StoreFile>,
    applied: Seq<CmdModel>,
    base: int,
    consumed: int,
) -> bool {
    &&& st.files@ == files1
    &&& st.index.wf()
    &&& entries_ok(files1, st.index@)
    &&& contents_of(st.index@) == apply_log(Map::empty(), applied)
    &&& st.index.total_len() >= 0
    &&& st.uncompacted as int == base + consumed - st.index.total_len()
}

/// The number of characters consumed by the first `t` parsed commands,
/// given their start offsets and the end of the parsed prefix.
spec fn consumed_at(starts: Seq<usize>, end: int, t: int) -> int {
    if t < starts.len() {
        starts[t] as int
    } else {
        end
    }
}

/// A complete log has a unique command decomposition; the suffix left
/// after any parsed prefix determines the remaining commands.
proof fn lemma_cmd_log_head(s: Seq<char>, cs: Seq<CmdModel>, i: int)
    requires
        0 <= i <= s.len(),
        is_cmd_log(s.skip(i), cs),
        cs.len() > 0,
    ensures
        encodes_at(s, i, cs[0]),
        is_cmd_log(s.skip(i + spec_encode(cs[0]).len()), cs.skip(1)),
{
    let e = spec_encode(cs[0]);
    let suf = s.skip(i);
    assert(suf.take(e.len() as int) == e);
    assert(s.subrange(i, i + e.len()) =~= suf.take(e.len() as int));
    assert(s.skip(i + e.len()) =~= suf.skip(e.len() as int));
}

/// Decoding one more command extends the parsed prefix and narrows the
/// possible complete decompositions.
proof fn lemma_parse_step(d: Seq<char>, pos: int, end: int, cmds: Seq<CmdModel>, c: CmdModel)
    requires
        0 <= pos <= end <= d.len(),
        encodes_at(d, pos, c),
        forall|c2: CmdModel| #[trigger] encodes_at(d, pos, c2) ==> c2 == c,
        end == pos + spec_encode(c).len(),
        is_cmd_log(d.take(pos), cmds),
        forall|cs: Seq<CmdModel>|
            #[trigger] is_cmd_log(d, cs) ==> cmds.is_prefix_of(cs) && is_cmd_log(
                d.skip(pos),
                cs.skip(cmds.len() as int),
            ),
    ensures
        is_cmd_log(d.take(end), cmds.push(c)),
        forall|cs: Seq<CmdModel>|
            #[trigger] is_cmd_log(d, cs) ==> cmds.push(c).is_prefix_of(cs) && is_cmd_log(
                d.skip(end),
                cs.skip(cmds.len() as int + 1),
            ),
{
    assert(d.take(end) =~= d.take(pos) + d.subrange(pos, end));
    lemma_cmd_log_snoc(d.take(pos), cmds, c);
    assert forall|cs: Seq<CmdModel>| #[trigger] is_cmd_log(d, cs) implies cmds.push(
        c,
    ).is_prefix_of(cs) && is_cmd_log(d.skip(end), cs.skip(cmds.len() as int + 1)) by {
        let rest = cs.skip(cmds.len() as int);
        assert(is_cmd_log(d.skip(pos), rest));
        if rest.len() == 0 {
            assert(d.skip(pos).len() == 0);
            assert(false);
        }
        lemma_cmd_log_head(d, rest, pos);
        assert(encodes_at(d, pos, rest[0]));
        assert(c == rest[0]);
        assert(cs.skip(cmds.len() as int + 1) =~= rest.skip(1));
        assert(cs[cmds.len() as int] == rest[0]);
        assert(cmds.push(c).is_prefix_of(cs)) by {
            assert(cmds.push(c) =~= cs.subrange(0, cmds.len() as int + 1));
        }
    }
}

/// When no command is encoded at the parse position, the parsed prefix
/// is the only possible complete decomposition; when characters remain
/// past it, there is none at all.
proof fn lemma_parse_stop(d: Seq<char>, pos: int, cmds: Seq<CmdModel>)
    requires
        0 <= pos <= d.len(),
        forall|c: CmdModel| !(#[trigger] encodes_at(d, pos, c)),
        forall|cs: Seq<CmdModel>|
            #[trigger] is_cmd_log(d, cs) ==> cmds.is_prefix_of(cs) && is_cmd_log(
                d.skip(pos),
                cs.skip(cmds.len() as int),
            ),
    ensures
        forall|cs: Seq<CmdModel>| #[trigger] is_cmd_log(d, cs) ==> cs == cmds,
        pos < d.len() ==> forall|cs: Seq<CmdModel>| !(#[trigger] is_cmd_log(d, cs)),
{
    assert forall|cs: Seq<CmdModel>| #[trigger] is_cmd_log(d, cs) implies cs == cmds && pos
        == d.len() by {
        let rest = cs.skip(cmds.len() as int);
        assert(is_cmd_log(d.skip(pos), rest));
        if rest.len() > 0 {
            lemma_cmd_log_head(d, rest, pos);
            assert(encodes_at(d, pos, rest[0]));
            assert(false);
        }
        assert(d.skip(pos).len() == 0);
        assert(cs =~= cmds);
    }
}

/// Parse a file's characters into their decodable prefix of commands:
/// the commands, their start offsets, the end of the prefix, and whether
/// the input ends in an undecodable record rather than a partial one.
#[verifier::rlimit(100)]
fn parse_log(data: &Vec<char>) -> (r: (Vec<Cmd>, Vec<usize>, usize, bool, Ghost<Seq<CmdModel>>))
    ensures
        ({
            let (pcmds, starts, pos, corrupt, cmds) = r;
            &&& 0 <= pos <= data@.len()
            &&& pcmds@.len() == cmds@.len()
            &&& starts@.len() == cmds@.len()
            &&& forall|t: int| 0 <= t < cmds@.len() ==> (#[trigger] pcmds@[t])@ == cmds@[t]
            &&& forall|t: int|
                0 <= t < cmds@.len() ==> 0 <= (#[trigger] starts@[t]) && starts@[t] + spec_encode(
                    cmds@[t],
                ).len() <= pos && encodes_at(data@, starts@[t] as int, cmds@[t])
            &&& forall|t: int|
                0 <= t < cmds@.len() - 1 ==> (#[trigger] starts@[t]) + spec_encode(
                    cmds@[t],
                ).len() == starts@[t + 1]
            &&& (cmds@.len() > 0 ==> starts@[0] == 0 && starts@[cmds@.len() - 1] + spec_encode(
                cmds@.last(),
            ).len() == pos)
            &&& (cmds@.len() == 0 ==> pos == 0)
            &&& is_cmd_log(data@.take(pos as int), cmds@)
            &&& (corrupt ==> forall|cs: Seq<CmdModel>| !(#[trigger] is_cmd_log(data@, cs)))
            &&& (!corrupt ==> forall|cs: Seq<CmdModel>|
                #[trigger] is_cmd_log(data@, cs) ==> cs == cmds@)
        }),
{
    let ghost d = data@;
    // parse the file into its commands and their byte ranges
    let mut pcmds: Vec<Cmd> = Vec::new();
    let mut starts: Vec<usize> = Vec::new();
    let ghost mut cmds = Seq::<CmdModel>::empty();
    let mut pos: usize = 0;
    proof {
        assert(d.take(0) =~= Seq::<char>::empty());
        assert(is_cmd_log(Seq::<char>::empty(), Seq::<CmdModel>::empty()));
        assert forall|cs: Seq<CmdModel>| #[trigger] is_cmd_log(d, cs) implies Seq::<
            CmdModel,
        >::empty().is_prefix_of(cs) && is_cmd_log(d.skip(0), cs.skip(0)) by {
            assert(d.skip(0) =~= d);
            assert(cs.skip(0) =~= cs);
            assert(Seq::<CmdModel>::empty() =~= cs.subrange(0, 0));
        }
    }
    let mut corrupt = false;
    loop
        invariant
            0 <= pos <= d.len(),
            d == data@,
            pcmds@.len() == cmds.len(),
            starts@.len() == cmds.len(),
            forall|t: int| 0 <= t < cmds.len() ==> (#[trigger] pcmds@[t])@ == cmds[t],
            forall|t: int|
                0 <= t < cmds.len() ==> 0 <= (#[trigger] starts@[t]) && starts@[t]
                    + spec_encode(cmds[t]).len() <= pos && encodes_at(
                    d,
                    starts@[t] as int,
                    cmds[t],
                ),
            forall|t: int|
                0 <= t < cmds.len() - 1 ==> (#[trigger] starts@[t]) + spec_encode(
                    cmds[t],
                ).len() == starts@[t + 1],
            cmds.len() > 0 ==> starts@[0] == 0 && starts@[cmds.len() - 1] + spec_encode(
                cmds.last(),
            ).len() == pos,
            cmds.len() == 0 ==> pos == 0,
            is_cmd_log(d.take(pos as int), cmds),
            forall|cs: Seq<CmdModel>|
                #[trigger] is_cmd_log(d, cs) ==> cmds.is_prefix_of(cs) && is_cmd_log(
                    d.skip(pos as int),
                    cs.skip(cmds.len() as int),
                ),
        ensures
            0 <= pos <= d.len(),
            d == data@,
            pcmds@.len() == cmds.len(),
            starts@.len() == cmds.len(),
            forall|t: int| 0 <= t < cmds.len() ==> (#[trigger] pcmds@[t])@ == cmds[t],
            forall|t: int|
                0 <= t < cmds.len() ==> 0 <= (#[trigger] starts@[t]) && starts@[t]
                    + spec_encode(cmds[t]).len() <= pos && encodes_at(
                    d,
                    starts@[t] as int,
                    cmds[t],
                ),
            forall|t: int|
                0 <= t < cmds.len() - 1 ==> (#[trigger] starts@[t]) + spec_encode(
                    cmds[t],
                ).len() == starts@[t + 1],
            cmds.len() > 0 ==> starts@[0] == 0 && starts@[cmds.len() - 1] + spec_encode(
                cmds.last(),
            ).len() == pos,
            cmds.len() == 0 ==> pos == 0,
            is_cmd_log(d.take(pos as int), cmds),
            corrupt ==> forall|cs: Seq<CmdModel>| !(#[trigger] is_cmd_log(d, cs)),
            !corrupt ==> forall|cs: Seq<CmdModel>| #[trigger] is_cmd_log(d, cs) ==> cs == cmds,
        decreases d.len() - pos,
    {
        let step = decode_cmd(data, pos);
        match step {
            DecodeResult::Found { cmd, end } => {
                proof {
                    lemma_parse_step(d, pos as int, end as int, cmds, cmd@);
                    cmds = cmds.push(cmd@);
                }
                starts.push(pos);
                pcmds.push(cmd);
                pos = end;
            },
            DecodeResult::Partial => {
                proof {
                    lemma_parse_stop(d, pos as int, cmds);
                }
                corrupt = false;
                break;
            },
            DecodeResult::Corrupt => {
                proof {
                    assert(pos < d.len());
                    lemma_parse_stop(d, pos as int, cmds);
                }
                corrupt = true;
                break;
            },
        }
    }
    (pcmds, starts, pos, corrupt, Ghost(cmds))
}

impl KvStore {
    /// The invariant pieces shared by `open` while the store is still
    /// being assembled, before the active file exists.
    spec fn inv_base(self) -> bool {
        &&& fids_sorted(self.files@)
        &&& logs_ok(self.files@)
        &&& self.index.wf()
        &&& entries_ok(self.files@, self.index@)
        &&& apply_log(Map::empty(), cmds_of(self.files@)) == self.contents()
        &&& bytes_of(self.files@) <= u64::MAX
        &&& self.uncompacted as int == bytes_of(self.files@) - self.index.total_len()
        &&& self.index.total_len() >= 0
    }

    /// Replay one log file into the store being assembled: parse its
    /// commands, keep the decodable prefix, and fold each command into
    /// the index.
    #[verifier::rlimit(100)]
    fn load_file(&mut self, fid: u64, data: Vec<char>) -> (r: Result<(), KvsError>)
        requires
            old(self).inv_base(),
            forall|j: int| 0 <= j < old(self).files@.len() ==> (#[trigger] old(self).files@[j]).fid < fid,
            old(self).disk_bytes() + data@.len() <= u64::MAX,
        ensures
            r is Ok ==> final(self).inv_base() && final(self).files@.len() == old(self).files@.len()
                + 1 && final(self).files@.drop_last() == old(self).files@
                && final(self).files@.last().fid == fid && bytes_of(final(self).files@)
                <= bytes_of(old(self).files@) + data@.len(),
            forall|cs: Seq<CmdModel>|
                #[trigger] is_cmd_log(data@, cs) ==> r is Ok && final(self).files@.last().cmds@
                    == cs,
    {
        let ghost d = data@;
        let mut data = data;
        let (pcmds, starts, pos, corrupt, gcmds) = parse_log(&data);
        let ghost cmds = gcmds@;
        if corrupt {
            return Result::Err(KvsError::Serde("corrupt log record".to_owned()));
        }
        // drop any partial tail so the kept characters decode exactly
        data.truncate(pos);
        proof {
            assert(data@ =~= d.take(pos as int));
        }
        let ghost files0 = self.files@;
        let ghost idx0 = self.index;
        let dlen = data.len();
        self.files.push(StoreFile { fid, data, cmds: Ghost(cmds) });
        proof {
            let files1 = self.files@;
            assert(files1.drop_last() =~= files0);
            assert(cmds_of(files1) == cmds_of(files0) + cmds);
            assert(bytes_of(files1) == bytes_of(files0) + dlen);
            assert(fids_sorted(files1)) by {
                assert forall|i: int, j: int| 0 <= i < j < files1.len() implies files1[i].fid
                    < files1[j].fid by {
                    if j < files1.len() - 1 {
                        assert(files1[i] == files0[i] && files1[j] == files0[j]);
                    } else {
                        assert(files1[i] == files0[i]);
                    }
                }
            }
            assert(entries_ok(files1, self.index@)) by {
                assert forall|k: Seq<char>| self.index@.contains_key(k) implies entry_ok(
                    files1,
                    k,
                    #[trigger] self.index@[k],
                ) by {
                    let em = self.index@[k];
                    assert(entry_ok(files0, k, em));
                    let w = choose|w: int|
                        0 <= w < files0.len() && (#[trigger] files0[w]).fid == em.pos.fid
                            && em.pos.pos + em.pos.len <= files0[w].data@.len()
                            && files0[w].data@.subrange(
                            em.pos.pos as int,
                            em.pos.pos + em.pos.len,
                        ) == spec_encode(CmdModel::Put { key: k, value: em.value });
                    assert(files1[w] == files0[w]);
                }
            }
        }
        // fold the parsed commands into the index
        self.apply_parsed(fid, &pcmds, &starts, pos, Ghost(cmds), Ghost(d), Ghost(files0));
        Result::Ok(())
    }

    /// Fold the parsed commands of the just-pushed file into the index,
    /// charging superseded and `Rm` records to the stale count.
    #[verifier::rlimit(100)]
    fn apply_parsed(
        &mut self,
        fid: u64,
        pcmds: &Vec<Cmd>,
        starts: &Vec<usize>,
        pos: usize,
        Ghost(cmds): Ghost<Seq<CmdModel>>,
        Ghost(d): Ghost<Seq<char>>,
        Ghost(files0): Ghost<Seq<StoreFile>>,
    )
        requires
            0 <= pos <= d.len(),
            old(self).files@.len() == files0.len() + 1,
            old(self).files@.drop_last() == files0,
            old(self).files@.last().fid == fid,
            old(self).files@.last().data@ == d.take(pos as int),
            old(self).files@.last().cmds@ == cmds,
            cmds_of(old(self).files@) == cmds_of(files0) + cmds,
            bytes_of(old(self).files@) == bytes_of(files0) + pos,
            bytes_of(old(self).files@) <= u64::MAX,
            fids_sorted(old(self).files@),
            logs_ok(old(self).files@),
            pcmds@.len() == cmds.len(),
            starts@.len() == cmds.len(),
            forall|tt: int| 0 <= tt < cmds.len() ==> (#[trigger] pcmds@[tt])@ == cmds[tt],
            forall|tt: int|
                0 <= tt < cmds.len() ==> 0 <= (#[trigger] starts@[tt]) && starts@[tt]
                    + spec_encode(cmds[tt]).len() <= pos && encodes_at(
                    d,
                    starts@[tt] as int,
                    cmds[tt],
                ),
            forall|tt: int|
                0 <= tt < cmds.len() - 1 ==> (#[trigger] starts@[tt]) + spec_encode(
                    cmds[tt],
                ).len() == starts@[tt + 1],
            cmds.len() > 0 ==> starts@[0] == 0 && starts@[cmds.len() - 1] + spec_encode(
                cmds.last(),
            ).len() == pos,
            cmds.len() == 0 ==> pos == 0,
            old(self).index.wf(),
            entries_ok(old(self).files@, old(self).index@),
            contents_of(old(self).index@) == apply_log(Map::empty(), cmds_of(files0)),
            old(self).index.total_len() >= 0,
            old(self).uncompacted as int == bytes_of(files0) - old(self).index.total_len(),
        ensures
            final(self).files@ == old(self).files@,
            final(self).index.wf(),
            entries_ok(final(self).files@, final(self).index@),
            contents_of(final(self).index@) == apply_log(
                Map::empty(),
                cmds_of(old(self).files@),
            ),
            final(self).index.total_len() >= 0,
            final(self).uncompacted as int == bytes_of(final(self).files@)
                - final(self).index.total_len(),
    {
        let ghost files1 = self.files@;
        let ghost base = bytes_of(files0);
        proof {
            assert(cmds_of(files0) + cmds.take(0) =~= cmds_of(files0));
            assert(base >= 0) by {
                assert(old(self).uncompacted as int == base - old(self).index.total_len());
            }
            assert(parse_facts(d, pos as int, cmds, pcmds@, starts@)) by {
                reveal(parse_facts);
            }
            assert(fold_inv(*self, files1, cmds_of(files0) + cmds.take(0), base, 0)) by {
                reveal(fold_inv);
            }
            assert(consumed_at(starts@, pos as int, 0) == 0) by {
                reveal(parse_facts);
            }
        }
        let nc = pcmds.len();
        let mut t: usize = 0;
        while t < nc
            invariant
                0 <= t <= nc,
                nc == cmds.len(),
                pcmds@.len() == nc,
                starts@.len() == nc,
                0 <= pos <= d.len(),
                self.files@ == files1,
                files1.len() == files0.len() + 1,
                files1.last().fid == fid,
                files1.last().data@ == d.take(pos as int),
                base == bytes_of(files0),
                0 <= base,
                bytes_of(files1) == base + pos,
                bytes_of(files1) <= u64::MAX,
                parse_facts(d, pos as int, cmds, pcmds@, starts@),
                fold_inv(
                    *self,
                    files1,
                    cmds_of(files0) + cmds.take(t as int),
                    base,
                    consumed_at(starts@, pos as int, t as int),
                ),
            decreases nc - t,
        {
            let ghost applied0 = cmds_of(files0) + cmds.take(t as int);
            proof {
                lemma_fold_step(
                    d,
                    pos as int,
                    cmds,
                    pcmds@,
                    starts@,
                    t as int,
                    cmds_of(files0),
                );
            }
            let start_t = starts[t];
            let end_t = if t + 1 < nc {
                starts[t + 1]
            } else {
                pos
            };
            self.apply_one(fid, start_t, end_t, &pcmds[t], Ghost(applied0), Ghost(base));
            t += 1;
        }
        proof {
            reveal(parse_facts);
            assert(cmds.take(nc as int) =~= cmds);
            assert(consumed_at(starts@, pos as int, nc as int) == pos);
            reveal(fold_inv);
        }
    }

    /// Fold one parsed command, whose encoding occupies
    /// `[start_t, end_t)` of the active file, into the index.
    fn apply_one(
        &mut self,
        fid: u64,
        start_t: usize,
        end_t: usize,
        c: &Cmd,
        Ghost(applied0): Ghost<Seq<CmdModel>>,
        Ghost(base): Ghost<int>,
    )
        requires
            old(self).files@.len() >= 1,
            old(self).files@.last().fid == fid,
            encodes_at(old(self).files@.last().data@, start_t as int, c@),
            end_t == start_t + spec_encode(c@).len(),
            0 <= base,
            base + end_t <= bytes_of(old(self).files@) <= u64::MAX,
            fold_inv(*old(self), old(self).files@, applied0, base, start_t as int),
        ensures
            final(self).files@ == old(self).files@,
            fold_inv(*final(self), old(self).files@, applied0.push(c@), base, end_t as int),
    {
        proof {
            reveal(fold_inv);
        }
        let ghost files1 = self.files@;
        let ghost idxp = self.index;
        proof {
            lemma_apply_log_snoc(Map::empty(), applied0, c@);
            self.index.lemma_total_nonneg();
        }
        let len_t = (end_t - start_t) as u64;
        let p_new = CmdPos { fid, pos: start_t as u64, len: len_t };
        match c {
            Cmd::Put { key, value } => {
                let prev = self.index.insert(key.clone(), p_new, Ghost(value@));
                proof {
                    lemma_contents_insert(idxp@, key@, (EntryModel {
                        pos: p_new,
                        value: value@,
                    }));
                    self.index.lemma_total_nonneg();
                    assert(entries_ok(files1, self.index@)) by {
                        assert forall|k: Seq<char>| self.index@.contains_key(k) implies entry_ok(
                            files1,
                            k,
                            #[trigger] self.index@[k],
                        ) by {
                            if k == key@ {
                                let w = files1.len() - 1;
                                assert(files1[w] == files1.last());
                            } else {
                                assert(idxp@.contains_key(k));
                                assert(self.index@[k] == idxp@[k]);
                            }
                        }
                    }
                }
                match prev {
                    Option::Some(p) => {
                        self.uncompacted = self.uncompacted + p.len;
                    },
                    Option::None => {},
                }
                proof {
                    reveal(fold_inv);
                }
            },
            Cmd::Rm { key } => {
                let prev = self.index.remove(key);
                proof {
                    lemma_contents_remove(idxp@, key@);
                    self.index.lemma_total_nonneg();
                    assert(entries_ok(files1, self.index@)) by {
                        assert forall|k: Seq<char>| self.index@.contains_key(k) implies entry_ok(
                            files1,
                            k,
                            #[trigger] self.index@[k],
                        ) by {
                            assert(idxp@.contains_key(k));
                            assert(self.index@[k] == idxp@[k]);
                        }
                    }
                }
                match prev {
                    Option::Some(p) => {
                        self.uncompacted = self.uncompacted + p.len;
                    },
                    Option::None => {},
                }
                self.uncompacted = self.uncompacted + len_t;
                proof {
                    reveal(fold_inv);
                }
            },
        }
    }
}

/// The value a key should read as after a sequence of commands: that of
/// its most recent `Set` not followed by a `Rm` of the key, if any.
pub open spec fn last_value(cs: Seq<CmdModel>, k: Seq<char>) -> Option<Seq<char>>
    decreases cs.len(),
{
    if cs.len() == 0 {
        Option::None
    } else {
        match cs.last() {
            CmdModel::Put { key, value } => if key == k {
                Option::Some(value)
            } else {
                last_value(cs.drop_last(), k)
            },
            CmdModel::Rm { key } => if key == k {
                Option::None
            } else {
                last_value(cs.drop_last(), k)
            },
        }
    }
}

/// After any sequence of commands, a key is bound exactly when some `Set`
/// of it is not followed by a `Rm` of it, and then to the value of the
/// most recent such `Set`. Together with the store invariant that its
/// contents equal the replay of its log, this pins down what `get`
/// returns after any sequence of operations.
pub proof fn lemma_get_last_value(cs: Seq<CmdModel>, k: Seq<char>)
    ensures
        apply_log(Map::empty(), cs).contains_key(k) <==> last_value(cs, k) is Some,
        apply_log(Map::empty(), cs).contains_key(k) ==> apply_log(Map::empty(), cs)[k]
            == last_value(cs, k)->0,
    decreases cs.len(),
{
    if cs.len() > 0 {
        lemma_get_last_value(cs.drop_last(), k);
        assert(cs.drop_last().push(cs.last()) =~= cs);
        lemma_apply_log_snoc(Map::empty(), cs.drop_last(), cs.last());
    }
}

proof fn lemma_flatten_is_cmds(files: Seq<StoreFile>)
    ensures
        flatten_logs(Seq::new(files.len(), |i: int| files[i].cmds@)) == cmds_of(files),
    decreases files.len(),
{
    let logs = Seq::new(files.len(), |i: int| files[i].cmds@);
    if files.len() > 0 {
        lemma_flatten_is_cmds(files.drop_last());
        assert(logs.drop_last() =~= Seq::new(
            files.drop_last().len(),
            |i: int| files.drop_last()[i].cmds@,
        ));
        assert(logs.last() == files.last().cmds@);
    } else {
        assert(logs =~= Seq::<Seq<CmdModel>>::empty());
    }
}

proof fn lemma_sum_is_bytes(files: Seq<StoreFile>)
    ensures
        sum_bytes(Seq::new(files.len(), |i: int| (files[i].fid, files[i].data@))) == bytes_of(
            files,
        ),
    decreases files.len(),
{
    let fm = Seq::new(files.len(), |i: int| (files[i].fid, files[i].data@));
    if files.len() > 0 {
        lemma_sum_is_bytes(files.drop_last());
        assert(fm.drop_last() =~= Seq::new(
            files.drop_last().len(),
            |i: int| (files.drop_last()[i].fid, files.drop_last()[i].data@),
        ));
        assert(fm.last() == (files.last().fid, files.last().data@));
    } else {
        assert(fm =~= Seq::<(u64, Seq<char>)>::empty());
    }
}

impl KvStore {
    /// Closing a well-formed store and reopening over a snapshot of its
    /// files restores the same contents: the snapshot is a valid input
    /// for `open`, and replaying it yields exactly the store's contents.
    pub proof fn lemma_snapshot_valid(self)
        requires
            self.wf(),
            self.active_fid() < u64::MAX,
        ensures
            exists|logs: Seq<Seq<CmdModel>>|
                #[trigger] valid_input(self.files_model(), logs) && apply_log(
                    Map::empty(),
                    flatten_logs(logs),
                ) == self.contents(),
    {
        let files = self.files@;
        let logs = Seq::new(files.len(), |i: int| files[i].cmds@);
        lemma_flatten_is_cmds(files);
        lemma_sum_is_bytes(files);
        assert(self.files_model() =~= Seq::new(files.len(), |i: int| (files[i].fid, files[i].data@)));
        assert(self.files_model().last().0 == self.active_fid());
        assert(valid_input(self.files_model(), logs));
    }

    /// Open a store over the given log files, replaying them oldest
    /// first.
    ///
    /// The files must arrive in strictly ascending generation order, as a
    /// directory scan produces them. Each file is replayed up to its last
    /// complete command; a partial record at the end of a file is
    /// dropped, while an undecodable record is an error. A fresh active
    /// file is opened past the highest generation.
    pub fn open(input: Vec<LogFile>) -> (r: Result<KvStore, KvsError>)
        ensures
            (r matches Result::Ok(s) ==> s.wf() && 0 <= s.disk_bytes() <= sum_bytes(
                input.deep_view(),
            ) && (input.deep_view().len() == 0 ==> s.active_fid() == 1) && (input.deep_view().len()
                > 0 ==> s.active_fid() as int == input.deep_view().last().0 + 1)),
            input.deep_view().len() == 0 ==> r is Ok,
            forall|logs: Seq<Seq<CmdModel>>|
                #[trigger] valid_input(input.deep_view(), logs) ==> (r matches Result::Ok(s)
                    && s.contents() == apply_log(Map::empty(), flatten_logs(logs)) && s.log()
                    == flatten_logs(logs)),
    {
        let ghost inview = input.deep_view();
        let n = input.len();
        let mut i: usize = 1;
        while i < n
            invariant
                n == inview.len(),
                inview == input.deep_view(),
                1 <= i || n == 0,
                i <= n || n == 0,
                forall|a: int, b: int| 0 <= a < b < i ==> inview[a].0 < inview[b].0,
            decreases n - i,
        {
            if input[i - 1].fid >= input[i].fid {
                proof {
                    assert(inview[i - 1].0 >= inview[i as int].0);
                }
                return Result::Err(KvsError::StringError("log files out of order".to_owned()));
            }
            proof {
                assert forall|a: int, b: int| 0 <= a < b < i + 1 implies inview[a].0
                    < inview[b].0 by {
                    if b == i as int && a < i - 1 {
                        assert(inview[a].0 < inview[i - 1].0);
                    }
                }
            }
            i += 1;
        }
        let mut st = KvStore { files: Vec::new(), index: Index::new(), uncompacted: 0 };
        proof {
            assert(contents_of(st.index@) =~= Map::<Seq<char>, Seq<char>>::empty());
            assert(cmds_of(st.files@) =~= Seq::<CmdModel>::empty());
            assert(st.inv_base());
            assert(flatten_logs(Seq::<Seq<CmdModel>>::empty()) =~= Seq::<CmdModel>::empty());
        }
        let mut total: u64 = 0;
        let mut i: usize = 0;
        while i < n
            invariant
                0 <= i <= n,
                n == inview.len(),
                inview == input.deep_view(),
                forall|a: int, b: int| 0 <= a < b < n ==> inview[a].0 < inview[b].0,
                st.inv_base(),
                st.files@.len() == i,
                forall|j: int| 0 <= j < i ==> (#[trigger] st.files@[j]).fid == inview[j].0,
                total as int == sum_bytes(inview.take(i as int)),
                bytes_of(st.files@) <= total,
                forall|logs: Seq<Seq<CmdModel>>|
                    #[trigger] valid_input(inview, logs) ==> cmds_of(st.files@) == flatten_logs(
                        logs.take(i as int),
                    ),
            decreases n - i,
        {
            let dl = input[i].data.len();
            proof {
                lemma_sum_bytes_take(inview, i + 1);
                assert(inview[i as int].1.len() == dl);
            }
            if total > u64::MAX - (dl as u64) {
                proof {
                    assert forall|logs: Seq<Seq<CmdModel>>| !(#[trigger] valid_input(
                        inview,
                        logs,
                    )) by {
                        if valid_input(inview, logs) {
                            lemma_sum_bytes_prefix(inview, i + 1);
                        }
                    }
                }
                return Result::Err(KvsError::StringError("log exceeds addressable size".to_owned()));
            }
            let fidi = input[i].fid;
            let data = clone_chars(&input[i].data);
            let ghost st0 = st;
            let res = st.load_file(fidi, data);
            match res {
                Result::Ok(u) => {},
                Result::Err(e) => {
                    proof {
                        assert forall|logs: Seq<Seq<CmdModel>>| !(#[trigger] valid_input(
                            inview,
                            logs,
                        )) by {
                            if valid_input(inview, logs) {
                                assert(is_cmd_log(inview[i as int].1, logs[i as int]));
                            }
                        }
                    }
                    return Result::Err(e);
                },
            }
            proof {
                assert(inview[i as int].0 == fidi);
                assert forall|j: int| 0 <= j < i + 1 implies (#[trigger] st.files@[j]).fid
                    == inview[j].0 by {
                    if j < i as int {
                        assert(st.files@[j] == st0.files@[j]);
                    } else {
                        assert(st.files@[j] == st.files@.last());
                    }
                }
                assert forall|logs: Seq<Seq<CmdModel>>| #[trigger] valid_input(inview, logs) implies cmds_of(
                    st.files@,
                ) == flatten_logs(logs.take(i + 1)) by {
                    assert(is_cmd_log(inview[i as int].1, logs[i as int]));
                    assert(st.files@.last().cmds@ == logs[i as int]);
                    assert(cmds_of(st0.files@) == flatten_logs(logs.take(i as int)));
                    lemma_flatten_take(logs, i + 1);
                    assert(cmds_of(st.files@) == cmds_of(st.files@.drop_last())
                        + st.files@.last().cmds@);
                    assert(st.files@.drop_last() == st0.files@);
                }
            }
            total = total + dl as u64;
            i += 1;
        }
        proof {
            assert(inview.take(n as int) =~= inview);
        }
        let cur_fid = if n == 0 {
            1
        } else {
            let lastfid = input[n - 1].fid;
            if lastfid == u64::MAX {
                proof {
                    assert forall|logs: Seq<Seq<CmdModel>>| !(#[trigger] valid_input(
                        inview,
                        logs,
                    )) by {
                        if valid_input(inview, logs) {
                            assert(inview.last().0 < u64::MAX);
                        }
                    }
                }
                return Result::Err(KvsError::StringError("generation ids exhausted".to_owned()));
            }
            lastfid + 1
        };
        let ghost stp = st;
        st.files.push(StoreFile { fid: cur_fid, data: Vec::new(), cmds: Ghost(Seq::empty()) });
        proof {
            let files1 = st.files@;
            assert(files1.drop_last() =~= stp.files@);
            assert(cmds_of(files1) =~= cmds_of(stp.files@)) by {
                assert(cmds_of(files1) == cmds_of(files1.drop_last()) + files1.last().cmds@);
                assert(cmds_of(stp.files@) + Seq::<CmdModel>::empty() =~= cmds_of(stp.files@));
            }
            assert(bytes_of(files1) == bytes_of(stp.files@));
            assert(is_cmd_log(Seq::<char>::empty(), Seq::<CmdModel>::empty()));
            assert(logs_ok(files1)) by {
                assert forall|j: int| 0 <= j < files1.len() implies is_cmd_log(
                    (#[trigger] files1[j]).data@,
                    files1[j].cmds@,
                ) by {
                    if j < files1.len() - 1 {
                        assert(files1[j] == stp.files@[j]);
                    }
                }
            }
            assert(fids_sorted(files1)) by {
                assert forall|a: int, b: int| 0 <= a < b < files1.len() implies files1[a].fid
                    < files1[b].fid by {
                    if b < files1.len() - 1 {
                        assert(files1[a] == stp.files@[a] && files1[b] == stp.files@[b]);
                    } else {
                        assert(files1[a] == stp.files@[a]);
                        assert(files1[a].fid == inview[a].0);
                    }
                }
            }
            assert(entries_ok(files1, st.index@)) by {
                assert forall|k: Seq<char>| st.index@.contains_key(k) implies entry_ok(
                    files1,
                    k,
                    #[trigger] st.index@[k],
                ) by {
                    let em = st.index@[k];
                    assert(entry_ok(stp.files@, k, em));
                    let w = choose|w: int|
                        0 <= w < stp.files@.len() && (#[trigger] stp.files@[w]).fid == em.pos.fid
                            && em.pos.pos + em.pos.len <= stp.files@[w].data@.len()
                            && stp.files@[w].data@.subrange(
                            em.pos.pos as int,
                            em.pos.pos + em.pos.len,
                        ) == spec_encode(CmdModel::Put { key: k, value: em.value });
                    assert(files1[w] == stp.files@[w]);
                }
            }
            assert(st.wf());
            assert forall|logs: Seq<Seq<CmdModel>>| #[trigger] valid_input(inview, logs) implies (
            st.contents() == apply_log(Map::empty(), flatten_logs(logs)) && st.log()
                == flatten_logs(logs)) by {
                assert(logs.take(n as int) =~= logs);
                assert(cmds_of(stp.files@) == flatten_logs(logs));
                assert(st.log() == cmds_of(files1));
            }
        }
        Result::Ok(st)
    }
}

/// A copy of a character buffer.
fn clone_chars(v: &Vec<char>) -> (r: Vec<char>)
    ensures
        r@ == v@,
{
    let n = v.len();
    let mut r: Vec<char> = Vec::new();
    let mut i: usize = 0;
    while i < n
        invariant
            0 <= i <= n,
            n == v@.len(),
            r@ == v@.take(i as int),
        decreases n - i,
    {
        r.push(v[i]);
        proof {
            assert(v@.take(i + 1) =~= v@.take(i as int).push(v@[i as int]));
        }
        i += 1;
    }
    proof {
        assert(v@.take(n as int) =~= v@);
    }
    r
}

proof fn lemma_bytes_of_take(files: Seq<StoreFile>, t: int)
    requires
        0 <= t <= files.len(),
    ensures
        bytes_of(files.take(t)) <= bytes_of(files),
        t > 0 ==> bytes_of(files.take(t)) == bytes_of(files.take(t - 1)) + files[t - 1].data@.len(),
    decreases files.len() - t,
{
    if t > 0 {
        assert(files.take(t).drop_last() =~= files.take(t - 1));
        assert(files.take(t).last() == files[t - 1]);
    }
    if t < files.len() {
        lemma_bytes_of_take(files, t + 1);
        assert(files.take(t + 1).drop_last() =~= files.take(t));
    } else {
        assert(files.take(t) =~= files);
    }
}

} // verus!


