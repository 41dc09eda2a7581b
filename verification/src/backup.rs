//! Backup store used by the `--delete-method backup` path and the `restore`
//! command: which file is kept where, and what may be restored or cleaned.

use vstd::prelude::*;
use vstd::utf8::encode_utf8;
use crate::deletion::FileState;
use crate::outside::{sha256_hex, utc_text, utc_text_of, Sha256Stream};
use crate::paths::{
    byte_len, byte_len_of, data_dir, file_name, file_name_of, join, join_of, path_key, same_path,
};
use crate::scanner::{add_capped, capped, Timestamp};
use crate::text::{
    chars_of, decimal, decimal_text, digit_char, last_of, lemma_last_of, rfind_char, slice_of, text_of,
};
use crate::text_set::TextSet;

verus! {

#[derive(Debug)]
pub struct BackupRecord {
    pub original_path: String,
    pub backup_path: String,
    pub size: u64,
    pub timestamp: Timestamp,
}

pub struct RecordView {
    pub original_path: Seq<char>,
    pub backup_path: Seq<char>,
    pub size: u64,
    pub timestamp: Timestamp,
}

impl View for BackupRecord {
    type V = RecordView;

    open spec fn view(&self) -> RecordView {
        RecordView {
            original_path: self.original_path@,
            backup_path: self.backup_path@,
            size: self.size,
            timestamp: self.timestamp,
        }
    }
}

impl Clone for BackupRecord {
    fn clone(&self) -> (r: BackupRecord)
        ensures
            r == *self,
    {
        BackupRecord {
            original_path: self.original_path.clone(),
            backup_path: self.backup_path.clone(),
            size: self.size,
            timestamp: self.timestamp,
        }
    }
}

pub open spec fn record_views(v: Seq<BackupRecord>) -> Seq<RecordView> {
    Seq::new(v.len(), |i: int| v[i]@)
}

pub struct BackupManager {
    pub backup_dir: String,
    pub records: Vec<BackupRecord>,
}

/// Default backup directory: `<local data dir>/dupscanner/backups`.
pub fn default_backup_dir(local_data_dir: &str) -> (r: String)
    ensures
        r@ == join_of(join_of(local_data_dir@, "dupscanner"@), "backups"@),
{
    join(data_dir(local_data_dir).as_str(), "backups")
}

// ----- names ---------------------------------------------------------------

/// Where the extension of a name begins; at its end where it has none, or one
/// of more than 16 bytes.
pub open spec fn extension_at(name: Seq<char>) -> int {
    let dot = last_of(name, '.');
    if dot > 0 && byte_len_of(name.skip(dot)) <= 16 {
        dot
    } else {
        name.len() as int
    }
}

/// The name that is used where it is too long: as much of its stem as fits,
/// an ellipsis, and a short extension. Where there is no room for the
/// extension it is left out, and then the ellipsis.
pub open spec fn truncated(name: Seq<char>, max: int) -> Seq<char> {
    let cut = extension_at(name);
    let ext = name.len() - cut;
    if name.len() <= max {
        name
    } else if ext + 2 <= max {
        name.take(max - ext - 1).push('…') + name.skip(cut)
    } else if max >= 2 {
        name.take(max - 1).push('…')
    } else {
        name.take(max)
    }
}

/// Truncate to at most `max` characters on a char boundary, keeping the
/// extension when there is one and room for it.
pub fn truncate_chars(name: &str, max: usize) -> (r: String)
    ensures
        r@ == truncated(name@, max as int),
        r@.len() <= max,
        name@.len() <= max ==> r@ == name@,
{
    proof {
        truncation_fits(name@, max as int);
    }
    let v = chars_of(name);
    let n = v.len();
    if n <= max {
        return name.to_owned();
    }
    let cut = match rfind_char(&v, '.') {
        Some(pos) => {
            assert(v@.subrange(pos as int, n as int) =~= v@.skip(pos as int));
            let ext = text_of(&slice_of(&v, pos, n));
            if pos > 0 && byte_len(ext.as_str()) <= 16 {
                pos
            } else {
                n
            }
        },
        None => n,
    };
    let ext_len = n - cut;
    if max < 2 {
        assert(v@.subrange(0, max as int) =~= v@.take(max as int));
        return text_of(&slice_of(&v, 0, max));
    }
    let with_extension = ext_len <= max - 2;
    let keep = if with_extension {
        max - ext_len - 1
    } else {
        max - 1
    };
    assert(v@.subrange(0, keep as int) =~= v@.take(keep as int));
    assert(v@.subrange(cut as int, n as int) =~= v@.skip(cut as int));
    let mut out = text_of(&slice_of(&v, 0, keep));
    out.push('…');
    if with_extension {
        out.append(text_of(&slice_of(&v, cut, n)).as_str());
    }
    out
}

/// A shortened name is never longer than it may be, and begins as the name
/// does. It keeps the extension where there is room for it, a character and
/// the ellipsis; room for 18 is always enough.
pub proof fn truncation_fits(name: Seq<char>, max: int)
    requires
        max >= 0,
    ensures
        truncated(name, max).len() <= max,
        name.len() <= max ==> truncated(name, max) == name,
        name.len() > max ==> truncated(name, max).len() == max,
        max >= 1 && name.len() >= 1 ==> truncated(name, max)[0] == name[0],
        name.len() - extension_at(name) + 2 <= max || max >= 18 ==> name.skip(extension_at(name)).is_suffix_of(
            truncated(name, max),
        ),
{
    let dot = last_of(name, '.');
    lemma_last_of(name, '.');
    let cut = extension_at(name);
    if dot > 0 {
        lemma_utf8_len(name.skip(dot));
    }
    let t = truncated(name, max);
    if name.len() - cut + 2 <= max || max >= 18 {
        assert(t.subrange(t.len() - (name.len() - cut), t.len() as int) =~= name.skip(cut));
    }
}

proof fn lemma_utf8_len(s: Seq<char>)
    ensures
        encode_utf8(s).len() >= s.len(),
    decreases s.len(),
{
    reveal_with_fuel(encode_utf8, 1);
    if s.len() > 0 {
        lemma_utf8_len(s.drop_first());
    }
}

/// The bytes of a number, the lowest first.
pub open spec fn little_endian(n: int, bytes: nat) -> Seq<u8>
    decreases bytes,
{
    if bytes == 0 {
        seq![]
    } else {
        seq![(n % 256) as u8] + little_endian(n / 256, (bytes - 1) as nat)
    }
}

/// A point in time as nanoseconds since the epoch; 0 where that is more than
/// 64 bits can hold.
pub open spec fn nanos_of(t: Timestamp) -> int {
    let n = t.secs * 1_000_000_000 + t.nanos;
    if i64::MIN <= n <= i64::MAX {
        n
    } else {
        0
    }
}

/// The bytes that a time adds to the digest of a backup's name.
pub open spec fn time_bytes(t: Timestamp) -> Seq<u8> {
    let n = nanos_of(t);
    little_endian(if n < 0 {
        n + 0x1_0000_0000_0000_0000
    } else {
        n
    }, 8)
}

fn time_to_bytes(t: &Timestamp) -> (r: Vec<u8>)
    ensures
        r@ == time_bytes(*t),
{
    let wide: i128 = t.secs as i128 * 1_000_000_000 + t.nanos as i128;
    let fitting: i128 = if wide < i64::MIN as i128 || wide > i64::MAX as i128 {
        0
    } else {
        wide
    };
    let start: u128 = if fitting < 0 {
        (fitting + 0x1_0000_0000_0000_0000) as u128
    } else {
        fitting as u128
    };
    let mut rest = start;
    let mut out: Vec<u8> = Vec::new();
    for i in 0..8usize
        invariant
            out@.len() == i,
            out@ + little_endian(rest as int, (8 - i) as nat) == little_endian(start as int, 8),
    {
        let ghost before = out@;
        let ghost old_rest = rest as int;
        out.push((rest % 256) as u8);
        rest = rest / 256;
        assert(out@ + little_endian(rest as int, (7 - i) as nat) =~= before + little_endian(
            old_rest,
            (8 - i) as nat,
        ));
    }
    assert(out@ =~= little_endian(start as int, 8));
    out
}

/// The short digest that makes a backup's name its own.
pub open spec fn short_digest(path: Seq<char>, t: Timestamp) -> Seq<char> {
    sha256_hex(encode_utf8(path) + time_bytes(t)).take(8)
}

/// The name a file is called in the store.
pub open spec fn stored_name(path: Seq<char>) -> Seq<char> {
    truncated(
        match file_name_of(path) {
            Some(n) => n,
            None => "file"@,
        },
        120,
    )
}

/// The `n`th name that is tried for a backup, where `stamp` is its time as
/// text.
pub open spec fn candidate(dir: Seq<char>, path: Seq<char>, t: Timestamp, stamp: Seq<char>, n: nat) -> Seq<
    char,
> {
    let head = stamp + "_"@ + short_digest(path, t) + "_"@;
    join_of(
        dir,
        if n == 0 {
            head + stored_name(path) + ".bak"@
        } else {
            head + decimal(n) + "_"@ + stored_name(path) + ".bak"@
        },
    )
}

pub open spec fn stamp_format() -> Seq<char> {
    "%Y%m%d_%H%M%S"@
}

/// Different numbers have different digits.
pub proof fn decimals_differ(a: nat, b: nat)
    requires
        decimal(a) == decimal(b),
    ensures
        a == b,
    decreases a,
{
    let x = decimal(a);
    let y = decimal(b);
    lemma_decimal_len(a);
    lemma_decimal_len(b);
    assert(x.last() == y.last());
    if a >= 10 && b >= 10 {
        assert(decimal(a / 10) =~= x.drop_last());
        assert(decimal(b / 10) =~= y.drop_last());
        decimals_differ(a / 10, b / 10);
        lemma_digit(a % 10, b % 10);
    } else if a < 10 && b < 10 {
        lemma_digit(a, b);
    }
}

proof fn lemma_digit(a: nat, b: nat)
    requires
        a < 10,
        b < 10,
        digit_char(a) == digit_char(b),
    ensures
        a == b,
{
}

proof fn lemma_decimal_len(a: nat)
    ensures
        decimal(a).len() > 0,
        a >= 10 ==> decimal(a).len() > 1,
    decreases a,
{
    if a >= 10 {
        lemma_decimal_len(a / 10);
    }
}

/// No two of the names that are tried for a backup are the same.
pub proof fn candidates_differ(dir: Seq<char>, path: Seq<char>, t: Timestamp, stamp: Seq<char>, m: nat, n: nat)
    requires
        candidate(dir, path, t, stamp, m) == candidate(dir, path, t, stamp, n),
        stamp.len() > 0,
        stamp[0] != '/',
    ensures
        m == n,
{
    reveal_strlit("_");
    reveal_strlit(".bak");
    let head = stamp + "_"@ + short_digest(path, t) + "_"@;
    let tail = "_"@ + stored_name(path) + ".bak"@;
    let x = if m == 0 {
        head + stored_name(path) + ".bak"@
    } else {
        head + decimal(m) + "_"@ + stored_name(path) + ".bak"@
    };
    let y = if n == 0 {
        head + stored_name(path) + ".bak"@
    } else {
        head + decimal(n) + "_"@ + stored_name(path) + ".bak"@
    };
    assert(x[0] == stamp[0] && y[0] == stamp[0]);
    let base = if dir.len() == 0 || dir.last() == '/' {
        dir
    } else {
        dir.push('/')
    };
    assert(join_of(dir, x) == base + x);
    assert(join_of(dir, y) == base + y);
    assert(x =~= (base + x).skip(base.len() as int));
    assert(y =~= (base + y).skip(base.len() as int));
    assert(x == y);
    lemma_decimal_len(m);
    lemma_decimal_len(n);
    if m > 0 && n > 0 {
        assert(x =~= head + decimal(m) + tail);
        assert(y =~= head + decimal(n) + tail);
        assert(decimal(m) =~= x.subrange(head.len() as int, x.len() - tail.len()));
        assert(decimal(n) =~= y.subrange(head.len() as int, y.len() - tail.len()));
        decimals_differ(m, n);
    }
}

/// The first name that is not taken.
pub open spec fn first_free(
    dir: Seq<char>,
    path: Seq<char>,
    t: Timestamp,
    stamp: Seq<char>,
    taken: Set<Seq<char>>,
    n: nat,
) -> bool {
    &&& !taken.contains(candidate(dir, path, t, stamp, n))
    &&& forall|k: nat| k < n ==> taken.contains(#[trigger] candidate(dir, path, t, stamp, k))
}

/// More names than are taken cannot all be taken.
proof fn lemma_some_free(
    dir: Seq<char>,
    path: Seq<char>,
    t: Timestamp,
    stamp: Seq<char>,
    list: Seq<Seq<char>>,
    n: nat,
)
    requires
        stamp.len() > 0,
        stamp[0] != '/',
        forall|k: nat| k < n ==> list.contains(#[trigger] candidate(dir, path, t, stamp, k)),
    ensures
        n <= list.len(),
{
    let tried = Seq::new(n, |k: int| candidate(dir, path, t, stamp, k as nat));
    assert(tried.no_duplicates()) by {
        assert forall|i: int, j: int| 0 <= i < n && 0 <= j < n && i != j implies tried[i] != tried[j] by {
            if tried[i] == tried[j] {
                candidates_differ(dir, path, t, stamp, i as nat, j as nat);
            }
        }
    }
    tried.unique_seq_to_set();
    assert(tried.to_set().subset_of(list.to_set())) by {
        assert forall|p: Seq<char>| tried.to_set().contains(p) implies list.to_set().contains(p) by {
            let k = choose|k: int| 0 <= k < tried.len() && tried[k] == p;
            assert(list.contains(candidate(dir, path, t, stamp, k as nat)));
        }
    }
    vstd::set_lib::lemma_len_subset(tried.to_set(), list.to_set());
    list.lemma_cardinality_of_set();
}

// ----- the store -----------------------------------------------------------

/// Why a file is not backed up or not restored.
#[derive(Debug)]
pub enum BackupError {
    /// The file is not there.
    Missing(String),
    /// It is no regular file.
    NotRegular(String),
    /// The time of the backup is out of the calendar's range.
    BadTime,
    /// Fewer or more bytes were copied than the file holds.
    Incomplete(String, u64, u64),
    /// The store holds no such backup.
    NoRecord,
    /// Something stands where the file should go.
    TargetExists(String),
    /// The copy back failed.
    CopyFailed,
}

impl BackupError {
    pub open spec fn text(self) -> Seq<char> {
        match self {
            BackupError::Missing(p) => "File does not exist: "@ + p@,
            BackupError::NotRegular(p) => p@ + " is not a regular file"@,
            BackupError::BadTime => "The time of the backup is out of range"@,
            BackupError::Incomplete(p, copied, size) => "Backup of "@ + p@ + " is incomplete ("@ + decimal(
                copied as nat,
            ) + " of "@ + decimal(size as nat) + " bytes)"@,
            BackupError::NoRecord => "Backup record not found"@,
            BackupError::TargetExists(p) => "Target file already exists: "@ + p@,
            BackupError::CopyFailed => "Failed to restore file"@,
        }
    }

    pub fn message(&self) -> (r: String)
        ensures
            r@ == self.text(),
    {
        let mut out = String::new();
        match self {
            BackupError::Missing(p) => {
                out.append("File does not exist: ");
                out.append(p.as_str());
            },
            BackupError::NotRegular(p) => {
                out.append(p.as_str());
                out.append(" is not a regular file");
            },
            BackupError::BadTime => {
                out.append("The time of the backup is out of range");
            },
            BackupError::Incomplete(p, copied, size) => {
                out.append("Backup of ");
                out.append(p.as_str());
                out.append(" is incomplete (");
                out.append(decimal_text(*copied).as_str());
                out.append(" of ");
                out.append(decimal_text(*size).as_str());
                out.append(" bytes)");
            },
            BackupError::NoRecord => {
                out.append("Backup record not found");
            },
            BackupError::TargetExists(p) => {
                out.append("Target file already exists: ");
                out.append(p.as_str());
            },
            BackupError::CopyFailed => {
                out.append("Failed to restore file");
            },
        }
        assert(out@ =~= self.text());
        out
    }
}

/// `i` is the first record of this backup.
pub open spec fn first_record(records: Seq<RecordView>, backup_path: Seq<char>, i: int) -> bool {
    &&& 0 <= i < records.len()
    &&& path_key(records[i].backup_path) == path_key(backup_path)
    &&& forall|j: int| 0 <= j < i ==> path_key((#[trigger] records[j]).backup_path) != path_key(backup_path)
}

pub open spec fn has_record(records: Seq<RecordView>, backup_path: Seq<char>) -> bool {
    exists|i: int| 0 <= i < records.len() && path_key((#[trigger] records[i]).backup_path) == path_key(backup_path)
}

/// Where a backup goes back to: where it is asked to, or else where it was.
pub open spec fn restore_goal(record: RecordView, restore_path: Option<Seq<char>>) -> Seq<char> {
    match restore_path {
        Some(p) => p,
        None => record.original_path,
    }
}

pub open spec fn str_view(s: Option<&str>) -> Option<Seq<char>> {
    match s {
        Some(t) => Some(t@),
        None => None,
    }
}

/// Was the backup made more than `days` days before `now`?
pub open spec fn is_older(record: RecordView, now: Timestamp, days: i64) -> bool {
    let at = record.timestamp.secs + days * 86400;
    at < now.secs || (at == now.secs && record.timestamp.nanos < now.nanos)
}

/// The records that are older, or those that are not.
pub open spec fn by_age(records: Seq<RecordView>, now: Timestamp, days: i64, older: bool) -> Seq<RecordView>
    decreases records.len(),
{
    if records.len() == 0 {
        seq![]
    } else {
        let head = by_age(records.drop_last(), now, days, older);
        if is_older(records.last(), now, days) == older {
            head.push(records.last())
        } else {
            head
        }
    }
}

pub open spec fn of_original(records: Seq<RecordView>, original: Seq<char>) -> Seq<RecordView>
    decreases records.len(),
{
    if records.len() == 0 {
        seq![]
    } else {
        let head = of_original(records.drop_last(), original);
        if path_key(records.last().original_path) == path_key(original) {
            head.push(records.last())
        } else {
            head
        }
    }
}

pub open spec fn record_bytes(records: Seq<RecordView>) -> int
    decreases records.len(),
{
    if records.len() == 0 {
        0
    } else {
        record_bytes(records.drop_last()) + records.last().size
    }
}

impl BackupManager {
    /// The store at `backup_dir`, with the records its index holds.
    pub fn open(backup_dir: String, records: Vec<BackupRecord>) -> (r: BackupManager)
        ensures
            r == (BackupManager { backup_dir, records }),
    {
        BackupManager { backup_dir, records }
    }

    /// The default store, with the records its index holds.
    pub fn open_default(local_data_dir: &str, records: Vec<BackupRecord>) -> (r: BackupManager)
        ensures
            r.backup_dir@ == join_of(join_of(local_data_dir@, "dupscanner"@), "backups"@),
            r.records == records,
    {
        BackupManager::open(default_backup_dir(local_data_dir), records)
    }

    pub fn backup_dir(&self) -> (r: &str)
        ensures
            r@ == self.backup_dir@,
    {
        self.backup_dir.as_str()
    }

    /// Where the index of the store is kept.
    pub fn records_file(&self) -> (r: String)
        ensures
            r@ == join_of(self.backup_dir@, "records.json"@),
    {
        join(self.backup_dir.as_str(), "records.json")
    }

    /// A name in the store that is not taken yet, where `stamp` is the time
    /// of the backup as text. A short digest of the original path plus time
    /// makes names unique even for same-named files deleted in the same
    /// second; a number is added where that is not enough.
    pub fn unique_backup_path(
        &self,
        file_path: &str,
        timestamp: Timestamp,
        stamp: &str,
        taken: &TextSet,
    ) -> (r: String)
        requires
            stamp@.len() > 0,
            stamp@[0] != '/',
        ensures
            exists|n: nat| #[trigger]
                first_free(self.backup_dir@, file_path@, timestamp, stamp@, taken@, n) && r@ == candidate(
                    self.backup_dir@,
                    file_path@,
                    timestamp,
                    stamp@,
                    n,
                ),
    {
        let mut hasher = Sha256Stream::start();
        hasher.absorb(file_path.as_bytes());
        hasher.absorb(time_to_bytes(&timestamp).as_slice());
        let digest = hasher.hex();
        proof {
            assert(Seq::<u8>::empty() + encode_utf8(file_path@) =~= encode_utf8(file_path@));
        }
        let short = digest.as_str().substring_char(0, 8);
        assert(short@ =~= short_digest(file_path@, timestamp));
        let name = match file_name(file_path) {
            Some(n) => truncate_chars(n.as_str(), 120),
            None => truncate_chars("file", 120),
        };
        let mut head = String::new();
        head.append(stamp);
        head.append("_");
        head.append(short);
        head.append("_");
        assert(head@ =~= stamp@ + "_"@ + short_digest(file_path@, timestamp) + "_"@);
        let total = taken.len();
        let mut n: u64 = 0;
        loop
            invariant
                stamp@.len() > 0,
                stamp@[0] != '/',
                head@ == stamp@ + "_"@ + short_digest(file_path@, timestamp) + "_"@,
                name@ == stored_name(file_path@),
                total == taken.list().len(),
                taken.listed(),
                n <= total,
                forall|k: nat|
                    k < n ==> taken@.contains(
                        #[trigger] candidate(self.backup_dir@, file_path@, timestamp, stamp@, k),
                    ),
            decreases total - n,
        {
            let mut file = head.clone();
            if n > 0 {
                file.append(decimal_text(n).as_str());
                file.append("_");
            }
            file.append(name.as_str());
            file.append(".bak");
            let path = join(self.backup_dir.as_str(), file.as_str());
            proof {
                if n == 0 {
                    assert(file@ =~= head@ + name@ + ".bak"@);
                } else {
                    assert(file@ =~= head@ + decimal(n as nat) + "_"@ + name@ + ".bak"@);
                }
                assert(path@ == candidate(self.backup_dir@, file_path@, timestamp, stamp@, n as nat));
            }
            if !taken.contains(path.as_str()) {
                assert(first_free(self.backup_dir@, file_path@, timestamp, stamp@, taken@, n as nat));
                return path;
            }
            proof {
                assert forall|k: nat| k < n + 1 implies taken.list().contains(
                    #[trigger] candidate(self.backup_dir@, file_path@, timestamp, stamp@, k),
                ) by {
                    assert(taken@.contains(candidate(self.backup_dir@, file_path@, timestamp, stamp@, k)));
                }
                lemma_some_free(
                    self.backup_dir@,
                    file_path@,
                    timestamp,
                    stamp@,
                    taken.list(),
                    (n + 1) as nat,
                );
            }
            n = n + 1;
        }
    }

    /// Decides where a copy of the file goes: the record of the backup, to
    /// be handed to `backup_file` once the copy was made. `found` is what
    /// stands at the path, `taken` the paths in the store.
    pub fn prepare_backup(
        &self,
        file_path: &str,
        found: FileState,
        timestamp: Timestamp,
        taken: &TextSet,
    ) -> (r: Result<BackupRecord, BackupError>)
        ensures
            r is Ok <==> found is Regular && utc_text_of(timestamp.secs, timestamp.nanos, stamp_format()) is Some,
            r matches Ok(record) ==> {
                &&& record.original_path@ == file_path@
                &&& record.size == found->Regular_0
                &&& record.timestamp == timestamp
                &&& exists|n: nat| #[trigger]
                    first_free(
                        self.backup_dir@,
                        file_path@,
                        timestamp,
                        utc_text_of(timestamp.secs, timestamp.nanos, stamp_format())->0,
                        taken@,
                        n,
                    ) && record.backup_path@ == candidate(
                        self.backup_dir@,
                        file_path@,
                        timestamp,
                        utc_text_of(timestamp.secs, timestamp.nanos, stamp_format())->0,
                        n,
                    )
            },
            found is Missing ==> (r matches Err(BackupError::Missing(p)) && p@ == file_path@),
            found is NotRegular ==> (r matches Err(BackupError::NotRegular(p)) && p@ == file_path@),
            found is Regular && r is Err ==> r->Err_0 is BadTime,
    {
        let size = match found {
            FileState::Missing => {
                return Err(BackupError::Missing(file_path.to_owned()));
            },
            FileState::NotRegular => {
                return Err(BackupError::NotRegular(file_path.to_owned()));
            },
            FileState::Regular(size) => size,
        };
        match utc_text(timestamp.secs, timestamp.nanos, "%Y%m%d_%H%M%S") {
            Some(stamp) => {
                assert(stamp@ == utc_text_of(timestamp.secs, timestamp.nanos, stamp_format())->0);
                let backup_path = self.unique_backup_path(file_path, timestamp, stamp.as_str(), taken);
                Ok(
                    BackupRecord {
                        original_path: file_path.to_owned(),
                        backup_path,
                        size,
                        timestamp,
                    },
                )
            },
            None => Err(BackupError::BadTime),
        }
    }

    /// Notes a backup once `copied` bytes of the file were copied. An
    /// incomplete copy is not recorded. Returns the backup path.
    pub fn backup_file(&mut self, record: BackupRecord, copied: u64) -> (r: Result<String, BackupError>)
        ensures
            final(self).backup_dir == old(self).backup_dir,
            r is Ok <==> copied == record.size,
            r matches Ok(p) ==> p@ == record.backup_path@ && final(self).records@ == old(self).records@.push(
                record,
            ),
            r matches Err(e) ==> *final(self) == *old(self) && (e matches BackupError::Incomplete(p, c, s)
                && p@ == record.original_path@ && c == copied && s == record.size),
    {
        if copied != record.size {
            return Err(BackupError::Incomplete(record.original_path, copied, record.size));
        }
        let path = record.backup_path.clone();
        self.records.push(record);
        Ok(path)
    }

    fn find_record(&self, backup_path: &str) -> (r: Option<usize>)
        ensures
            r is Some <==> has_record(record_views(self.records@), backup_path@),
            r is Some ==> first_record(record_views(self.records@), backup_path@, r->0 as int),
    {
        let n = self.records.len();
        let ghost all = record_views(self.records@);
        for i in 0..n
            invariant
                n == self.records@.len(),
                all == record_views(self.records@),
                forall|j: int| 0 <= j < i ==> path_key((#[trigger] all[j]).backup_path) != path_key(backup_path@),
        {
            assert(all[i as int] == self.records@[i as int]@);
            if same_path(self.records[i].backup_path.as_str(), backup_path) {
                return Some(i);
            }
        }
        None
    }

    /// Where a backup would be restored to: its original location, or
    /// `restore_path`.
    pub fn plan_restore(&self, backup_path: &str, restore_path: Option<&str>) -> (r: Result<
        String,
        BackupError,
    >)
        ensures
            r is Ok <==> has_record(record_views(self.records@), backup_path@),
            r matches Ok(p) ==> exists|i: int| #[trigger]
                first_record(record_views(self.records@), backup_path@, i) && p@ == restore_goal(
                    record_views(self.records@)[i],
                    str_view(restore_path),
                ),
            r matches Err(e) ==> e is NoRecord,
    {
        match self.find_record(backup_path) {
            Some(i) => {
                assert(record_views(self.records@)[i as int] == self.records@[i as int]@);
                match restore_path {
                    Some(p) => Ok(p.to_owned()),
                    None => Ok(self.records[i].original_path.clone()),
                }
            },
            None => Err(BackupError::NoRecord),
        }
    }

    /// Restores a backup to its original location (or `restore_path`), where
    /// `target_exists` tells whether something stands there, and `copied`
    /// whether the file could be copied back. Refuses to overwrite an
    /// existing file. The record goes once the file is back.
    pub fn restore_file(
        &mut self,
        backup_path: &str,
        restore_path: Option<&str>,
        target_exists: bool,
        copied: bool,
    ) -> (r: Result<String, BackupError>)
        ensures
            final(self).backup_dir == old(self).backup_dir,
            r is Ok <==> has_record(record_views(old(self).records@), backup_path@) && !target_exists && copied,
            r is Err ==> *final(self) == *old(self),
            r matches Ok(p) ==> exists|i: int| #[trigger]
                first_record(record_views(old(self).records@), backup_path@, i) && p@ == restore_goal(
                    record_views(old(self).records@)[i],
                    str_view(restore_path),
                ) && record_views(final(self).records@) == record_views(old(self).records@).remove(i),
            r matches Err(e) ==> match e {
                BackupError::NoRecord => !has_record(record_views(old(self).records@), backup_path@),
                BackupError::TargetExists(p) => target_exists && exists|i: int| #[trigger]
                    first_record(record_views(old(self).records@), backup_path@, i) && p@ == restore_goal(
                        record_views(old(self).records@)[i],
                        str_view(restore_path),
                    ),
                BackupError::CopyFailed => has_record(record_views(old(self).records@), backup_path@)
                    && !target_exists && !copied,
                _ => false,
            },
    {
        let ghost all = record_views(self.records@);
        match self.find_record(backup_path) {
            None => Err(BackupError::NoRecord),
            Some(i) => {
                assert(all[i as int] == self.records@[i as int]@);
                let target = match restore_path {
                    Some(p) => p.to_owned(),
                    None => self.records[i].original_path.clone(),
                };
                if target_exists {
                    return Err(BackupError::TargetExists(target));
                }
                if !copied {
                    return Err(BackupError::CopyFailed);
                }
                self.records.remove(i);
                assert(record_views(self.records@) =~= all.remove(i as int));
                Ok(target)
            },
        }
    }

    pub fn list_backups(&self) -> (r: &Vec<BackupRecord>)
        ensures
            *r == self.records,
    {
        &self.records
    }

    pub fn find_by_original(&self, original: &str) -> (r: Vec<BackupRecord>)
        ensures
            record_views(r@) == of_original(record_views(self.records@), original@),
    {
        let mut out: Vec<BackupRecord> = Vec::new();
        let n = self.records.len();
        let ghost all = record_views(self.records@);
        assert(record_views(out@) =~= of_original(all.take(0), original@));
        for i in 0..n
            invariant
                n == self.records@.len(),
                all == record_views(self.records@),
                record_views(out@) == of_original(all.take(i as int), original@),
        {
            let ghost before = record_views(out@);
            assert(all.take(i + 1).drop_last() =~= all.take(i as int));
            assert(all.take(i + 1).last() == self.records@[i as int]@);
            if same_path(self.records[i].original_path.as_str(), original) {
                out.push(self.records[i].clone());
                assert(record_views(out@) =~= before.push(self.records@[i as int]@));
            }
        }
        assert(all.take(n as int) =~= all);
        out
    }

    fn split_by_age(&self, now: Timestamp, days: i64, older: bool) -> (r: Vec<BackupRecord>)
        ensures
            record_views(r@) == by_age(record_views(self.records@), now, days, older),
    {
        let mut out: Vec<BackupRecord> = Vec::new();
        let n = self.records.len();
        let ghost all = record_views(self.records@);
        assert(record_views(out@) =~= by_age(all.take(0), now, days, older));
        for i in 0..n
            invariant
                n == self.records@.len(),
                all == record_views(self.records@),
                record_views(out@) == by_age(all.take(i as int), now, days, older),
        {
            let ghost before = record_views(out@);
            let r = &self.records[i];
            assert(all.take(i + 1).drop_last() =~= all.take(i as int));
            assert(all.take(i + 1).last() == r@);
            let at: i128 = r.timestamp.secs as i128 + days as i128 * 86400;
            let is_old = at < now.secs as i128 || (at == now.secs as i128 && r.timestamp.nanos < now.nanos);
            if is_old == older {
                out.push(r.clone());
                assert(record_views(out@) =~= before.push(r@));
            }
        }
        assert(all.take(n as int) =~= all);
        out
    }

    /// The backups that are older than `days` days at `now`: their files are
    /// to be removed before `clean_old_backups`.
    pub fn old_backups(&self, now: Timestamp, days: i64) -> (r: Vec<BackupRecord>)
        ensures
            record_views(r@) == by_age(record_views(self.records@), now, days, true),
    {
        self.split_by_age(now, days, true)
    }

    /// Forgets the backups older than `days` days at `now`, where the files
    /// of `failed` of them could not be removed. Returns how many were
    /// removed.
    pub fn clean_old_backups(&mut self, now: Timestamp, days: i64, failed: usize) -> (r: usize)
        requires
            failed <= by_age(record_views(old(self).records@), now, days, true).len(),
        ensures
            final(self).backup_dir == old(self).backup_dir,
            record_views(final(self).records@) == by_age(record_views(old(self).records@), now, days, false),
            r == by_age(record_views(old(self).records@), now, days, true).len() - failed,
    {
        let old_ones = self.split_by_age(now, days, true);
        assert(record_views(old_ones@).len() == old_ones@.len());
        let count = old_ones.len() - failed;
        self.records = self.split_by_age(now, days, false);
        count
    }

    pub fn total_backup_size(&self) -> (r: u64)
        ensures
            r == capped(record_bytes(record_views(self.records@))),
    {
        let mut sum: u64 = 0;
        let n = self.records.len();
        let ghost all = record_views(self.records@);
        for i in 0..n
            invariant
                n == self.records@.len(),
                all == record_views(self.records@),
                record_bytes(all.take(i as int)) >= 0,
                sum == capped(record_bytes(all.take(i as int))),
        {
            assert(all.take(i + 1).drop_last() =~= all.take(i as int));
            assert(all.take(i + 1).last() == self.records@[i as int]@);
            sum = add_capped(sum, self.records[i].size);
        }
        assert(all.take(n as int) =~= all);
        sum
    }
}

/// A backup that was made and is restored leaves the store as it was, and
/// goes back to where the file came from.
pub proof fn restoring_undoes_a_backup(records: Seq<RecordView>, record: RecordView)
    requires
        !has_record(records, record.backup_path),
    ensures
        first_record(records.push(record), record.backup_path, records.len() as int),
        records.push(record).remove(records.len() as int) == records,
        restore_goal(records.push(record)[records.len() as int], None) == record.original_path,
{
    let all = records.push(record);
    assert forall|j: int| 0 <= j < records.len() implies path_key(
        (#[trigger] all[j]).backup_path,
    ) != path_key(record.backup_path) by {
        assert(all[j] == records[j]);
    }
    assert(all.remove(records.len() as int) =~= records);
}

/// A clean of `days` days takes the backups whose time plus that many times
/// 24 hours of 60 minutes of 60 seconds lies before now, and keeps all
/// others, in their order.
pub proof fn cleaning_goes_by_age(records: Seq<RecordView>, now: Timestamp, days: i64)
    ensures
        by_age(records, now, days, true) == records.filter(
            |r: RecordView|
                r.timestamp.secs + days * 24 * 60 * 60 < now.secs || (r.timestamp.secs + days * 24 * 60 * 60
                    == now.secs && r.timestamp.nanos < now.nanos),
        ),
        by_age(records, now, days, false) == records.filter(
            |r: RecordView|
                r.timestamp.secs + days * 24 * 60 * 60 > now.secs || (r.timestamp.secs + days * 24 * 60 * 60
                    == now.secs && r.timestamp.nanos >= now.nanos),
        ),
        by_age(records, now, days, true).len() + by_age(records, now, days, false).len() == records.len(),
    decreases records.len(),
{
    reveal(Seq::filter);
    assert(days * 24 * 60 * 60 == days * 86400) by (nonlinear_arith);
    if records.len() > 0 {
        cleaning_goes_by_age(records.drop_last(), now, days);
    }
}

/// A backup made no more than `days` days before now is never cleaned, and
/// one made longer ago always is; counted in nanoseconds.
pub proof fn young_backups_stay(records: Seq<RecordView>, now: Timestamp, days: i64, i: int)
    requires
        0 <= i < records.len(),
        now.nanos < 1_000_000_000,
        records[i].timestamp.nanos < 1_000_000_000,
    ensures
        ({
            let age = (now.secs * 1_000_000_000 + now.nanos) - (records[i].timestamp.secs * 1_000_000_000
                + records[i].timestamp.nanos);
            &&& age <= days * 24 * 60 * 60 * 1_000_000_000 ==> by_age(records, now, days, false).contains(
                records[i],
            ) && !by_age(records, now, days, true).contains(records[i])
            &&& age > days * 24 * 60 * 60 * 1_000_000_000 ==> by_age(records, now, days, true).contains(
                records[i],
            ) && !by_age(records, now, days, false).contains(records[i])
        }),
{
    cleaning_goes_by_age(records, now, days);
    let span = days * 24 * 60 * 60;
    assert(days * 24 * 60 * 60 * 1_000_000_000 == span * 1_000_000_000);
    let old = |r: RecordView|
        r.timestamp.secs + days * 24 * 60 * 60 < now.secs || (r.timestamp.secs + days * 24 * 60 * 60 == now.secs
            && r.timestamp.nanos < now.nanos);
    let young = |r: RecordView|
        r.timestamp.secs + days * 24 * 60 * 60 > now.secs || (r.timestamp.secs + days * 24 * 60 * 60 == now.secs
            && r.timestamp.nanos >= now.nanos);
    lemma_filtered(records, old, i);
    lemma_filtered(records, young, i);
    assert(by_age(records, now, days, true) == records.filter(old));
    assert(by_age(records, now, days, false) == records.filter(young));
}

proof fn lemma_filtered(records: Seq<RecordView>, p: spec_fn(RecordView) -> bool, i: int)
    requires
        0 <= i < records.len(),
    ensures
        records.filter(p).contains(records[i]) <==> p(records[i]),
{
    records.filter_lemma(p);
    if p(records[i]) {
        assert(records.filter(p).contains(records[i]));
    }
    if records.filter(p).contains(records[i]) {
        let k = choose|k: int| 0 <= k < records.filter(p).len() && records.filter(p)[k] == records[i];
        assert(p(records.filter(p)[k]));
    }
}

/// The backups of a file are those whose original path is the file's, however
/// it is written; their bytes add up.
pub proof fn backups_of_a_file_are_all_found(records: Seq<RecordView>, original: Seq<char>, more: RecordView)
    ensures
        of_original(records, original) == records.filter(
            |r: RecordView| crate::paths::components(r.original_path) == crate::paths::components(original),
        ),
        record_bytes(seq![]) == 0,
        record_bytes(records.push(more)) == record_bytes(records) + more.size,
    decreases records.len(),
{
    reveal(Seq::filter);
    assert(records.push(more).drop_last() =~= records);
    if records.len() > 0 {
        backups_of_a_file_are_all_found(records.drop_last(), original, more);
        crate::paths::keys_stand_for_components(records.last().original_path, original);
    }
}

/// A backup goes back to the path it is asked to go to, and otherwise to the
/// one it came from.
pub proof fn backups_go_back_where_they_belong(record: RecordView, to: Seq<char>)
    ensures
        restore_goal(record, Some(to)) == to,
        restore_goal(record, None) == record.original_path,
{
}

/// The name a backup is stored under begins with the time, names the file,
/// and ends in `.bak`; it lies in the store's directory.
pub proof fn stored_names_name_the_file(dir: Seq<char>, path: Seq<char>, t: Timestamp, stamp: Seq<char>, n: nat)
    requires
        stamp.len() > 0,
        stamp[0] != '/',
        dir.len() > 0,
        dir.last() != '/',
    ensures
        dir.push('/').is_prefix_of(candidate(dir, path, t, stamp, n)),
        (dir.push('/') + stamp + "_"@).is_prefix_of(candidate(dir, path, t, stamp, n)),
        (stored_name(path) + ".bak"@).is_suffix_of(candidate(dir, path, t, stamp, n)),
        stored_name(path).len() <= 120,
        crate::paths::file_name_of(path) is Some && crate::paths::file_name_of(path)->0.len() <= 120
            ==> stored_name(path) == crate::paths::file_name_of(path)->0,
{
    reveal_strlit("_");
    reveal_strlit(".bak");
    reveal_strlit("file");
    let c = candidate(dir, path, t, stamp, n);
    let head = stamp + "_"@ + short_digest(path, t) + "_"@;
    let x = if n == 0 {
        head + stored_name(path) + ".bak"@
    } else {
        head + decimal(n) + "_"@ + stored_name(path) + ".bak"@
    };
    assert(x[0] == stamp[0]);
    assert(c == dir.push('/') + x);
    let base = dir.push('/');
    assert(base =~= c.subrange(0, base.len() as int));
    let longer = base + stamp + "_"@;
    assert(longer =~= c.subrange(0, longer.len() as int));
    let tail = stored_name(path) + ".bak"@;
    assert(tail =~= c.subrange(c.len() - tail.len(), c.len() as int));
    truncation_fits(
        match crate::paths::file_name_of(path) {
            Some(n) => n,
            None => "file"@,
        },
        120,
    );
}

/// A name that is too long keeps its extension, where that has sixteen
/// bytes or fewer, behind an ellipsis; one without such an extension is cut
/// at its end.
pub proof fn long_names_keep_their_extension(stem: Seq<char>, ext: Seq<char>, max: int)
    requires
        stem.len() > 0,
        !ext.contains('.'),
        stem.len() + 1 + ext.len() > max >= 2,
    ensures
        byte_len_of("."@ + ext) <= 16 && ext.len() + 3 <= max ==> truncated(stem + "."@ + ext, max) == stem.take(
            max - ext.len() - 2,
        ).push('…') + "."@ + ext,
        byte_len_of("."@ + ext) > 16 ==> truncated(stem + "."@ + ext, max) == (stem + "."@ + ext).take(
            max - 1,
        ).push('…'),
{
    reveal_strlit(".");
    let name = stem + "."@ + ext;
    crate::text::lemma_last_of(name, '.');
    assert(name[stem.len() as int] == '.');
    assert forall|i: int| stem.len() < i < name.len() implies name[i] != '.' by {
        assert(name[i] == ext[i - stem.len() - 1]);
        assert(ext.contains(ext[i - stem.len() - 1]));
    }
    assert(last_of(name, '.') == stem.len());
    assert(name.skip(stem.len() as int) == "."@ + ext);
    if byte_len_of("."@ + ext) <= 16 && ext.len() + 3 <= max {
        let keep = max - ext.len() - 2;
        assert(name.take(keep) == stem.take(keep));
        assert(name.take(keep).push('…') + name.skip(stem.len() as int) == stem.take(keep).push('…') + "."@ + ext);
    }
}

/// The time goes into the digest as the eight bytes, the lowest first, of
/// its nanoseconds since the epoch, where those fit in 64 bits.
pub proof fn times_are_written_low_byte_first(n: int, bytes: nat, t: Timestamp)
    ensures
        little_endian(n, 0).len() == 0,
        bytes > 0 ==> little_endian(n, bytes).len() == bytes && little_endian(n, bytes)[0] == (n % 256) as u8
            && little_endian(n, bytes).drop_first() == little_endian(n / 256, (bytes - 1) as nat),
        -0x8000_0000_0000_0000 <= t.secs * 1_000_000_000 + t.nanos <= 0x7fff_ffff_ffff_ffff ==> nanos_of(t)
            == t.secs * 1_000_000_000 + t.nanos,
        t.secs * 1_000_000_000 + t.nanos > 0x7fff_ffff_ffff_ffff ==> nanos_of(t) == 0,
        t.secs * 1_000_000_000 + t.nanos < -0x8000_0000_0000_0000 ==> nanos_of(t) == 0,
        nanos_of(t) >= 0 ==> time_bytes(t) == little_endian(nanos_of(t), 8),
        nanos_of(t) < 0 ==> time_bytes(t) == little_endian(nanos_of(t) + 0x1_0000_0000_0000_0000, 8),
    decreases bytes,
{
    if bytes > 0 {
        times_are_written_low_byte_first(n / 256, (bytes - 1) as nat, t);
        let rest = little_endian(n / 256, (bytes - 1) as nat);
        assert((seq![(n % 256) as u8] + rest).drop_first() == rest);
        assert(rest.len() == bytes - 1);
    }
}

/// The name of a backup is made of the time, eight characters of a digest of
/// path and time, a number where one is needed, and the name of the file.
pub proof fn backups_are_named_in_parts(dir: Seq<char>, path: Seq<char>, t: Timestamp, stamp: Seq<char>, n: nat)
    ensures
        stamp_format() == "%Y%m%d_%H%M%S"@,
        short_digest(path, t) == sha256_hex(encode_utf8(path) + time_bytes(t)).take(8),
        candidate(dir, path, t, stamp, 0) == join_of(
            dir,
            stamp + "_"@ + short_digest(path, t) + "_"@ + stored_name(path) + ".bak"@,
        ),
        n > 0 ==> candidate(dir, path, t, stamp, n) == join_of(
            dir,
            stamp + "_"@ + short_digest(path, t) + "_"@ + decimal(n) + "_"@ + stored_name(path) + ".bak"@,
        ),
{
}

/// What the backups take is the sum of their sizes.
pub proof fn backup_sizes_add_up(records: Seq<RecordView>, record: RecordView)
    ensures
        record_bytes(Seq::<RecordView>::empty()) == 0,
        record_bytes(records.push(record)) == record_bytes(records) + record.size,
{
    assert(records.push(record).drop_last() == records);
}

/// What is said where a backup or a restore did not go.
pub proof fn backup_errors_read_as_follows(path: String, copied: u64, size: u64)
    ensures
        BackupError::Missing(path).text() == "File does not exist: "@ + path@,
        BackupError::NotRegular(path).text() == path@ + " is not a regular file"@,
        BackupError::BadTime.text() == "The time of the backup is out of range"@,
        BackupError::Incomplete(path, copied, size).text() == "Backup of "@ + path@ + " is incomplete ("@ + decimal(
            copied as nat,
        ) + " of "@ + decimal(size as nat) + " bytes)"@,
        BackupError::NoRecord.text() == "Backup record not found"@,
        BackupError::TargetExists(path).text() == "Target file already exists: "@ + path@,
        BackupError::CopyFailed.text() == "Failed to restore file"@,
{
}

/// A backup takes the first name that is free, and there is only one first.
pub proof fn backups_take_the_first_free_name(
    dir: Seq<char>,
    path: Seq<char>,
    t: Timestamp,
    stamp: Seq<char>,
    taken: Set<Seq<char>>,
    n: nat,
    m: nat,
)
    requires
        first_free(dir, path, t, stamp, taken, n),
    ensures
        !taken.contains(candidate(dir, path, t, stamp, n)),
        m < n ==> taken.contains(candidate(dir, path, t, stamp, m)),
        first_free(dir, path, t, stamp, taken, m) ==> m == n,
{
}

/// A backup is known by its path, however that is written, and the first
/// record of it counts.
pub proof fn backups_are_known_by_their_path(records: Seq<RecordView>, backup_path: Seq<char>, i: int, k: int)
    ensures
        0 <= k < records.len() && path_key(records[k].backup_path) == path_key(backup_path) ==> has_record(
            records,
            backup_path,
        ),
        first_record(records, backup_path, i) ==> has_record(records, backup_path) && 0 <= i < records.len()
            && path_key(records[i].backup_path) == path_key(backup_path),
        first_record(records, backup_path, i) && 0 <= k < i ==> path_key(records[k].backup_path) != path_key(
            backup_path,
        ),
        first_record(records, backup_path, i) && first_record(records, backup_path, k) ==> i == k,
{
}

} // verus!
