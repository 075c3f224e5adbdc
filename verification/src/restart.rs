//! What a restart finds in the data directory: SSTable files named
//! `<ts>.sstable`, loaded newest first, and WAL files named `wal.<ts>.log`,
//! replayed oldest first. Other files are ignored.

use vstd::prelude::*;
use crate::util::{copy_range, decimal_bytes};

verus! {

broadcast use vstd::seq_lib::group_to_multiset_ensures;

// ---------------------------------------------------------------------------
// File names
// ---------------------------------------------------------------------------

/// The position of the last `.` in `s` before `end`, if any.
pub open spec fn last_dot_before(s: Seq<u8>, end: int) -> Option<int>
    decreases end,
{
    if end <= 0 {
        None
    } else if s[end - 1] == 46 {
        Some(end - 1)
    } else {
        last_dot_before(s, end - 1)
    }
}

/// The extension of a file name: what follows its last `.`, when that dot
/// is not the first byte; `..` has none.
pub open spec fn extension(name: Seq<u8>) -> Option<Seq<u8>> {
    if name == seq![46u8, 46u8] {
        None
    } else {
        match last_dot_before(name, name.len() as int) {
            Some(i) => if i > 0 {
                Some(name.subrange(i + 1, name.len() as int))
            } else {
                None
            },
            None => None,
        }
    }
}

/// The kinds of file that a restart reads.
#[derive(PartialEq, Eq, Structural, Clone, Copy, Debug)]
pub enum DatabaseFile {
    Wal,
    SSTable,
}

/// The kind of a file by its name: `.sstable` files are tables, `.log`
/// files whose name starts with `wal` are write-ahead logs.
pub open spec fn file_kind(name: Seq<u8>) -> Option<DatabaseFile> {
    match extension_kind(name) {
        Some(DatabaseFile::SSTable) => if sstable_ts(name) is Some {
            Some(DatabaseFile::SSTable)
        } else {
            None
        },
        Some(DatabaseFile::Wal) => if first_field(name) == seq![119u8, 97u8, 108u8] && wal_ts(name) is Some {
            Some(DatabaseFile::Wal)
        } else {
            None
        },
        None => None,
    }
}

/// The kind that a name's extension suggests: `.sstable`, or `.log` on a
/// name that starts with `wal`.
pub open spec fn extension_kind(name: Seq<u8>) -> Option<DatabaseFile> {
    match extension(name) {
        Some(ext) => if ext == seq![115u8, 115u8, 116u8, 97u8, 98u8, 108u8, 101u8] {
            Some(DatabaseFile::SSTable)
        } else if ext == seq![108u8, 111u8, 103u8] && name.len() >= 3 && name.subrange(0, 3) == seq![
            119u8,
            97u8,
            108u8,
        ] {
            Some(DatabaseFile::Wal)
        } else {
            None
        },
        None => None,
    }
}

fn bytes_equal(a: &[u8], b: &[u8]) -> (r: bool)
    ensures
        r == (a@ == b@),
{
    if a.len() != b.len() {
        return false;
    }
    let mut i: usize = 0;
    while i < a.len()
        invariant
            a@.len() == b@.len(),
            i <= a@.len(),
            forall|j: int| 0 <= j < i ==> a@[j] == b@[j],
        decreases a.len() - i,
    {
        if a[i] != b[i] {
            return false;
        }
        i = i + 1;
    }
    assert(a@ =~= b@);
    true
}

impl DatabaseFile {
    /// The kind of a database file by its name: `<ts>.sstable` for an
    /// SSTable, `wal.<ts>.log` for a WAL file, each with a decimal
    /// timestamp; any other name is no database file.
    pub fn from_path(name: &[u8]) -> (r: Option<DatabaseFile>)
        ensures
            r == file_kind(name@),
    {
        match ext_kind(name) {
            Some(DatabaseFile::SSTable) => {
                if sstable_timestamp(name).is_some() {
                    Some(DatabaseFile::SSTable)
                } else {
                    None
                }
            },
            Some(DatabaseFile::Wal) => {
                if first_field_is_wal(name) && wal_timestamp(name).is_some() {
                    Some(DatabaseFile::Wal)
                } else {
                    None
                }
            },
            None => None,
        }
    }
}

/// Whether the name's first dot-separated field is `wal`.
fn first_field_is_wal(name: &[u8]) -> (r: bool)
    ensures
        r == (first_field(name@) == seq![119u8, 97u8, 108u8]),
{
    let _len = name.len();
    let found = find_dot(name, 0);
    let end = if found.is_some() {
        found.unwrap()
    } else {
        name.len()
    };
    proof {
        lemma_first_dot_bound(name@, 0);
    }
    let field = copy_range(name, 0, end);
    proof {
        assert(field@ == first_field(name@));
    }
    let wal: [u8; 3] = [119u8, 97u8, 108u8];
    assert(wal@ =~= seq![119u8, 97u8, 108u8]);
    bytes_equal(field.as_slice(), &wal)
}

/// The kind that a name's extension suggests.
fn ext_kind(name: &[u8]) -> (r: Option<DatabaseFile>)
    ensures
        r == extension_kind(name@),
{
    let dotdot: [u8; 2] = [46u8, 46u8];
    assert(dotdot@ =~= seq![46u8, 46u8]);
    if bytes_equal(name, &dotdot) {
        return None;
    }
    let mut end: usize = name.len();
    while end > 0 && name[end - 1] != 46u8
        invariant
            end <= name@.len(),
            last_dot_before(name@, name@.len() as int) == last_dot_before(name@, end as int),
        decreases end,
    {
        end = end - 1;
    }
    if end <= 1 {
        return None;
    }
    let ext = copy_range(name, end, name.len());
    let sstable: [u8; 7] = [115u8, 115u8, 116u8, 97u8, 98u8, 108u8, 101u8];
    let log: [u8; 3] = [108u8, 111u8, 103u8];
    let wal: [u8; 3] = [119u8, 97u8, 108u8];
    assert(sstable@ =~= seq![115u8, 115u8, 116u8, 97u8, 98u8, 108u8, 101u8]);
    assert(log@ =~= seq![108u8, 111u8, 103u8]);
    assert(wal@ =~= seq![119u8, 97u8, 108u8]);
    if bytes_equal(ext.as_slice(), &sstable) {
        return Some(DatabaseFile::SSTable);
    }
    if !bytes_equal(ext.as_slice(), &log) || name.len() < 3 {
        return None;
    }
    let head = copy_range(name, 0, 3);
    if bytes_equal(head.as_slice(), &wal) {
        Some(DatabaseFile::Wal)
    } else {
        None
    }
}

// ---------------------------------------------------------------------------
// Timestamps
// ---------------------------------------------------------------------------

/// The decimal value of a string of digits.
pub open spec fn dec_value(s: Seq<u8>) -> nat
    decreases s.len(),
{
    if s.len() == 0 {
        0
    } else {
        dec_value(s.drop_last()) * 10 + (s.last() - 48) as nat
    }
}

pub open spec fn is_digit(b: u8) -> bool {
    48 <= b <= 57
}

/// The text after an optional leading `+`.
pub open spec fn unsigned_body(s: Seq<u8>) -> Seq<u8> {
    if s.len() > 0 && s[0] == 43 {
        s.drop_first()
    } else {
        s
    }
}

/// Every byte is a decimal digit.
pub open spec fn all_digits(b: Seq<u8>) -> bool {
    forall|i: int| 0 <= i < b.len() ==> is_digit(#[trigger] b[i])
}

/// What parsing the text as a `u128` gives: one or more digits, after an
/// optional `+`, whose value fits.
pub open spec fn parse_u128(s: Seq<u8>) -> Option<u128> {
    let body = unsigned_body(s);
    if body.len() == 0 || !all_digits(body) {
        None
    } else if dec_value(body) > u128::MAX {
        None
    } else {
        Some(dec_value(body) as u128)
    }
}

proof fn lemma_dec_step(s: Seq<u8>, i: int)
    requires
        0 <= i < s.len(),
    ensures
        dec_value(s.subrange(0, i + 1)) == dec_value(s.subrange(0, i)) * 10 + (s[i] - 48) as nat,
{
    assert(s.subrange(0, i + 1).drop_last() =~= s.subrange(0, i));
}

proof fn lemma_dec_monotone(s: Seq<u8>, i: int, j: int)
    requires
        0 <= i <= j <= s.len(),
        forall|k: int| 0 <= k < s.len() ==> is_digit(#[trigger] s[k]),
    ensures
        dec_value(s.subrange(0, i)) <= dec_value(s.subrange(0, j)),
    decreases j - i,
{
    if i < j {
        lemma_dec_monotone(s, i, j - 1);
        lemma_dec_step(s, j - 1);
    }
}

/// A prefix whose value does not fit makes the whole value not fit.
proof fn lemma_parse_overflow(body: Seq<u8>, i: int, v: u128, d: u128)
    requires
        0 <= i < body.len(),
        v == dec_value(body.subrange(0, i)),
        d == body[i] - 48,
        d <= 9,
        v > (u128::MAX - d) / 10,
    ensures
        all_digits(body) ==> dec_value(body) > u128::MAX,
{
    assert(v * 10 + d > u128::MAX) by (nonlinear_arith)
        requires
            v > (u128::MAX - d) / 10,
            d <= 9,
    ;
    lemma_dec_step(body, i);
    if all_digits(body) {
        lemma_dec_monotone(body, i + 1, body.len() as int);
        assert(body.subrange(0, body.len() as int) =~= body);
    }
}

/// Parses a decimal `u128` with an optional leading `+`.
pub fn parse_ts(s: &[u8]) -> (r: Option<u128>)
    ensures
        r == parse_u128(s@),
{
    let mut start: usize = 0;
    if s.len() > 0 && s[0] == 43u8 {
        start = 1;
    }
    let ghost body = unsigned_body(s@);
    assert(body =~= s@.subrange(start as int, s@.len() as int));
    if start >= s.len() {
        assert(body.len() == 0);
        return None;
    }
    let mut v: u128 = 0;
    let mut i: usize = start;
    while i < s.len()
        invariant
            start <= i <= s@.len(),
            body == unsigned_body(s@),
            body == s@.subrange(start as int, s@.len() as int),
            forall|k: int| start <= k < i ==> is_digit(#[trigger] s@[k]),
            v == dec_value(body.subrange(0, i - start)),
        decreases s.len() - i,
    {
        let b = s[i];
        assert(body[i - start] == s@[i as int]);
        if b < 48u8 || b > 57u8 {
            assert(0 <= i - start < body.len() && !is_digit(body[i - start]));
            assert(!all_digits(body));
            return None;
        }
        let d = (b - 48u8) as u128;
        proof {
            lemma_dec_step(body, i - start);
        }
        if v > (u128::MAX - d) / 10 {
            proof {
                lemma_parse_overflow(body, (i - start) as int, v, d);
            }
            return None;
        }
        assert(v * 10 + d <= u128::MAX) by (nonlinear_arith)
            requires
                v <= (u128::MAX - d) / 10,
                d <= 9,
        ;
        v = v * 10 + d;
        i = i + 1;
    }
    proof {
        assert(body.subrange(0, body.len() as int) =~= body);
        assert forall|k: int| 0 <= k < body.len() implies is_digit(#[trigger] body[k]) by {
            assert(body[k] == s@[start + k]);
        }
    }
    Some(v)
}

/// The first field of a name split at every `.`: up to its first dot.
pub open spec fn first_field(s: Seq<u8>) -> Seq<u8> {
    match first_dot(s, 0) {
        None => s,
        Some(i) => s.subrange(0, i),
    }
}

/// The second field of a name split at every `.`, if it has a dot.
pub open spec fn second_field(s: Seq<u8>) -> Option<Seq<u8>> {
    match first_dot(s, 0) {
        None => None,
        Some(i) => Some(first_field(s.subrange(i + 1, s.len() as int))),
    }
}

/// The position of the first `.` at or after `k`.
pub open spec fn first_dot(s: Seq<u8>, k: int) -> Option<int>
    decreases s.len() - k,
{
    if k < 0 || k >= s.len() {
        None
    } else if s[k] == 46 {
        Some(k)
    } else {
        first_dot(s, k + 1)
    }
}

/// The position of the first `.` at or after `k`.
fn find_dot(s: &[u8], k: usize) -> (r: Option<usize>)
    requires
        k <= s@.len(),
    ensures
        r == match first_dot(s@, k as int) {
            Some(i) => Some(i as usize),
            None => None::<usize>,
        },
        r matches Some(i) ==> k <= i < s@.len(),
{
    let mut i = k;
    while i < s.len()
        invariant
            k <= i <= s@.len(),
            first_dot(s@, k as int) == first_dot(s@, i as int),
        decreases s.len() - i,
    {
        if s[i] == 46u8 {
            return Some(i);
        }
        i = i + 1;
    }
    None
}

/// The timestamp of a WAL file: the second dot-separated field of
/// `wal.<ts>.log`.
pub open spec fn wal_ts(name: Seq<u8>) -> Option<u128> {
    match second_field(name) {
        Some(f) => parse_u128(f),
        None => None,
    }
}

/// The timestamp of an SSTable file: the first dot-separated field of
/// `<ts>.sstable`.
pub open spec fn sstable_ts(name: Seq<u8>) -> Option<u128> {
    parse_u128(first_field(name))
}

/// A WAL file found at restart, with its timestamp.
pub struct WalArtifact {
    pub filename: Vec<u8>,
    pub ts: u128,
}

/// An SSTable file found at restart, with its timestamp.
pub struct SSTableArtifact {
    pub filename: Vec<u8>,
    pub ts: u128,
}

impl View for WalArtifact {
    type V = (Seq<u8>, u128);

    open spec fn view(&self) -> (Seq<u8>, u128) {
        (self.filename@, self.ts)
    }
}

impl View for SSTableArtifact {
    type V = (Seq<u8>, u128);

    open spec fn view(&self) -> (Seq<u8>, u128) {
        (self.filename@, self.ts)
    }
}

/// The timestamp of a WAL file name, if it has one.
pub fn wal_timestamp(filename: &[u8]) -> (r: Option<u128>)
    ensures
        r == wal_ts(filename@),
{
    let _len = filename.len();
    let found = find_dot(filename, 0);
    if found.is_none() {
        proof {
            assert(second_field(filename@) is None);
        }
        return None;
    }
    let first = found.unwrap();
    let second = find_dot(filename, first + 1);
    let end = match second {
        Some(e) => e,
        None => filename.len(),
    };
    let field = copy_range(filename, first + 1, end);
    proof {
        let rest = filename@.subrange(first + 1, filename@.len() as int);
        lemma_first_dot_shift(filename@, first + 1);
        lemma_first_dot_bound(rest, 0);
        lemma_first_dot_bound(filename@, 0);
        match first_dot(rest, 0) {
            Some(j) => {
                assert(field@ =~= rest.subrange(0, j));
            },
            None => {
                assert(field@ =~= rest);
            },
        }
        assert(second_field(filename@) == Some(field@));
    }
    parse_ts(field.as_slice())
}

/// The timestamp of an SSTable file name, if it has one.
pub fn sstable_timestamp(filename: &[u8]) -> (r: Option<u128>)
    ensures
        r == sstable_ts(filename@),
{
    let _len = filename.len();
    let found = find_dot(filename, 0);
    let end = if found.is_some() {
        found.unwrap()
    } else {
        filename.len()
    };
    let field = copy_range(filename, 0, end);
    proof {
        lemma_first_dot_bound(filename@, 0);
        match first_dot(filename@, 0) {
            Some(i) => {
                assert(end == i);
                assert(field@ =~= filename@.subrange(0, i));
            },
            None => {
                assert(field@ =~= filename@);
            },
        }
        assert(first_field(filename@) == field@);
    }
    parse_ts(field.as_slice())
}

impl WalArtifact {
    /// Reads the timestamp from `wal.<ts>.log`.
    pub fn new(filename: Vec<u8>) -> (r: WalArtifact)
        requires
            wal_ts(filename@) is Some,
        ensures
            r.filename@ == filename@,
            Some(r.ts) == wal_ts(filename@),
    {
        let ts = wal_timestamp(filename.as_slice()).unwrap();
        WalArtifact { filename, ts }
    }
}

impl SSTableArtifact {
    /// Reads the timestamp from `<ts>.sstable`.
    pub fn new(filename: Vec<u8>) -> (r: SSTableArtifact)
        requires
            sstable_ts(filename@) is Some,
        ensures
            r.filename@ == filename@,
            Some(r.ts) == sstable_ts(filename@),
    {
        let ts = sstable_timestamp(filename.as_slice()).unwrap();
        SSTableArtifact { filename, ts }
    }
}

/// A dot found lies at or after where the search began.
proof fn lemma_first_dot_bound(s: Seq<u8>, k: int)
    requires
        0 <= k,
    ensures
        first_dot(s, k) matches Some(i) ==> k <= i < s.len() && s[i] == 46,
    decreases s.len() - k,
{
    if k < s.len() && s[k] != 46 {
        lemma_first_dot_bound(s, k + 1);
    }
}

/// The first dot after a prefix, counted in the rest.
proof fn lemma_first_dot_shift(s: Seq<u8>, k: int)
    requires
        0 <= k <= s.len(),
    ensures
        first_dot(s, k) == match first_dot(s.subrange(k, s.len() as int), 0) {
            Some(j) => Some(j + k),
            None => None::<int>,
        },
{
    lemma_first_dot_shift_at(s, k, 0);
}

proof fn lemma_first_dot_shift_at(s: Seq<u8>, k: int, j: int)
    requires
        0 <= k <= s.len(),
        0 <= j,
    ensures
        first_dot(s, k + j) == match first_dot(s.subrange(k, s.len() as int), j) {
            Some(x) => Some(x + k),
            None => None::<int>,
        },
    decreases s.len() - (k + j),
{
    if k + j < s.len() {
        assert(s.subrange(k, s.len() as int)[j] == s[k + j]);
        lemma_first_dot_shift_at(s, k, j + 1);
    }
}

// ---------------------------------------------------------------------------
// Restart state
// ---------------------------------------------------------------------------

/// The WAL files among the names, in their order, with their timestamps.
pub open spec fn wal_files(names: Seq<Seq<u8>>) -> Seq<(Seq<u8>, u128)>
    decreases names.len(),
{
    if names.len() == 0 {
        Seq::empty()
    } else {
        let rest = wal_files(names.drop_last());
        let n = names.last();
        if file_kind(n) == Some(DatabaseFile::Wal) {
            rest.push((n, wal_ts(n)->0))
        } else {
            rest
        }
    }
}

/// The SSTable files among the names, in their order, with their
/// timestamps.
pub open spec fn sstable_files(names: Seq<Seq<u8>>) -> Seq<(Seq<u8>, u128)>
    decreases names.len(),
{
    if names.len() == 0 {
        Seq::empty()
    } else {
        let rest = sstable_files(names.drop_last());
        let n = names.last();
        if file_kind(n) == Some(DatabaseFile::SSTable) {
            rest.push((n, sstable_ts(n)->0))
        } else {
            rest
        }
    }
}

/// Timestamps never decrease along the list.
pub open spec fn ts_ascending(s: Seq<(Seq<u8>, u128)>) -> bool {
    forall|i: int, j: int| 0 <= i < j < s.len() ==> (#[trigger] s[i]).1 <= (#[trigger] s[j]).1
}

/// Timestamps never increase along the list.
pub open spec fn ts_descending(s: Seq<(Seq<u8>, u128)>) -> bool {
    forall|i: int, j: int| 0 <= i < j < s.len() ==> (#[trigger] s[i]).1 >= (#[trigger] s[j]).1
}

/// The WAL artifacts as values.
pub open spec fn wal_views(ws: Seq<WalArtifact>) -> Seq<(Seq<u8>, u128)> {
    ws.map_values(|a: WalArtifact| a@)
}

/// The SSTable artifacts as values.
pub open spec fn sstable_views(ts: Seq<SSTableArtifact>) -> Seq<(Seq<u8>, u128)> {
    ts.map_values(|a: SSTableArtifact| a@)
}

/// Whether an entry carries the timestamp `v`.
pub open spec fn ts_pred(v: u128) -> spec_fn((Seq<u8>, u128)) -> bool {
    |e: (Seq<u8>, u128)| e.1 == v
}

/// The entries with timestamp `v`, in their order.
pub open spec fn with_ts(s: Seq<(Seq<u8>, u128)>, v: u128) -> Seq<(Seq<u8>, u128)> {
    s.filter(ts_pred(v))
}

/// Inserting `x` before entries whose timestamps all differ from its own
/// puts it last among the entries with its timestamp.
proof fn lemma_with_ts_insert(before: Seq<(Seq<u8>, u128)>, pos: int, x: (Seq<u8>, u128), v: u128)
    requires
        0 <= pos <= before.len(),
        forall|j: int| pos <= j < before.len() ==> (#[trigger] before[j]).1 != x.1,
    ensures
        with_ts(before.insert(pos, x), v) == if x.1 == v {
            with_ts(before, v).push(x)
        } else {
            with_ts(before, v)
        },
{
    broadcast use vstd::seq_lib::group_seq_properties;
    let a = before.subrange(0, pos);
    let b = before.subrange(pos, before.len() as int);
    let p = ts_pred(v);
    assert(before =~= a + b);
    assert(before.insert(pos, x) =~= a.push(x) + b);
    Seq::filter_distributes_over_add(a.push(x), b, p);
    Seq::filter_distributes_over_add(a, b, p);
    a.lemma_filter_push(x, p);
    if x.1 == v {
        assert(b.all(|e: (Seq<u8>, u128)| !p(e))) by {
            assert forall|j: int| 0 <= j < b.len() implies !p(#[trigger] b[j]) by {
                assert(b[j] == before[pos + j]);
            }
        }
        b.lemma_all_neg_filter_empty(p);
        assert(b.filter(p) =~= Seq::<(Seq<u8>, u128)>::empty());
        assert(a.filter(p) + b.filter(p) =~= a.filter(p));
        assert(a.filter(p).push(x) + b.filter(p) =~= a.filter(p).push(x));
    }
}

/// Sorts the SSTable files and the WAL files found among the names of a
/// directory: tables newest first, logs oldest first. Files of neither kind
/// are left out.
pub fn get_restart_state(names: Vec<Vec<u8>>) -> (r: (Vec<SSTableArtifact>, Vec<WalArtifact>))
    ensures
        ts_descending(r.0@.map_values(|a: SSTableArtifact| a@)),
        r.0@.map_values(|a: SSTableArtifact| a@).to_multiset() == sstable_files(
            names@.map_values(|n: Vec<u8>| n@),
        ).to_multiset(),
        ts_ascending(r.1@.map_values(|a: WalArtifact| a@)),
        r.1@.map_values(|a: WalArtifact| a@).to_multiset() == wal_files(
            names@.map_values(|n: Vec<u8>| n@),
        ).to_multiset(),
        forall|v: u128|
            #[trigger] with_ts(sstable_views(r.0@), v) == with_ts(
                sstable_files(names@.map_values(|n: Vec<u8>| n@)),
                v,
            ),
        forall|v: u128|
            #[trigger] with_ts(wal_views(r.1@), v) == with_ts(
                wal_files(names@.map_values(|n: Vec<u8>| n@)),
                v,
            ),
{
    let ghost ns = names@.map_values(|n: Vec<u8>| n@);
    let mut wals: Vec<WalArtifact> = Vec::new();
    let mut tables: Vec<SSTableArtifact> = Vec::new();
    let mut i: usize = 0;
    while i < names.len()
        invariant
            i <= names@.len(),
            ns == names@.map_values(|n: Vec<u8>| n@),
            ts_descending(tables@.map_values(|a: SSTableArtifact| a@)),
            tables@.map_values(|a: SSTableArtifact| a@).to_multiset() == sstable_files(ns.subrange(0, i as int)).to_multiset(),
            ts_ascending(wals@.map_values(|a: WalArtifact| a@)),
            wals@.map_values(|a: WalArtifact| a@).to_multiset() == wal_files(ns.subrange(0, i as int)).to_multiset(),
            forall|v: u128|
                #[trigger] with_ts(sstable_views(tables@), v) == with_ts(
                    sstable_files(ns.subrange(0, i as int)),
                    v,
                ),
            forall|v: u128|
                #[trigger] with_ts(wal_views(wals@), v) == with_ts(
                    wal_files(ns.subrange(0, i as int)),
                    v,
                ),
        decreases names.len() - i,
    {
        let name = copy_range(names[i].as_slice(), 0, names[i].len());
        proof {
            assert(name@ =~= names@[i as int]@);
            assert(ns.subrange(0, i + 1).drop_last() =~= ns.subrange(0, i as int));
            assert(ns.subrange(0, i + 1).last() == name@);
        }
        match DatabaseFile::from_path(name.as_slice()) {
            Some(DatabaseFile::Wal) => {
                let w = WalArtifact::new(name);
                let ghost wv = w@;
                let ghost before = wals@;
                insert_wal(&mut wals, w);
                proof {
                    assert(wal_files(ns.subrange(0, i + 1)) == wal_files(ns.subrange(0, i as int)).push(wv));
                    assert forall|v: u128| #[trigger] with_ts(wal_views(wals@), v) == with_ts(
                        wal_files(ns.subrange(0, i + 1)),
                        v,
                    ) by {
                        assert(with_ts(wal_views(before), v) == with_ts(wal_files(ns.subrange(0, i as int)), v));
                        wal_files(ns.subrange(0, i as int)).lemma_filter_push(wv, ts_pred(v));
                    }
                }
            },
            Some(DatabaseFile::SSTable) => {
                let t = SSTableArtifact::new(name);
                let ghost tv = t@;
                let ghost before = tables@;
                insert_sstable(&mut tables, t);
                proof {
                    assert(sstable_files(ns.subrange(0, i + 1)) == sstable_files(ns.subrange(0, i as int)).push(tv));
                    assert forall|v: u128| #[trigger] with_ts(sstable_views(tables@), v) == with_ts(
                        sstable_files(ns.subrange(0, i + 1)),
                        v,
                    ) by {
                        assert(with_ts(sstable_views(before), v) == with_ts(sstable_files(ns.subrange(0, i as int)), v));
                        sstable_files(ns.subrange(0, i as int)).lemma_filter_push(tv, ts_pred(v));
                    }
                }
            },
            None => {},
        }
        i = i + 1;
    }
    proof {
        assert(ns.subrange(0, names@.len() as int) =~= ns);
    }
    (tables, wals)
}

/// Puts a WAL file after every file with a timestamp at most its own.
fn insert_wal(wals: &mut Vec<WalArtifact>, w: WalArtifact)
    requires
        ts_ascending(old(wals)@.map_values(|a: WalArtifact| a@)),
    ensures
        ts_ascending(final(wals)@.map_values(|a: WalArtifact| a@)),
        final(wals)@.map_values(|a: WalArtifact| a@).to_multiset() == old(wals)@.map_values(
            |a: WalArtifact| a@,
        ).to_multiset().insert(w@),
        forall|v: u128|
            #[trigger] with_ts(wal_views(final(wals)@), v) == if w.ts == v {
                with_ts(old(wals)@.map_values(|a: WalArtifact| a@), v).push(w@)
            } else {
                with_ts(old(wals)@.map_values(|a: WalArtifact| a@), v)
            },
{
    let mut pos: usize = wals.len();
    while pos > 0 && wals[pos - 1].ts > w.ts
        invariant
            pos <= wals@.len(),
            wals@ == old(wals)@,
            forall|j: int| pos <= j < wals@.len() ==> wals@[j].ts > w.ts,
        decreases pos,
    {
        pos = pos - 1;
    }
    let ghost before = wals@.map_values(|a: WalArtifact| a@);
    let ghost wv = w@;
    wals.insert(pos, w);
    proof {
        let after = wals@.map_values(|a: WalArtifact| a@);
        assert(after =~= before.insert(pos as int, wv));
        assert forall|v: u128| #[trigger] with_ts(after, v) == if wv.1 == v {
            with_ts(before, v).push(wv)
        } else {
            with_ts(before, v)
        } by {
            lemma_with_ts_insert(before, pos as int, wv, v);
        }
        assert forall|x: int, y: int| 0 <= x < y < after.len() implies (#[trigger] after[x]).1 <= (
        #[trigger] after[y]).1 by {
            if x < pos && y > pos {
                assert(after[x] == before[x] && after[y] == before[y - 1]);
            } else if x < pos && y == pos {
                assert(after[x] == before[x]);
                if pos > 0 {
                    assert(before[pos - 1].1 <= wv.1);
                    if x < pos - 1 {
                        assert(before[x].1 <= before[pos - 1].1);
                    }
                }
            } else if x == pos {
                assert(after[y] == before[y - 1]);
            } else if y < pos {
                assert(after[x] == before[x] && after[y] == before[y]);
            } else {
                assert(after[x] == before[x - 1] && after[y] == before[y - 1]);
            }
        }
    }
}

/// Puts an SSTable file after every file with a timestamp at least its own.
fn insert_sstable(tables: &mut Vec<SSTableArtifact>, t: SSTableArtifact)
    requires
        ts_descending(old(tables)@.map_values(|a: SSTableArtifact| a@)),
    ensures
        ts_descending(final(tables)@.map_values(|a: SSTableArtifact| a@)),
        final(tables)@.map_values(|a: SSTableArtifact| a@).to_multiset() == old(tables)@.map_values(
            |a: SSTableArtifact| a@,
        ).to_multiset().insert(t@),
        forall|v: u128|
            #[trigger] with_ts(sstable_views(final(tables)@), v) == if t.ts == v {
                with_ts(old(tables)@.map_values(|a: SSTableArtifact| a@), v).push(t@)
            } else {
                with_ts(old(tables)@.map_values(|a: SSTableArtifact| a@), v)
            },
{
    let mut pos: usize = tables.len();
    while pos > 0 && tables[pos - 1].ts < t.ts
        invariant
            pos <= tables@.len(),
            tables@ == old(tables)@,
            forall|j: int| pos <= j < tables@.len() ==> tables@[j].ts < t.ts,
        decreases pos,
    {
        pos = pos - 1;
    }
    let ghost before = tables@.map_values(|a: SSTableArtifact| a@);
    let ghost tv = t@;
    tables.insert(pos, t);
    proof {
        let after = tables@.map_values(|a: SSTableArtifact| a@);
        assert(after =~= before.insert(pos as int, tv));
        assert forall|v: u128| #[trigger] with_ts(after, v) == if tv.1 == v {
            with_ts(before, v).push(tv)
        } else {
            with_ts(before, v)
        } by {
            lemma_with_ts_insert(before, pos as int, tv, v);
        }
        assert forall|x: int, y: int| 0 <= x < y < after.len() implies (#[trigger] after[x]).1 >= (
        #[trigger] after[y]).1 by {
            if x < pos && y > pos {
                assert(after[x] == before[x] && after[y] == before[y - 1]);
            } else if x < pos && y == pos {
                assert(after[x] == before[x]);
                if pos > 0 {
                    assert(before[pos - 1].1 >= tv.1);
                    if x < pos - 1 {
                        assert(before[x].1 >= before[pos - 1].1);
                    }
                }
            } else if x == pos {
                assert(after[y] == before[y - 1]);
            } else if y < pos {
                assert(after[x] == before[x] && after[y] == before[y]);
            } else {
                assert(after[x] == before[x - 1] && after[y] == before[y - 1]);
            }
        }
    }
}

// ---------------------------------------------------------------------------
// Names read back
// ---------------------------------------------------------------------------

proof fn lemma_decimal(v: nat)
    ensures
        all_digits(decimal_bytes(v)),
        decimal_bytes(v).len() >= 1,
        dec_value(decimal_bytes(v)) == v,
    decreases v,
{
    let d = decimal_bytes(v);
    if v >= 10 {
        lemma_decimal(v / 10);
        assert(d.drop_last() =~= decimal_bytes(v / 10));
        assert(d.last() == (48 + v % 10) as u8);
        assert((48 + v % 10) as u8 - 48 == v % 10);
        assert(v == (v / 10) * 10 + v % 10);
        assert forall|i: int| 0 <= i < d.len() implies is_digit(#[trigger] d[i]) by {
            if i < d.len() - 1 {
                assert(d[i] == decimal_bytes(v / 10)[i]);
            }
        }
    } else {
        assert(d.drop_last() =~= Seq::<u8>::empty());
        assert(d.last() == (48 + v) as u8);
        assert(dec_value(d) == dec_value(d.drop_last()) * 10 + (d.last() - 48) as nat);
    }
}

/// Bytes without a dot are skipped by the search for the first dot.
proof fn lemma_first_dot_skip(s: Seq<u8>, k: int, j: int)
    requires
        0 <= k <= j <= s.len(),
        forall|x: int| k <= x < j ==> s[x] != 46,
    ensures
        first_dot(s, k) == first_dot(s, j),
    decreases j - k,
{
    if k < j {
        lemma_first_dot_skip(s, k + 1, j);
    }
}

/// Bytes without a dot are skipped by the search for the last dot.
proof fn lemma_last_dot_skip(s: Seq<u8>, k: int, j: int)
    requires
        0 <= k <= j <= s.len(),
        forall|x: int| k <= x < j ==> s[x] != 46,
    ensures
        last_dot_before(s, j) == last_dot_before(s, k),
    decreases j - k,
{
    if k < j {
        lemma_last_dot_skip(s, k, j - 1);
    }
}

proof fn lemma_wal_name_ts(ts: u128)
    ensures
        wal_ts(crate::util::wal_file_name(ts)) == Some(ts),
{
    let d = decimal_bytes(ts as nat);
    let w = crate::util::wal_file_name(ts);
    lemma_decimal(ts as nat);
    let n = w.len() as int;
    assert(w[3] == 46);
    assert forall|x: int| 0 <= x < 3 implies w[x] != 46 by {}
    lemma_first_dot_skip(w, 0, 3);
    let rest = w.subrange(4, n);
    assert(rest =~= d + seq![46u8, 108u8, 111u8, 103u8]);
    assert forall|x: int| 0 <= x < d.len() implies rest[x] != 46 by {
        assert(rest[x] == d[x]);
        assert(is_digit(d[x]));
    }
    lemma_first_dot_skip(rest, 0, d.len() as int);
    assert(rest[d.len() as int] == 46);
    assert(rest.subrange(0, d.len() as int) =~= d);
    assert(is_digit(d[0]));
    assert(unsigned_body(d) == d);
}

#[verifier::rlimit(40)]
proof fn lemma_wal_name_kind(ts: u128)
    ensures
        extension_kind(crate::util::wal_file_name(ts)) == Some(DatabaseFile::Wal),
        first_field(crate::util::wal_file_name(ts)) == seq![119u8, 97u8, 108u8],
{
    let d = decimal_bytes(ts as nat);
    let w = crate::util::wal_file_name(ts);
    lemma_decimal(ts as nat);
    let n = w.len() as int;
    assert(w[n - 4] == 46);
    assert forall|x: int| n - 3 <= x < n implies w[x] != 46 by {}
    lemma_last_dot_skip(w, n - 3, n);
    assert(last_dot_before(w, n - 3) == Some(n - 4));
    assert(w.subrange(n - 3, n) =~= seq![108u8, 111u8, 103u8]);
    assert(w.subrange(0, 3) =~= seq![119u8, 97u8, 108u8]);
    assert(w.len() != 2);
    assert(extension(w) == Some(seq![108u8, 111u8, 103u8]));
    assert(seq![108u8, 111u8, 103u8] != seq![115u8, 115u8, 116u8, 97u8, 98u8, 108u8, 101u8]);
    assert(w[3] == 46);
    assert forall|x: int| 0 <= x < 3 implies w[x] != 46 by {}
    lemma_first_dot_skip(w, 0, 3);
}

/// The name of a new WAL file is found as a WAL file again, with the same
/// timestamp.
pub proof fn law_wal_name_roundtrip(ts: u128)
    ensures
        file_kind(crate::util::wal_file_name(ts)) == Some(DatabaseFile::Wal),
        wal_ts(crate::util::wal_file_name(ts)) == Some(ts),
{
    lemma_wal_name_ts(ts);
    lemma_wal_name_kind(ts);
}

/// The name of a new SSTable file is found as an SSTable file again, with
/// the same timestamp.
pub proof fn law_sstable_name_roundtrip(ts: u128)
    ensures
        file_kind(crate::util::sstable_file_name(ts)) == Some(DatabaseFile::SSTable),
        sstable_ts(crate::util::sstable_file_name(ts)) == Some(ts),
{
    let d = crate::util::decimal_bytes(ts as nat);
    let s = crate::util::sstable_file_name(ts);
    lemma_decimal(ts as nat);
    let n = s.len() as int;
    assert forall|x: int| 0 <= x < d.len() implies s[x] != 46 by {
        assert(s[x] == d[x]);
        assert(is_digit(d[x]));
    }
    lemma_first_dot_skip(s, 0, d.len() as int);
    assert(s[d.len() as int] == 46);
    assert(s.subrange(0, d.len() as int) =~= d);
    assert(unsigned_body(d) == d);
    lemma_last_dot_skip(s, d.len() as int + 1, n);
    assert(s.subrange(d.len() as int + 1, n) =~= seq![115u8, 115u8, 116u8, 97u8, 98u8, 108u8, 101u8]);
    assert(s != seq![46u8, 46u8]);
}

} // verus!
