use vstd::prelude::*;

verus! {

/// A snapshot file is rolled over to the next version once it reaches this size (64 MiB).
pub const MAX_FILE_SIZE_BYTES: u64 = 67108864;

/// The decimal digits of `n`.
pub open spec fn decimal(n: nat) -> Seq<char>
    decreases n,
{
    if n < 10 {
        seq![((48 + n) as u8) as char]
    } else {
        decimal(n / 10).push(((48 + n % 10) as u8) as char)
    }
}

/// The little-endian bytes of `x`.
pub open spec fn le_bytes(x: u64) -> Seq<u8> {
    Seq::new(8, |i: int| ((x >> ((8 * i) as u64)) & 0xffu64) as u8)
}

/// The `u64` whose little-endian bytes are `b[0..8]`.
pub open spec fn le_value(b: Seq<u8>) -> u64 {
    (b[0] as u64) | ((b[1] as u64) << 8u64) | ((b[2] as u64) << 16u64) | ((b[3] as u64) << 24u64) | ((b[4] as u64)
        << 32u64) | ((b[5] as u64) << 40u64) | ((b[6] as u64) << 48u64) | ((b[7] as u64) << 56u64)
}

/// A record as a snapshot file holds it: its length as 8 little-endian bytes, then
/// its bytes.
pub open spec fn framed(payload: Seq<u8>) -> Seq<u8> {
    le_bytes(payload.len() as u64) + payload
}

/// The records of a snapshot file, front to back; `None` when the file ends
/// inside a record. Fewer than 8 bytes left over at the end are ignored.
pub open spec fn parse_records(d: Seq<u8>) -> Option<Seq<Seq<u8>>>
    decreases d.len(),
{
    if d.len() < 8 {
        Some(seq![])
    } else {
        let n = le_value(d.take(8)) as int;
        if d.len() - 8 < n {
            None
        } else {
            match parse_records(d.skip(8 + n)) {
                Some(rs) => Some(seq![d.subrange(8, 8 + n)] + rs),
                None => None,
            }
        }
    }
}

/// The file name of version `v` of the snapshots of `name`.
pub open spec fn file_part(name: Seq<char>, v: nat) -> Seq<char> {
    name + seq!['-'] + decimal(v) + seq!['.', 'd', 'a', 't']
}

/// `path` pushed onto the directory `dir`, as `PathBuf::join` does on Unix: an
/// absolute `path` replaces `dir`; otherwise a `/` goes between them unless `dir`
/// is empty or already ends in one.
pub open spec fn joined(dir: Seq<char>, path: Seq<char>) -> Seq<char> {
    if path.len() > 0 && path[0] == '/' {
        path
    } else if dir.len() == 0 || dir.last() == '/' {
        dir + path
    } else {
        dir + seq!['/'] + path
    }
}

/// The file that version `v` of the snapshots of `name` goes to under `dir`.
pub open spec fn snapshot_file(dir: Seq<char>, name: Seq<char>, v: nat) -> Seq<char> {
    joined(dir, file_part(name, v))
}

/// `format!("{}-{}.dat", name, v)`.
#[verifier::external_body]
fn format_file(name: &str, v: usize) -> (r: String)
    ensures
        r@ == file_part(name@, v as nat),
{
    format!("{}-{}.dat", name, v)
}

/// Joins a file name onto a directory path as `joined` says.
fn join_path(dir: &str, path: &str) -> (r: String)
    ensures
        r@ == joined(dir@, path@),
{
    let d = crate::client::str_chars(dir);
    let p = crate::client::str_chars(path);
    if p.len() > 0 && p[0] == '/' {
        return crate::client::string_of_chars(p.as_slice());
    }
    let mut out: Vec<char> = Vec::new();
    let mut i: usize = 0;
    while i < d.len()
        invariant
            i <= d@.len(),
            out@ == d@.take(i as int),
        decreases d@.len() - i,
    {
        out.push(d[i]);
        proof {
            assert(d@.take(i + 1) =~= d@.take(i as int).push(d@[i as int]));
        }
        i = i + 1;
    }
    proof {
        assert(d@.take(i as int) =~= d@);
    }
    if d.len() > 0 && d[d.len() - 1] != '/' {
        out.push('/');
    }
    let ghost base = out@;
    let mut k: usize = 0;
    while k < p.len()
        invariant
            k <= p@.len(),
            out@ == base + p@.take(k as int),
        decreases p@.len() - k,
    {
        out.push(p[k]);
        proof {
            assert(p@.take(k + 1) =~= p@.take(k as int).push(p@[k as int]));
            assert(base + p@.take(k + 1) =~= (base + p@.take(k as int)).push(p@[k as int]));
        }
        k = k + 1;
    }
    proof {
        assert(p@.take(k as int) =~= p@);
        if d@.len() > 0 && d@.last() != '/' {
            assert(base =~= d@ + seq!['/']);
        } else {
            assert(base =~= d@);
        }
    }
    crate::client::string_of_chars(out.as_slice())
}

/// `u64::to_le_bytes`.
#[verifier::external_body]
fn u64_to_le_bytes(x: u64) -> (r: [u8; 8])
    ensures
        r@ == le_bytes(x),
{
    x.to_le_bytes()
}

/// `u64::from_le_bytes`.
#[verifier::external_body]
fn u64_from_le_bytes(b: [u8; 8]) -> (r: u64)
    ensures
        r == le_value(b@),
{
    u64::from_le_bytes(b)
}

/// Why a snapshot file cannot be read.
#[derive(Debug, Clone, Copy, PartialEq, Eq, Structural)]
pub enum SnapshotError {
    /// The file ends inside a record.
    Truncated,
}

/// Writes snapshots of named state under a directory, one file per name and
/// version; each name's version moves on when its file grows too large.
#[derive(Debug)]
pub struct SnapshotJob {
    snapshot_dir: String,
    version: Vec<(String, usize)>,
}

impl Clone for SnapshotJob {
    fn clone(&self) -> (r: Self)
        ensures
            r@ == self@,
            self.wf() ==> r.wf(),
    {
        let mut version: Vec<(String, usize)> = Vec::new();
        let mut i: usize = 0;
        while i < self.version.len()
            invariant
                i <= self.version@.len(),
                version@ == self.version@.take(i as int),
            decreases self.version@.len() - i,
        {
            version.push((self.version[i].0.clone(), self.version[i].1));
            proof {
                assert(self.version@.take(i + 1) =~= self.version@.take(i as int).push(self.version@[i as int]));
            }
            i = i + 1;
        }
        proof {
            assert(self.version@.take(i as int) =~= self.version@);
        }
        SnapshotJob { snapshot_dir: self.snapshot_dir.clone(), version }
    }
}

/// The snapshot directory and the current version of each name.
pub struct SnapshotView {
    pub dir: Seq<char>,
    pub versions: Map<Seq<char>, usize>,
}

pub open spec fn version_map(v: Seq<(String, usize)>) -> Map<Seq<char>, usize>
    decreases v.len(),
{
    if v.len() == 0 {
        Map::empty()
    } else {
        version_map(v.drop_last()).insert(v.last().0@, v.last().1)
    }
}

impl View for SnapshotJob {
    type V = SnapshotView;

    closed spec fn view(&self) -> SnapshotView {
        SnapshotView { dir: self.snapshot_dir@, versions: version_map(self.version@) }
    }
}

/// The version that snapshots of `name` are written to now: 0 until it has one.
pub open spec fn current_version(j: SnapshotView, name: Seq<char>) -> nat {
    if j.versions.contains_key(name) {
        j.versions[name] as nat
    } else {
        0
    }
}

impl SnapshotJob {
    /// No two entries share a name.
    pub closed spec fn wf(&self) -> bool {
        names_distinct(self.version@)
    }

    /// Snapshots under `./snapshots`, every name at version 0.
    pub fn new() -> (r: Self)
        ensures
            r.wf(),
            r@.dir == seq!['.', '/', 's', 'n', 'a', 'p', 's', 'h', 'o', 't', 's'],
            r@.versions == Map::<Seq<char>, usize>::empty(),
    {
        let dir = String::from_str("./snapshots");
        proof {
            reveal_strlit("./snapshots");
        }
        let r = Self { snapshot_dir: dir, version: Vec::new() };
        proof {
            assert(r@.dir =~= seq!['.', '/', 's', 'n', 'a', 'p', 's', 'h', 'o', 't', 's']);
        }
        r
    }

    /// The file that version `v` of `name_ref` is written to.
    pub fn construct_fname(&self, name_ref: &str, v: usize) -> (r: String)
        ensures
            r@ == snapshot_file(self@.dir, name_ref@, v as nat),
    {
        let file = format_file(name_ref, v);
        join_path(self.snapshot_dir.as_str(), file.as_str())
    }
}

pub open spec fn names_distinct(v: Seq<(String, usize)>) -> bool {
    forall|i: int, j: int| 0 <= i < j < v.len() ==> #[trigger] v[i].0@ != #[trigger] v[j].0@
}

proof fn lemma_version_map(v: Seq<(String, usize)>)
    requires
        names_distinct(v),
    ensures
        forall|k: Seq<char>|
            #[trigger] version_map(v).contains_key(k) <==> exists|i: int| 0 <= i < v.len() && #[trigger] v[i].0@ == k,
        forall|i: int| 0 <= i < v.len() ==> version_map(v)[#[trigger] v[i].0@] == v[i].1,
    decreases v.len(),
{
    if v.len() > 0 {
        let w = v.drop_last();
        assert(names_distinct(w)) by {
            assert forall|i: int, j: int| 0 <= i < j < w.len() implies #[trigger] w[i].0@ != #[trigger] w[j].0@ by {
                assert(w[i] == v[i] && w[j] == v[j]);
            }
        }
        lemma_version_map(w);
        assert forall|k: Seq<char>| #[trigger] version_map(v).contains_key(k) <==> exists|i: int|
            0 <= i < v.len() && #[trigger] v[i].0@ == k by {
            if version_map(v).contains_key(k) && k != v.last().0@ {
                assert(version_map(w).contains_key(k));
                let i = choose|i: int| 0 <= i < w.len() && #[trigger] w[i].0@ == k;
                assert(v[i] == w[i]);
                assert(0 <= i < v.len() && v[i].0@ == k);
            }
            if version_map(v).contains_key(k) && k == v.last().0@ {
                assert(v[v.len() - 1].0@ == k);
            }
            if exists|i: int| 0 <= i < v.len() && #[trigger] v[i].0@ == k {
                let i = choose|i: int| 0 <= i < v.len() && #[trigger] v[i].0@ == k;
                if i < v.len() - 1 {
                    assert(w[i] == v[i]);
                }
            }
        }
        assert forall|i: int| 0 <= i < v.len() implies version_map(v)[#[trigger] v[i].0@] == v[i].1 by {
            if i < v.len() - 1 {
                assert(w[i] == v[i]);
                assert(v[i].0@ != v[v.len() - 1].0@);
            }
        }
    }
}

/// Finds the entry for `name`.
fn find_name(v: &Vec<(String, usize)>, name: &String) -> (r: Option<usize>)
    ensures
        match r {
            Some(i) => i < v@.len() && v@[i as int].0@ == name@,
            None => forall|i: int| 0 <= i < v@.len() ==> #[trigger] v@[i].0@ != name@,
        },
{
    let mut i: usize = 0;
    while i < v.len()
        invariant
            i <= v@.len(),
            forall|j: int| 0 <= j < i ==> #[trigger] v@[j].0@ != name@,
        decreases v@.len() - i,
    {
        if v[i].0 == *name {
            return Some(i);
        }
        i = i + 1;
    }
    None
}

impl SnapshotJob {
    /// Sets the version of `name` to `x`.
    fn set_version(&mut self, key: String, x: usize, found: Option<usize>)
        requires
            old(self).wf(),
            match found {
                Some(i) => i < old(self).version@.len() && old(self).version@[i as int].0@ == key@,
                None => forall|i: int| 0 <= i < old(self).version@.len() ==> #[trigger] old(self).version@[i].0@ != key@,
            },
        ensures
            final(self).wf(),
            final(self)@.dir == old(self)@.dir,
            final(self)@.versions == old(self)@.versions.insert(key@, x),
    {
        let ghost old_v = self.version@;
        let ghost k = key@;
        proof {
            lemma_version_map(old_v);
        }
        match found {
            Some(i) => {
                self.version.set(i, (key, x));
            },
            None => {
                self.version.push((key, x));
            },
        }
        proof {
            let new_v = self.version@;
            assert(names_distinct(new_v)) by {
                assert forall|a: int, b: int| 0 <= a < b < new_v.len() implies #[trigger] new_v[a].0@
                    != #[trigger] new_v[b].0@ by {
                    if a < old_v.len() && b < old_v.len() {
                        if found is Some {
                            let i = found.unwrap() as int;
                            if a == i {
                                assert(old_v[b].0@ != old_v[i].0@);
                            } else if b == i {
                                assert(old_v[a].0@ != old_v[i].0@);
                            } else {
                                assert(new_v[a] == old_v[a] && new_v[b] == old_v[b]);
                            }
                        } else {
                            assert(new_v[a] == old_v[a] && new_v[b] == old_v[b]);
                        }
                    } else {
                        assert(new_v[a] == old_v[a]);
                    }
                }
            }
            lemma_version_map(new_v);
            assert(version_map(new_v) =~= version_map(old_v).insert(k, x)) by {
                assert forall|q: Seq<char>| #[trigger] version_map(new_v).contains_key(q) <==> version_map(old_v).insert(
                    k,
                    x,
                ).contains_key(q) by {
                    if version_map(new_v).contains_key(q) && q != k {
                        let j = choose|j: int| 0 <= j < new_v.len() && #[trigger] new_v[j].0@ == q;
                        assert(old_v[j] == new_v[j]);
                    }
                    if version_map(old_v).contains_key(q) && q != k {
                        let j = choose|j: int| 0 <= j < old_v.len() && #[trigger] old_v[j].0@ == q;
                        assert(old_v[j] == new_v[j]);
                    }
                    if q == k {
                        let j = if found is Some { found.unwrap() as int } else { old_v.len() as int };
                        assert(new_v[j].0@ == k);
                    }
                }
                assert forall|q: Seq<char>| #[trigger] version_map(new_v).contains_key(q) implies version_map(new_v)[q]
                    == version_map(old_v).insert(k, x)[q] by {
                    let j = choose|j: int| 0 <= j < new_v.len() && #[trigger] new_v[j].0@ == q;
                    if q != k {
                        assert(old_v[j] == new_v[j]);
                    }
                }
            }
        }
    }

    /// The current version of `name`, which becomes 0 when it has none yet.
    pub fn version_for(&mut self, name: &str) -> (r: usize)
        requires
            old(self).wf(),
        ensures
            final(self).wf(),
            final(self)@.dir == old(self)@.dir,
            r == (if old(self)@.versions.contains_key(name@) { old(self)@.versions[name@] } else { 0 }),
            final(self)@.versions == old(self)@.versions.insert(name@, r),
    {
        let key = String::from_str(name);
        proof {
            lemma_version_map(self.version@);
        }
        let found = find_name(&self.version, &key);
        let x = match found {
            Some(i) => self.version[i].1,
            None => 0,
        };
        self.set_version(key, x, found);
        x
    }

    /// Moves `name` on to its next version (0 when it has none yet), and returns it.
    pub fn bump_version(&mut self, name: &str) -> (r: usize)
        requires
            old(self).wf(),
            old(self)@.versions.contains_key(name@) ==> old(self)@.versions[name@] < usize::MAX,
        ensures
            final(self).wf(),
            final(self)@.dir == old(self)@.dir,
            r == (if old(self)@.versions.contains_key(name@) { old(self)@.versions[name@] + 1 } else { 0 }),
            final(self)@.versions == old(self)@.versions.insert(name@, r),
    {
        let key = String::from_str(name);
        proof {
            lemma_version_map(self.version@);
        }
        let found = find_name(&self.version, &key);
        let x = match found {
            Some(i) => self.version[i].1 + 1,
            None => 0,
        };
        self.set_version(key, x, found);
        x
    }

    /// The version that snapshots of `name` are written to now, without recording it.
    pub fn version_of(&self, name: &str) -> (r: usize)
        requires
            self.wf(),
        ensures
            r == current_version(self@, name@),
    {
        let key = String::from_str(name);
        proof {
            lemma_version_map(self.version@);
        }
        match find_name(&self.version, &key) {
            Some(i) => self.version[i].1,
            None => 0,
        }
    }

    /// The file that `load_last` reads for `name`: the file of its current version,
    /// which is the one the last snapshot of `name` was appended to.
    pub fn last_fname(&self, name: &str) -> (r: String)
        requires
            self.wf(),
        ensures
            r@ == snapshot_file(self@.dir, name@, current_version(self@, name@)),
    {
        let v = self.version_of(name);
        self.construct_fname(name, v)
    }
}

/// The file read back for a name is the file the last snapshot of it went to: a
/// save settles the version it appends to with `version_for` and then, while the
/// file is full, `bump_version`; each records the version it returns, so that
/// `last_fname` afterwards names the file of that version.
pub proof fn law_last_fname_is_saved_file(old: SnapshotView, new: SnapshotView, name: Seq<char>, v: usize)
    requires
        new.dir == old.dir,
        new.versions == old.versions.insert(name, v),
    ensures
        snapshot_file(new.dir, name, current_version(new, name)) == snapshot_file(old.dir, name, v as nat),
{
}

/// Two versions of a name are kept in different files.
pub proof fn law_versions_in_distinct_files(dir: Seq<char>, name: Seq<char>, v: nat, w: nat)
    requires
        v != w,
    ensures
        snapshot_file(dir, name, v) != snapshot_file(dir, name, w),
{
    crate::client::lemma_decimal(v);
    crate::client::lemma_decimal(w);
    let fv = file_part(name, v);
    let fw = file_part(name, w);
    let a = snapshot_file(dir, name, v);
    let b = snapshot_file(dir, name, w);
    let pre: Seq<char> = if name.len() > 0 && name[0] == '/' {
        seq![]
    } else if dir.len() == 0 || dir.last() == '/' {
        dir
    } else {
        dir + seq!['/']
    };
    assert(fv.len() > 0 && fw.len() > 0);
    assert(fv[0] == fw[0]) by {
        if name.len() > 0 {
            assert(fv[0] == name[0] && fw[0] == name[0]);
        } else {
            assert(fv[0] == '-' && fw[0] == '-');
        }
    }
    assert(fv.len() > 0 && fv[0] == '/' <==> name.len() > 0 && name[0] == '/') by {
        if name.len() == 0 {
            assert(fv[0] == '-');
        } else {
            assert(fv[0] == name[0]);
        }
    }
    assert(a =~= pre + fv);
    assert(b =~= pre + fw);
    let p = pre.len() + name.len() + 1;
    assert(a.len() == p + decimal(v).len() + 4);
    assert(b.len() == p + decimal(w).len() + 4);
    if a == b {
        assert(decimal(v).len() == decimal(w).len());
        assert forall|i: int| 0 <= i < decimal(v).len() implies decimal(v)[i] == decimal(w)[i] by {
            assert(a[p + i] == decimal(v)[i]);
            assert(b[p + i] == decimal(w)[i]);
        }
        assert(decimal(v) =~= decimal(w));
    }
}

/// Whether a snapshot file of `len` bytes is full, so that the next snapshot goes
/// to the next version.
pub fn needs_rollover(len: u64) -> (r: bool)
    ensures
        r == (len >= MAX_FILE_SIZE_BYTES),
{
    len >= MAX_FILE_SIZE_BYTES
}

/// A record framed for a snapshot file: its length in 8 little-endian bytes, then
/// the record.
pub fn frame_record(payload: &[u8]) -> (r: Vec<u8>)
    ensures
        r@ == framed(payload@),
{
    let len_bytes = u64_to_le_bytes(payload.len() as u64);
    let mut out: Vec<u8> = Vec::new();
    let mut i: usize = 0;
    while i < 8
        invariant
            i <= 8,
            out@ == len_bytes@.take(i as int),
        decreases 8 - i,
    {
        out.push(len_bytes[i]);
        proof {
            assert(len_bytes@.take(i + 1) =~= len_bytes@.take(i as int).push(len_bytes@[i as int]));
        }
        i = i + 1;
    }
    let mut j: usize = 0;
    while j < payload.len()
        invariant
            j <= payload@.len(),
            out@ == len_bytes@ + payload@.take(j as int),
        decreases payload@.len() - j,
    {
        out.push(payload[j]);
        proof {
            assert(payload@.take(j + 1) =~= payload@.take(j as int).push(payload@[j as int]));
        }
        j = j + 1;
    }
    proof {
        assert(len_bytes@.take(8) =~= len_bytes@);
        assert(payload@.take(j as int) =~= payload@);
    }
    out
}

/// Where the records of a snapshot file lie: `(start, end)` byte ranges, front to
/// back. Fails when the file ends inside a record.
pub fn split_records(data: &[u8]) -> (r: Result<Vec<(usize, usize)>, SnapshotError>)
    ensures
        match r {
            Ok(ranges) => {
                &&& parse_records(data@) is Some
                &&& ranges@.len() == parse_records(data@).unwrap().len()
                &&& forall|i: int|
                    0 <= i < ranges@.len() ==> #[trigger] ranges@[i].0 <= ranges@[i].1 <= data@.len()
                        && data@.subrange(ranges@[i].0 as int, ranges@[i].1 as int) == parse_records(data@).unwrap()[i]
            },
            Err(_) => parse_records(data@) is None,
        },
{
    let mut ranges: Vec<(usize, usize)> = Vec::new();
    let ghost mut done: Seq<Seq<u8>> = seq![];
    let mut pos: usize = 0;
    proof {
        assert(data@.skip(0) =~= data@);
        match parse_records(data@) {
            Some(rs) => {
                assert(done + rs =~= rs);
            },
            None => {},
        }
    }
    while data.len() - pos >= 8
        invariant
            pos <= data@.len(),
            ranges@.len() == done.len(),
            forall|i: int|
                0 <= i < ranges@.len() ==> #[trigger] ranges@[i].0 <= ranges@[i].1 <= data@.len() && data@.subrange(
                    ranges@[i].0 as int,
                    ranges@[i].1 as int,
                ) == done[i],
            parse_records(data@) == match parse_records(data@.skip(pos as int)) {
                Some(rs) => Some(done + rs),
                None => None,
            },
        decreases data@.len() - pos,
    {
        let b: [u8; 8] = [
            data[pos],
            data[pos + 1],
            data[pos + 2],
            data[pos + 3],
            data[pos + 4],
            data[pos + 5],
            data[pos + 6],
            data[pos + 7],
        ];
        let n = u64_from_le_bytes(b);
        let ghost rest = data@.skip(pos as int);
        proof {
            assert(b@ =~= rest.take(8));
        }
        let avail: usize = data.len() - pos - 8;
        if (avail as u64) < n {
            return Err(SnapshotError::Truncated);
        }
        let len = n as usize;
        let start = pos + 8;
        let end = start + len;
        proof {
            assert(rest.skip(8 + len) =~= data@.skip(end as int));
            assert(rest.subrange(8, 8 + len) =~= data@.subrange(start as int, end as int));
            let rec = data@.subrange(start as int, end as int);
            match parse_records(data@.skip(end as int)) {
                Some(rs) => {
                    assert(done + (seq![rec] + rs) =~= done.push(rec) + rs);
                },
                None => {},
            }
            done = done.push(rec);
        }
        ranges.push((start, end));
        pos = end;
    }
    proof {
        assert(parse_records(data@.skip(pos as int)) == Some(Seq::<Seq<u8>>::empty()));
        assert(done + Seq::<Seq<u8>>::empty() =~= done);
    }
    Ok(ranges)
}

/// Records one after another, each framed.
pub open spec fn concat_frames(ps: Seq<Seq<u8>>) -> Seq<u8>
    decreases ps.len(),
{
    if ps.len() == 0 {
        seq![]
    } else {
        framed(ps[0]) + concat_frames(ps.drop_first())
    }
}

/// Reading back the little-endian bytes of a length gives the length.
pub proof fn law_le_roundtrip(x: u64)
    ensures
        le_value(le_bytes(x)) == x,
{
    let b = le_bytes(x);
    let b0 = ((x >> 0u64) & 0xffu64) as u8;
    let b1 = ((x >> 8u64) & 0xffu64) as u8;
    let b2 = ((x >> 16u64) & 0xffu64) as u8;
    let b3 = ((x >> 24u64) & 0xffu64) as u8;
    let b4 = ((x >> 32u64) & 0xffu64) as u8;
    let b5 = ((x >> 40u64) & 0xffu64) as u8;
    let b6 = ((x >> 48u64) & 0xffu64) as u8;
    let b7 = ((x >> 56u64) & 0xffu64) as u8;
    assert(b[0] == b0 && b[1] == b1 && b[2] == b2 && b[3] == b3);
    assert(b[4] == b4 && b[5] == b5 && b[6] == b6 && b[7] == b7);
    assert((b0 as u64) | ((b1 as u64) << 8u64) | ((b2 as u64) << 16u64) | ((b3 as u64) << 24u64) | ((b4 as u64)
        << 32u64) | ((b5 as u64) << 40u64) | ((b6 as u64) << 48u64) | ((b7 as u64) << 56u64) == x) by (bit_vector)
        requires
            b0 == ((x >> 0u64) & 0xffu64) as u8,
            b1 == ((x >> 8u64) & 0xffu64) as u8,
            b2 == ((x >> 16u64) & 0xffu64) as u8,
            b3 == ((x >> 24u64) & 0xffu64) as u8,
            b4 == ((x >> 32u64) & 0xffu64) as u8,
            b5 == ((x >> 40u64) & 0xffu64) as u8,
            b6 == ((x >> 48u64) & 0xffu64) as u8,
            b7 == ((x >> 56u64) & 0xffu64) as u8,
    ;
}

/// A file written as framed records reads back as exactly those records.
pub proof fn law_records_roundtrip(ps: Seq<Seq<u8>>)
    requires
        forall|i: int| 0 <= i < ps.len() ==> #[trigger] ps[i].len() <= u64::MAX,
    ensures
        parse_records(concat_frames(ps)) == Some(ps),
    decreases ps.len(),
{
    if ps.len() == 0 {
        assert(parse_records(Seq::<u8>::empty()) == Some(Seq::<Seq<u8>>::empty()));
        assert(ps =~= Seq::<Seq<u8>>::empty());
    } else {
        let p0 = ps[0];
        let tail = ps.drop_first();
        assert forall|i: int| 0 <= i < tail.len() implies #[trigger] tail[i].len() <= u64::MAX by {
            assert(tail[i] == ps[i + 1]);
        }
        law_records_roundtrip(tail);
        let d = concat_frames(ps);
        let n: int = p0.len() as int;
        law_le_roundtrip(n as u64);
        assert(d.take(8) =~= le_bytes(n as u64));
        assert(d.skip(8 + n) =~= concat_frames(tail));
        assert(d.subrange(8, 8 + n) =~= p0);
        assert(seq![p0] + tail =~= ps);
    }
}

} // verus!
