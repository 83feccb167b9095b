use vstd::prelude::*;
use std::collections::HashMap;
use crate::song::{path_hash, path_hash_exec, song_wf, Song, SongV};

verus! {

/// The character sequences of a string vector.
pub open spec fn strs_of(s: Seq<String>) -> Seq<Seq<char>> {
    s.map_values(|x: String| x@)
}

/// The record values of a record vector.
pub open spec fn views_of(s: Seq<Song>) -> Seq<SongV> {
    s.map_values(|x: Song| x@)
}

pub proof fn lemma_views_push(s: Seq<Song>, x: Song)
    ensures
        views_of(s.push(x)) =~= views_of(s).push(x@),
{
}

pub proof fn lemma_views_update(s: Seq<Song>, i: int, x: Song)
    requires
        0 <= i < s.len(),
    ensures
        views_of(s.update(i, x)) =~= views_of(s).update(i, x@),
{
}

/// First record with the given identity, if any.
pub open spec fn find_id(s: Seq<SongV>, id: u64) -> Option<SongV>
    decreases s.len(),
{
    if s.len() == 0 {
        None
    } else if s[0].id == id {
        Some(s[0])
    } else {
        find_id(s.drop_first(), id)
    }
}

/// Index of the first record with the given identity; the length if none.
pub open spec fn idx_of_id(s: Seq<SongV>, id: u64) -> int
    decreases s.len(),
{
    if s.len() == 0 {
        0
    } else if s[0].id == id {
        0
    } else {
        1 + idx_of_id(s.drop_first(), id)
    }
}

/// What inserting a record keyed by its identity yields: the record replaces
/// the one that carried its identity, or is appended.
pub open spec fn spec_insert(s: Seq<SongV>, v: SongV) -> Seq<SongV> {
    if idx_of_id(s, v.id) < s.len() {
        s.update(idx_of_id(s, v.id), v)
    } else {
        s.push(v)
    }
}

/// The union of two stores by identity; on a shared identity the right
/// operand's record wins.
pub open spec fn spec_merge(a: Seq<SongV>, b: Seq<SongV>) -> Seq<SongV>
    decreases b.len(),
{
    if b.len() == 0 {
        a
    } else {
        spec_insert(spec_merge(a, b.drop_last()), b.last())
    }
}

pub proof fn lemma_idx_of_id(s: Seq<SongV>, id: u64)
    ensures
        0 <= idx_of_id(s, id) <= s.len(),
        idx_of_id(s, id) < s.len() ==> s[idx_of_id(s, id)].id == id,
        forall|k: int| 0 <= k < idx_of_id(s, id) ==> s[k].id != id,
        find_id(s, id) == (if idx_of_id(s, id) < s.len() {
            Some(s[idx_of_id(s, id)])
        } else {
            None::<SongV>
        }),
    decreases s.len(),
{
    if s.len() > 0 && s[0].id != id {
        lemma_idx_of_id(s.drop_first(), id);
        assert forall|k: int| 0 <= k < idx_of_id(s, id) implies s[k].id != id by {
            if k > 0 {
                assert(s[k] == s.drop_first()[k - 1]);
            }
        }
    }
}

/// The in-memory catalog: every known record, with identities unique across
/// the store and every record well formed. A private index maps each
/// identity to its position, so that a scan's insert does not walk the
/// store.
pub struct MusicDB {
    pub records: Vec<Song>,
    /// Position of each identity in `records`; maintained by the store's
    /// own methods and relied on only where `wf` is required.
    pub index: HashMap<u64, usize>,
}

impl View for MusicDB {
    type V = Seq<SongV>;

    open spec fn view(&self) -> Seq<SongV> {
        views_of(self.records@)
    }
}

/// Identities are unique and every record is well formed.
pub open spec fn db_wf(s: Seq<SongV>) -> bool {
    &&& forall|i: int, j: int| 0 <= i < j < s.len() ==> s[i].id != s[j].id
    &&& forall|i: int| 0 <= i < s.len() ==> song_wf(#[trigger] s[i])
}

impl Default for MusicDB {
    fn default() -> (r: MusicDB)
        ensures
            r@ == Seq::<SongV>::empty(),
            r.wf(),
    {
        MusicDB::new()
    }
}

impl MusicDB {
    /// The index lists exactly the stored identities, each at its position.
    pub open spec fn index_ok(&self) -> bool {
        &&& forall|i: int|
            0 <= i < self@.len() ==> self.index@.contains_key((#[trigger] self@[i]).id)
                && self.index@[self@[i].id] as int == i
        &&& forall|k: u64|
            #[trigger] self.index@.contains_key(k) ==> self.index@[k] < self@.len()
                && self@[self.index@[k] as int].id == k
    }

    pub open spec fn wf(&self) -> bool {
        &&& db_wf(self@)
        &&& self.index_ok()
    }

    /// An empty catalog.
    pub fn new() -> (r: MusicDB)
        ensures
            r@ == Seq::<SongV>::empty(),
            r.wf(),
    {
        let r = MusicDB { records: Vec::new(), index: HashMap::new() };
        proof {
            assert(r@ =~= Seq::<SongV>::empty());
        }
        r
    }

    /// Inserts a record, replacing any record that already carries its
    /// identity. One index lookup, no walk over the store.
    pub fn insert(&mut self, song: Song)
        requires
            old(self).wf(),
            song_wf(song@),
        ensures
            final(self)@ == spec_insert(old(self)@, song@),
            final(self).wf(),
    {
        let n = self.records.len();
        let hit: Option<usize> = match self.index.get(&song.id) {
            Some(p) => Some(*p),
            None => None,
        };
        match hit {
            Some(i) => {
                proof {
                    broadcast use vstd::std_specs::hash::group_hash_axioms;

                    assert(self.index@.contains_key(song@.id) && self.index@[song@.id] == i);
                    assert(i < n && self@[i as int].id == song@.id);
                    lemma_idx_of_id(self@, song@.id);
                    let at = idx_of_id(self@, song@.id);
                    if at < i {
                        assert(self@[at].id == self@[i as int].id);
                    }
                    assert(at == i);
                    lemma_views_update(self.records@, i as int, song);
                }
                let ghost pre = self@;
                self.records.set(i, song);
                proof {
                    assert(self@ =~= spec_insert(pre, song@));
                    assert(self@[i as int].id == pre[i as int].id);
                    assert forall|x: int, y: int|
                        0 <= x < y < self@.len() implies self@[x].id != self@[y].id by {
                        assert(pre[x].id != pre[y].id);
                        assert(self@[x].id == pre[x].id);
                        assert(self@[y].id == pre[y].id);
                    }
                    assert forall|k: int| 0 <= k < self@.len() implies song_wf(
                        #[trigger] self@[k],
                    ) by {
                        if k != i {
                            assert(self@[k] == pre[k]);
                            assert(song_wf(pre[k]));
                        }
                    }
                    // the index is untouched and every identity kept its place
                    assert forall|j: int|
                        0 <= j < self@.len() implies self.index@.contains_key(
                        (#[trigger] self@[j]).id,
                    ) && self.index@[self@[j].id] as int == j by {
                        assert(self@[j].id == pre[j].id);
                    }
                    assert forall|k: u64| #[trigger] self.index@.contains_key(k) implies self.index@[k]
                        < self@.len() && self@[self.index@[k] as int].id == k by {
                        assert(pre[self.index@[k] as int].id == k);
                        assert(self@[self.index@[k] as int].id == pre[self.index@[k] as int].id);
                    }
                }
            },
            None => {
                proof {
                    broadcast use vstd::std_specs::hash::group_hash_axioms;

                    assert(!self.index@.contains_key(song@.id));
                    assert forall|k: int| 0 <= k < self@.len() implies (#[trigger] self@[k]).id
                        != song@.id by {
                        if self@[k].id == song@.id {
                            assert(self.index@.contains_key(self@[k].id));
                        }
                    }
                    lemma_idx_of_id(self@, song@.id);
                    assert(idx_of_id(self@, song@.id) == n);
                    lemma_views_push(self.records@, song);
                }
                let ghost pre = self@;
                let ghost premap = self.index@;
                self.index.insert(song.id, n);
                self.records.push(song);
                proof {
                    broadcast use vstd::std_specs::hash::group_hash_axioms;

                    assert(self@ =~= spec_insert(pre, song@));
                    assert(self.index@ == premap.insert(song@.id, n));
                    assert forall|x: int, y: int|
                        0 <= x < y < self@.len() implies self@[x].id != self@[y].id by {
                        if y < pre.len() {
                            assert(pre[x].id != pre[y].id);
                        } else {
                            assert(self@[y] == song@);
                            assert(pre[x].id != song@.id);
                        }
                    }
                    assert forall|k: int| 0 <= k < self@.len() implies song_wf(
                        #[trigger] self@[k],
                    ) by {
                        if k < pre.len() {
                            assert(self@[k] == pre[k]);
                            assert(song_wf(pre[k]));
                        }
                    }
                    assert forall|j: int|
                        0 <= j < self@.len() implies self.index@.contains_key(
                        (#[trigger] self@[j]).id,
                    ) && self.index@[self@[j].id] as int == j by {
                        if j < pre.len() {
                            assert(self@[j] == pre[j]);
                            assert(premap.contains_key(pre[j].id));
                            assert(pre[j].id != song@.id);
                        } else {
                            assert(self@[j] == song@);
                        }
                    }
                    assert forall|k: u64| #[trigger] self.index@.contains_key(k) implies self.index@[k]
                        < self@.len() && self@[self.index@[k] as int].id == k by {
                        if k != song@.id {
                            assert(premap.contains_key(k));
                            assert(self@[premap[k] as int] == pre[premap[k] as int]);
                        } else {
                            assert(self@[n as int] == song@);
                        }
                    }
                }
            },
        }
    }

    /// Takes the union of this catalog and another; on a shared identity the
    /// other catalog's record is kept.
    pub fn merge(self, rhs: MusicDB) -> (r: MusicDB)
        requires
            self.wf(),
            rhs.wf(),
        ensures
            r@ == spec_merge(self@, rhs@),
            r.wf(),
    {
        let ghost a = self@;
        let mut out = self;
        let n = rhs.records.len();
        let mut i: usize = 0;
        while i < n
            invariant
                i <= n,
                n == rhs.records@.len(),
                out.wf(),
                out@ == spec_merge(a, rhs@.take(i as int)),
                db_wf(rhs@),
                rhs == rhs,
            decreases n - i,
        {
            let song = rhs.records[i].clone();
            proof {
                assert(song@ == rhs@[i as int]);
                assert(song_wf(rhs@[i as int]));
            }
            out.insert(song);
            proof {
                assert(rhs@.take(i + 1).drop_last() =~= rhs@.take(i as int));
                assert(rhs@.take(i + 1).last() == rhs@[i as int]);
            }
            i = i + 1;
        }
        proof {
            assert(rhs@.take(n as int) =~= rhs@);
        }
        out
    }

    /// The record with the given identity, if the catalog has one.
    pub fn find_by_id(&self, id: u64) -> (r: Option<&Song>)
        ensures
            match r {
                Some(s) => find_id(self@, id) == Some(s@),
                None => find_id(self@, id) is None,
            },
    {
        let n = self.records.len();
        let mut i: usize = 0;
        while i < n
            invariant
                i <= n,
                n == self.records@.len(),
                forall|k: int| 0 <= k < i ==> self@[k].id != id,
            decreases n - i,
        {
            if self.records[i].id == id {
                proof {
                    lemma_idx_of_id(self@, id);
                    assert(self@[i as int].id == id);
                    assert(idx_of_id(self@, id) == i);
                }
                return Some(&self.records[i]);
            }
            i = i + 1;
        }
        proof {
            lemma_idx_of_id(self@, id);
            assert(idx_of_id(self@, id) == n);
        }
        None
    }

    /// Resolves an identity to the backing file's path: the one interface
    /// file delivery needs.
    pub fn path_for_id(&self, id: u64) -> (r: Option<String>)
        ensures
            match r {
                Some(p) => find_id(self@, id) matches Some(v) && p@ == v.path,
                None => find_id(self@, id) is None,
            },
    {
        match self.find_by_id(id) {
            Some(s) => Some(s.path.clone()),
            None => None,
        }
    }
}

// ---------------------------------------------------------------------------
// Known paths: the scanner's dedup set
// ---------------------------------------------------------------------------

/// Whether some string of the vector has these characters.
pub(crate) fn contains_string(v: &Vec<String>, s: &String) -> (r: bool)
    ensures
        r == strs_of(v@).contains(s@),
{
    let n = v.len();
    let mut i: usize = 0;
    while i < n
        invariant
            i <= n,
            n == v@.len(),
            forall|k: int| 0 <= k < i ==> strs_of(v@)[k] != s@,
        decreases n - i,
    {
        if v[i].eq(s) {
            proof {
                assert(strs_of(v@)[i as int] == s@);
            }
            return true;
        }
        i = i + 1;
    }
    proof {
        if strs_of(v@).contains(s@) {
            let k = choose|k: int| 0 <= k < strs_of(v@).len() && strs_of(v@)[k] == s@;
            assert(strs_of(v@)[k] == s@);
        }
    }
    false
}

/// The set of file paths already represented in the catalog, used by a scan
/// to skip re-parsing files it has already seen. Working state of the
/// scanner, never persisted. Paths are bucketed by a content hash so that a
/// membership test reads one bucket instead of walking every known path;
/// equal paths always share a bucket, so nothing rests on the hash being
/// collision free.
pub struct KnownPaths {
    /// The paths, keyed by their hash; maintained by this type's methods.
    pub buckets: HashMap<u64, Vec<String>>,
}

impl View for KnownPaths {
    type V = Set<Seq<char>>;

    open spec fn view(&self) -> Set<Seq<char>> {
        Set::new(
            |p: Seq<char>|
                self.buckets@.contains_key(path_hash(p)) && strs_of(
                    self.buckets@[path_hash(p)]@,
                ).contains(p),
        )
    }
}

/// Whether a scan must parse the file: always on a forced rescan, otherwise
/// only when the path is not yet known.
pub open spec fn needs_parse(known: Set<Seq<char>>, path: Seq<char>, rescan: bool) -> bool {
    rescan || !known.contains(path)
}

/// The paths of a store's records.
pub open spec fn paths_of(db: Seq<SongV>) -> Set<Seq<char>> {
    Set::new(|p: Seq<char>| exists|i: int| 0 <= i < db.len() && (#[trigger] db[i]).path == p)
}

impl KnownPaths {
    /// An empty set of known paths.
    pub fn new() -> (r: KnownPaths)
        ensures
            r@ == Set::<Seq<char>>::empty(),
    {
        let r = KnownPaths { buckets: HashMap::new() };
        proof {
            broadcast use vstd::std_specs::hash::group_hash_axioms;

            assert(r@ =~= Set::<Seq<char>>::empty());
        }
        r
    }

    /// Whether the path is already known: one bucket is read.
    pub fn knows(&self, path: &String) -> (r: bool)
        ensures
            r == self@.contains(path@),
    {
        let h = path_hash_exec(path.as_str());
        match self.buckets.get(&h) {
            None => {
                proof {
                    broadcast use vstd::std_specs::hash::group_hash_axioms;

                    assert(!self.buckets@.contains_key(h));
                }
                false
            },
            Some(bucket) => {
                let r = contains_string(bucket, path);
                proof {
                    broadcast use vstd::std_specs::hash::group_hash_axioms;

                    assert(self.buckets@.contains_key(h) && self.buckets@[h] == *bucket);
                }
                r
            },
        }
    }

    /// Marks a path as known: its bucket gains the path when absent.
    pub fn mark(&mut self, path: String)
        ensures
            final(self)@ == old(self)@.insert(path@),
    {
        let h = path_hash_exec(path.as_str());
        let ghost pv = path@;
        let ghost oldmap = self.buckets@;
        let had: bool;
        let mut bucket: Vec<String>;
        match self.buckets.remove(&h) {
            Some(b) => {
                bucket = b;
                had = true;
            },
            None => {
                bucket = Vec::new();
                had = false;
            },
        }
        proof {
            broadcast use vstd::std_specs::hash::group_hash_axioms;

            assert(self.buckets@ == oldmap.remove(h));
            assert(had == oldmap.contains_key(h));
            assert(had ==> bucket@ == oldmap[h]@);
            assert(!had ==> strs_of(bucket@) =~= Seq::<Seq<char>>::empty());
        }
        let ghost bucket0 = bucket@;
        let added = !contains_string(&bucket, &path);
        if added {
            bucket.push(path);
        }
        let ghost bucket1 = bucket@;
        proof {
            if added {
                assert(bucket1 == bucket0.push(bucket1.last()));
                assert(bucket1.last()@ == pv);
                assert(strs_of(bucket1) =~= strs_of(bucket0).push(pv));
            } else {
                assert(strs_of(bucket0).contains(pv));
            }
        }
        self.buckets.insert(h, bucket);
        proof {
            broadcast use vstd::std_specs::hash::group_hash_axioms;

            let newmap = self.buckets@;
            assert(newmap == oldmap.remove(h).insert(h, newmap[h]));
            assert(newmap[h]@ == bucket1);
            assert forall|p: Seq<char>| self@.contains(p) == old(self)@.insert(pv).contains(
                p,
            ) by {
                let hp = path_hash(p);
                if hp == h {
                    assert(newmap.contains_key(h));
                    // what the old set held at this bucket
                    assert((oldmap.contains_key(h) && strs_of(oldmap[h]@).contains(p))
                        == strs_of(bucket0).contains(p));
                    if p == pv {
                        assert(strs_of(bucket1).contains(pv)) by {
                            if added {
                                assert(strs_of(bucket1).last() == pv);
                            }
                        }
                        assert(self@.contains(p));
                    } else {
                        assert(strs_of(bucket1).contains(p) == strs_of(bucket0).contains(
                            p,
                        )) by {
                            if added {
                                if strs_of(bucket1).contains(p) {
                                    let k = choose|k: int|
                                        0 <= k < strs_of(bucket1).len() && strs_of(bucket1)[k]
                                            == p;
                                    assert(k < strs_of(bucket0).len());
                                    assert(strs_of(bucket0)[k] == p);
                                }
                                if strs_of(bucket0).contains(p) {
                                    let k = choose|k: int|
                                        0 <= k < strs_of(bucket0).len() && strs_of(bucket0)[k]
                                            == p;
                                    assert(strs_of(bucket1)[k] == p);
                                }
                            }
                        }
                    }
                } else {
                    assert(p != pv);
                    assert(newmap.contains_key(hp) == oldmap.contains_key(hp));
                    if newmap.contains_key(hp) {
                        assert(newmap[hp] == oldmap[hp]);
                    }
                }
            }
            assert(self@ =~= old(self)@.insert(pv));
        }
    }

    /// Seeds the set with the paths of every record of a catalog, as a scan
    /// does after a snapshot load.
    pub fn seed_from(db: &MusicDB) -> (r: KnownPaths)
        ensures
            r@ == paths_of(db@),
    {
        let mut r = KnownPaths::new();
        let n = db.records.len();
        let mut i: usize = 0;
        proof {
            assert(r@ =~= paths_of(db@.take(0)));
        }
        while i < n
            invariant
                i <= n,
                n == db.records@.len(),
                db@ == views_of(db.records@),
                r@ == paths_of(db@.take(i as int)),
            decreases n - i,
        {
            let p = db.records[i].path.clone();
            proof {
                assert(p@ == db@[i as int].path);
            }
            r.mark(p);
            proof {
                assert forall|q: Seq<char>|
                    paths_of(db@.take(i + 1)).contains(q) == paths_of(
                        db@.take(i as int),
                    ).insert(db@[i as int].path).contains(q) by {
                    if paths_of(db@.take(i + 1)).contains(q) {
                        let k = choose|k: int|
                            0 <= k < db@.take(i + 1).len() && (#[trigger] db@.take(
                                i + 1,
                            )[k]).path == q;
                        if k < i {
                            assert(db@.take(i as int)[k].path == q);
                        }
                    }
                    if paths_of(db@.take(i as int)).contains(q) {
                        let k = choose|k: int|
                            0 <= k < db@.take(i as int).len() && (#[trigger] db@.take(
                                i as int,
                            )[k]).path == q;
                        assert(db@.take(i + 1)[k].path == q);
                    }
                    if q == db@[i as int].path {
                        assert(db@.take(i + 1)[i as int].path == q);
                    }
                }
                assert(paths_of(db@.take(i + 1)) =~= paths_of(db@.take(i as int)).insert(
                    db@[i as int].path,
                ));
            }
            i = i + 1;
        }
        proof {
            assert(db@.take(n as int) =~= db@);
        }
        r
    }
}

impl MusicDB {
    /// Decides whether the file at `path` must be handed to the tag parser.
    /// A scan that skips this call keeps the store unchanged for that file.
    pub fn should_parse(known: &KnownPaths, path: &String, rescan: bool) -> (r: bool)
        ensures
            r == needs_parse(known@, path@, rescan),
    {
        rescan || !known.knows(path)
    }

    /// Records the outcome of parsing one file: the record enters the store
    /// keyed by its identity, and the path becomes known.
    pub fn record_scanned(&mut self, known: &mut KnownPaths, song: Song)
        requires
            old(self).wf(),
            song_wf(song@),
        ensures
            final(self)@ == spec_insert(old(self)@, song@),
            final(self).wf(),
            final(known)@ == old(known)@.insert(song.path@),
    {
        known.mark(song.path.clone());
        self.insert(song);
    }
}

} // verus!
