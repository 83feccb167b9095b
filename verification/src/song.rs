use vstd::prelude::*;
use core::cmp::Ordering;
use crate::text::{
    chars_of, cmp_chars, dec_digits, lemma_lex_cmp_antisym, lemma_lex_cmp_equal,
    lemma_lex_cmp_trans, lex_cmp, lower_of, lowercase, string_from_chars, two_digits,
};

verus! {

/// The sort key a query can select.
#[derive(Clone, Copy, PartialEq, Eq, Structural)]
#[allow(non_camel_case_types)]
pub enum SortBy {
    title,
    artist,
    album,
    duration,
    track,
}

/// One catalog entry: the metadata of a single audio file, together with
/// derived fields fixed at construction time (lowercase search keys, the
/// lowercased filename stem, and the content-derived identity).
pub struct Song {
    pub id: u64,
    pub path: String,
    pub title: String,
    pub artist: String,
    pub album: String,
    pub year: u16,
    pub comment: String,
    /// Playback time in whole seconds.
    pub duration: u64,
    pub track: Option<u16>,
    pub title_lower: String,
    pub artist_lower: String,
    pub album_lower: String,
    pub stem_lower: String,
}

/// The mathematical value of a Song: every string as its character sequence.
#[verifier::ext_equal]
pub ghost struct SongV {
    pub id: u64,
    pub path: Seq<char>,
    pub title: Seq<char>,
    pub artist: Seq<char>,
    pub album: Seq<char>,
    pub year: u16,
    pub comment: Seq<char>,
    pub duration: u64,
    pub track: Option<u16>,
    pub title_lower: Seq<char>,
    pub artist_lower: Seq<char>,
    pub album_lower: Seq<char>,
    pub stem_lower: Seq<char>,
}

impl View for Song {
    type V = SongV;

    open spec fn view(&self) -> SongV {
        SongV {
            id: self.id,
            path: self.path@,
            title: self.title@,
            artist: self.artist@,
            album: self.album@,
            year: self.year,
            comment: self.comment@,
            duration: self.duration,
            track: self.track,
            title_lower: self.title_lower@,
            artist_lower: self.artist_lower@,
            album_lower: self.album_lower@,
            stem_lower: self.stem_lower@,
        }
    }
}

impl Clone for Song {
    fn clone(&self) -> (r: Song)
        ensures
            r == *self,
    {
        Song {
            id: self.id,
            path: self.path.clone(),
            title: self.title.clone(),
            artist: self.artist.clone(),
            album: self.album.clone(),
            year: self.year,
            comment: self.comment.clone(),
            duration: self.duration,
            track: self.track,
            title_lower: self.title_lower.clone(),
            artist_lower: self.artist_lower.clone(),
            album_lower: self.album_lower.clone(),
            stem_lower: self.stem_lower.clone(),
        }
    }
}

// ---------------------------------------------------------------------------
// The filename stem of a path
// ---------------------------------------------------------------------------

/// The characters after the last '/', or the whole path if it has none.
pub open spec fn after_last_slash(p: Seq<char>) -> Seq<char>
    decreases p.len(),
{
    if p.len() == 0 {
        p
    } else if p.last() == '/' {
        Seq::empty()
    } else {
        after_last_slash(p.drop_last()).push(p.last())
    }
}

/// Index of the last '.' in `f`, or -1 if it has none.
pub open spec fn last_dot(f: Seq<char>) -> int
    decreases f.len(),
{
    if f.len() == 0 {
        -1
    } else if f.last() == '.' {
        f.len() - 1
    } else {
        last_dot(f.drop_last())
    }
}

/// The stem of a file name: everything before the last '.', unless that dot
/// is the first character, in which case the whole name is the stem.
pub open spec fn stem_of_filename(f: Seq<char>) -> Seq<char> {
    if last_dot(f) > 0 {
        f.take(last_dot(f))
    } else {
        f
    }
}

/// The path without its trailing separators: "dir/" names the same file
/// component as "dir".
pub open spec fn strip_trailing_slashes(p: Seq<char>) -> Seq<char>
    decreases p.len(),
{
    if p.len() > 0 && p.last() == '/' {
        strip_trailing_slashes(p.drop_last())
    } else {
        p
    }
}

/// The filename stem of a path, when the path has a file name at all.
/// Trailing separators are ignored, so "dir/" has the stem "dir"; a path
/// of separators alone has none.
pub open spec fn stem_of_path(p: Seq<char>) -> Option<Seq<char>> {
    let q = strip_trailing_slashes(p);
    if after_last_slash(q).len() == 0 {
        None
    } else {
        Some(stem_of_filename(after_last_slash(q)))
    }
}

/// The filename stem, or the empty sequence when the path has none.
pub open spec fn stem_or_empty(p: Seq<char>) -> Seq<char> {
    match stem_of_path(p) {
        Some(s) => s,
        None => Seq::empty(),
    }
}

proof fn lemma_after_last_slash(p: Seq<char>, k: int)
    requires
        0 <= k <= p.len(),
        forall|i: int| k <= i < p.len() ==> p[i] != '/',
        k == 0 || p[k - 1] == '/',
    ensures
        after_last_slash(p) == p.skip(k),
    decreases p.len(),
{
    if p.len() == 0 {
        assert(p.skip(0) =~= p);
    } else if p.last() == '/' {
        assert(k == p.len());
        assert(p.skip(k) =~= Seq::empty());
    } else {
        assert(k < p.len());
        lemma_after_last_slash(p.drop_last(), k);
        assert(p.drop_last().skip(k) =~= p.skip(k).drop_last());
        assert(p.skip(k).len() > 0);
        assert(p.skip(k).last() == p.last());
        assert(after_last_slash(p) == p.skip(k).drop_last().push(p.skip(k).last()));
        assert(p.skip(k).drop_last().push(p.skip(k).last()) =~= p.skip(k));
    }
}

proof fn lemma_last_dot(f: Seq<char>, d: int)
    requires
        -1 <= d < f.len(),
        forall|i: int| d < i < f.len() ==> f[i] != '.',
        d == -1 || f[d] == '.',
    ensures
        last_dot(f) == d,
    decreases f.len(),
{
    if f.len() == 0 {
    } else if f.last() == '.' {
        assert(d == f.len() - 1);
    } else {
        assert(d < f.len() - 1);
        lemma_last_dot(f.drop_last(), d);
    }
}

/// Copies the characters of `v` between `a` and `b`.
pub(crate) fn subvec_chars(v: &Vec<char>, a: usize, b: usize) -> (r: Vec<char>)
    requires
        a <= b <= v@.len(),
    ensures
        r@ == v@.subrange(a as int, b as int),
{
    let mut r: Vec<char> = Vec::new();
    let mut i: usize = a;
    while i < b
        invariant
            a <= i <= b <= v@.len(),
            r@ == v@.subrange(a as int, i as int),
        decreases b - i,
    {
        r.push(v[i]);
        proof {
            assert(v@.subrange(a as int, i + 1) =~= v@.subrange(a as int, i as int).push(
                v@[i as int],
            ));
        }
        i = i + 1;
    }
    r
}

proof fn lemma_strip_trailing(p: Seq<char>, e: int)
    requires
        0 <= e <= p.len(),
        forall|i: int| e <= i < p.len() ==> p[i] == '/',
        e == 0 || p[e - 1] != '/',
    ensures
        strip_trailing_slashes(p) == p.take(e),
    decreases p.len(),
{
    if e == p.len() {
        assert(p.take(e) =~= p);
    } else {
        assert(p.last() == '/');
        lemma_strip_trailing(p.drop_last(), e);
        assert(p.drop_last().take(e) =~= p.take(e));
    }
}

/// The filename stem of `path`: the last path component without its final
/// extension, ignoring trailing separators. None when no component is left.
pub fn stem_string(path: &str) -> (r: Option<String>)
    ensures
        (r is Some) == (stem_of_path(path@) is Some),
        r is Some ==> r.unwrap()@ == stem_of_path(path@).unwrap(),
{
    let all = chars_of(path);
    // drop trailing separators: "dir/" names the component "dir"
    let mut e: usize = all.len();
    let mut stop: bool = false;
    while e > 0 && !stop
        invariant
            e <= all@.len(),
            forall|i: int| e <= i < all@.len() ==> all@[i] == '/',
            stop ==> e >= 1 && all@[e - 1] != '/',
        decreases e + (if stop { 0int } else { 1int }),
    {
        if all[e - 1] == '/' {
            e = e - 1;
        } else {
            stop = true;
        }
    }
    proof {
        lemma_strip_trailing(all@, e as int);
    }
    let cs = subvec_chars(&all, 0, e);
    proof {
        assert(cs@ =~= all@.take(e as int));
        assert(cs@ == strip_trailing_slashes(path@));
    }
    let n = cs.len();
    // find the position right after the last '/'
    let mut k: usize = n;
    let mut found_slash: bool = false;
    while k > 0 && !found_slash
        invariant
            k <= n,
            n == cs@.len(),
            forall|i: int| k <= i < n ==> cs@[i] != '/',
            found_slash ==> k >= 1 && cs@[k - 1] == '/',
        decreases k + (if found_slash { 0int } else { 1int }),
    {
        if cs[k - 1] == '/' {
            found_slash = true;
        } else {
            k = k - 1;
        }
    }
    proof {
        lemma_after_last_slash(cs@, k as int);
    }
    let filename = subvec_chars(&cs, k, n);
    if filename.len() == 0 {
        return None;
    }
    // find the last '.' in the file name
    let m = filename.len();
    let mut j: usize = m;
    let mut found_dot: bool = false;
    while j > 0 && !found_dot
        invariant
            j <= m,
            m == filename@.len(),
            forall|i: int| j <= i < m ==> filename@[i] != '.',
            found_dot ==> j >= 1 && filename@[j - 1] == '.',
        decreases j + (if found_dot { 0int } else { 1int }),
    {
        if filename[j - 1] == '.' {
            found_dot = true;
        } else {
            j = j - 1;
        }
    }
    proof {
        if found_dot {
            lemma_last_dot(filename@, j - 1);
        } else {
            lemma_last_dot(filename@, -1);
        }
    }
    let stem = if j > 1 {
        subvec_chars(&filename, 0, j - 1)
    } else {
        filename
    };
    proof {
        assert(stem@ == stem_of_filename(after_last_slash(strip_trailing_slashes(path@))));
    }
    Some(string_from_chars(&stem))
}

// ---------------------------------------------------------------------------
// Content-derived identity
// ---------------------------------------------------------------------------

/// One step of the 64-bit FNV-1a hash.
pub open spec fn fnv_step(h: u64, x: u64) -> u64 {
    (h ^ x).wrapping_mul(0x100000001b3u64)
}

/// 64-bit FNV-1a over a word sequence, folded left to right.
pub open spec fn fnv1a(s: Seq<u64>) -> u64
    decreases s.len(),
{
    if s.len() == 0 {
        0xcbf29ce484222325u64
    } else {
        fnv_step(fnv1a(s.drop_last()), s.last())
    }
}

/// A string field's contribution to the identity hash: its characters, then
/// a terminator that is not a character value.
pub open spec fn str_atoms(s: Seq<char>) -> Seq<u64> {
    s.map_values(|c: char| c as u64).push(0xffffffffu64)
}

/// The dedup hash of a file path: FNV-1a over its characters. Only a
/// bucketing aid for the known-paths set; correctness never relies on it
/// being collision free.
pub open spec fn path_hash(p: Seq<char>) -> u64 {
    fnv1a(str_atoms(p))
}

/// Computes the dedup hash of a path.
pub fn path_hash_exec(s: &str) -> (r: u64)
    ensures
        r == path_hash(s@),
{
    let mut atoms: Vec<u64> = Vec::new();
    push_str_atoms(&mut atoms, s);
    proof {
        assert(atoms@ =~= str_atoms(s@));
    }
    fnv1a_hash(&atoms)
}

/// The word sequence the identity is computed over: every metadata field of
/// the record except its path and the identity itself. A record that moves on
/// disk but keeps its tags and file name keeps its identity.
pub open spec fn id_atoms(
    title: Seq<char>,
    artist: Seq<char>,
    album: Seq<char>,
    year: u16,
    comment: Seq<char>,
    duration: u64,
    track: Option<u16>,
    title_lower: Seq<char>,
    artist_lower: Seq<char>,
    album_lower: Seq<char>,
    stem_lower: Seq<char>,
) -> Seq<u64> {
    str_atoms(title) + str_atoms(artist) + str_atoms(album) + seq![year as u64] + str_atoms(
        comment,
    ) + seq![duration] + (match track {
        None => seq![0xfffffffeu64],
        Some(t) => seq![t as u64],
    }) + str_atoms(title_lower) + str_atoms(artist_lower) + str_atoms(album_lower) + str_atoms(
        stem_lower,
    )
}

/// The identity a record with this content must carry.
pub open spec fn id_of(v: SongV) -> u64 {
    fnv1a(
        id_atoms(
            v.title,
            v.artist,
            v.album,
            v.year,
            v.comment,
            v.duration,
            v.track,
            v.title_lower,
            v.artist_lower,
            v.album_lower,
            v.stem_lower,
        ),
    )
}

/// A well-formed record: the derived fields agree with the display fields,
/// and the identity is the hash of the content.
pub open spec fn song_wf(v: SongV) -> bool {
    &&& v.title_lower == lower_of(v.title)
    &&& v.artist_lower == lower_of(v.artist)
    &&& v.album_lower == lower_of(v.album)
    &&& v.stem_lower == lower_of(stem_or_empty(v.path))
    &&& v.id == id_of(v)
}

/// Appends a string field's atoms.
fn push_str_atoms(atoms: &mut Vec<u64>, s: &str)
    ensures
        final(atoms)@ == old(atoms)@ + str_atoms(s@),
{
    let cs = chars_of(s);
    let ghost f = |c: char| c as u64;
    let mut i: usize = 0;
    proof {
        assert(cs@.take(0).map_values(f) =~= Seq::<u64>::empty());
        assert(atoms@ =~= old(atoms)@ + cs@.take(0).map_values(f));
    }
    while i < cs.len()
        invariant
            i <= cs@.len(),
            cs@ == s@,
            atoms@ == old(atoms)@ + cs@.take(i as int).map_values(f),
            f == (|c: char| c as u64),
        decreases cs@.len() - i,
    {
        let c = cs[i];
        atoms.push(c as u64);
        proof {
            assert(cs@.take(i + 1).map_values(f) =~= cs@.take(i as int).map_values(f).push(
                f(cs@[i as int]),
            ));
            assert(old(atoms)@ + cs@.take(i + 1).map_values(f) =~= (old(atoms)@ + cs@.take(
                i as int,
            ).map_values(f)).push(f(cs@[i as int])));
        }
        i = i + 1;
    }
    atoms.push(0xffffffffu64);
    proof {
        assert(cs@.take(cs@.len() as int) =~= cs@);
        assert(old(atoms)@ + str_atoms(s@) =~= (old(atoms)@ + cs@.map_values(f)).push(
            0xffffffffu64,
        ));
    }
}

/// Computes the 64-bit FNV-1a hash of a word sequence.
fn fnv1a_hash(atoms: &Vec<u64>) -> (r: u64)
    ensures
        r == fnv1a(atoms@),
{
    let mut h: u64 = 0xcbf29ce484222325;
    let mut i: usize = 0;
    proof {
        assert(atoms@.take(0) =~= Seq::<u64>::empty());
    }
    while i < atoms.len()
        invariant
            i <= atoms@.len(),
            h == fnv1a(atoms@.take(i as int)),
        decreases atoms@.len() - i,
    {
        let x = atoms[i];
        h = (h ^ x).wrapping_mul(0x100000001b3);
        proof {
            assert(atoms@.take(i + 1).drop_last() =~= atoms@.take(i as int));
            assert(atoms@.take(i + 1).last() == atoms@[i as int]);
        }
        i = i + 1;
    }
    proof {
        assert(atoms@.take(atoms@.len() as int) =~= atoms@);
    }
    h
}

// ---------------------------------------------------------------------------
// Construction
// ---------------------------------------------------------------------------

/// The record that construction from these tag values must yield.
pub open spec fn song_make(
    path: Seq<char>,
    title: Seq<char>,
    artist: Seq<char>,
    album: Seq<char>,
    year: u16,
    comment: Seq<char>,
    duration: u64,
    track: Option<u16>,
) -> SongV {
    let title_lower = lower_of(title);
    let artist_lower = lower_of(artist);
    let album_lower = lower_of(album);
    let stem_lower = lower_of(stem_or_empty(path));
    SongV {
        id: fnv1a(
            id_atoms(
                title,
                artist,
                album,
                year,
                comment,
                duration,
                track,
                title_lower,
                artist_lower,
                album_lower,
                stem_lower,
            ),
        ),
        path,
        title,
        artist,
        album,
        year,
        comment,
        duration,
        track,
        title_lower,
        artist_lower,
        album_lower,
        stem_lower,
    }
}

impl Song {
    /// Builds a record from the tag values of one audio file. The lowercase
    /// search keys, the lowercased filename stem and the identity are all
    /// fixed here and never change afterwards.
    pub fn new(
        path: String,
        title: String,
        artist: String,
        album: String,
        year: u16,
        comment: String,
        duration: u64,
        track: Option<u16>,
    ) -> (r: Song)
        ensures
            r@ == song_make(path@, title@, artist@, album@, year, comment@, duration, track),
            song_wf(r@),
    {
        let title_lower = lowercase(title.as_str());
        let artist_lower = lowercase(artist.as_str());
        let album_lower = lowercase(album.as_str());
        let stem_lower = match stem_string(path.as_str()) {
            Some(s) => lowercase(s.as_str()),
            None => {
                let e = lowercase("");
                proof {
                    reveal_strlit("");
                    assert(""@ =~= stem_or_empty(path@));
                }
                e
            },
        };
        let mut atoms: Vec<u64> = Vec::new();
        push_str_atoms(&mut atoms, title.as_str());
        push_str_atoms(&mut atoms, artist.as_str());
        push_str_atoms(&mut atoms, album.as_str());
        atoms.push(year as u64);
        push_str_atoms(&mut atoms, comment.as_str());
        atoms.push(duration);
        match track {
            None => atoms.push(0xfffffffe),
            Some(t) => atoms.push(t as u64),
        }
        push_str_atoms(&mut atoms, title_lower.as_str());
        push_str_atoms(&mut atoms, artist_lower.as_str());
        push_str_atoms(&mut atoms, album_lower.as_str());
        push_str_atoms(&mut atoms, stem_lower.as_str());
        proof {
            assert(atoms@ =~= id_atoms(
                title@,
                artist@,
                album@,
                year,
                comment@,
                duration,
                track,
                title_lower@,
                artist_lower@,
                album_lower@,
                stem_lower@,
            ));
        }
        let id = fnv1a_hash(&atoms);
        Song {
            id,
            path,
            title,
            artist,
            album,
            year,
            comment,
            duration,
            track,
            title_lower,
            artist_lower,
            album_lower,
            stem_lower,
        }
    }
}

// ---------------------------------------------------------------------------
// Display projections
// ---------------------------------------------------------------------------

/// The displayed playback time: the full hour count (omitted when zero),
/// then minutes and seconds, the latter two always two digits.
pub open spec fn duration_display(d: u64) -> Seq<char> {
    let hour = d / 3600;
    let min = (d / 60) % 60;
    let sec = d % 60;
    (if hour > 0 {
        dec_digits(hour as nat) + seq![':']
    } else {
        Seq::<char>::empty()
    }) + two_digits(min as nat) + seq![':'] + two_digits(sec as nat)
}

/// Index of the first '/' in `s`, or its length if it has none.
pub open spec fn first_slash(s: Seq<char>) -> int
    decreases s.len(),
{
    if s.len() == 0 {
        0
    } else if s[0] == '/' {
        0
    } else {
        1 + first_slash(s.drop_first())
    }
}

/// The track number a tag string denotes: the digits before an optional
/// slash, when they form a number that fits in a u16.
pub open spec fn track_of(s: Seq<char>) -> Option<u16> {
    match crate::text::parse_u64_spec(s.take(first_slash(s))) {
        Some(v) => if v <= u16::MAX as u64 {
            Some(v as u16)
        } else {
            None
        },
        None => None,
    }
}

proof fn lemma_first_slash(s: Seq<char>, j: int)
    requires
        0 <= j <= s.len(),
        forall|k: int| 0 <= k < j ==> s[k] != '/',
        j == s.len() || s[j] == '/',
    ensures
        first_slash(s) == j,
    decreases s.len(),
{
    if s.len() == 0 {
    } else if s[0] == '/' {
        assert(j == 0);
    } else {
        assert(j >= 1);
        lemma_first_slash(s.drop_first(), j - 1);
    }
}

/// The fixed title shown when a record has neither a tag title nor a
/// usable filename stem.
pub open spec fn unknown_title() -> Seq<char> {
    seq!['(', 'u', 'n', 'k', 'n', 'o', 'w', 'n', ')']
}

impl Song {
    /// The playback time as text, as `duration_display` describes.
    pub fn duration_formatted(&self) -> (r: String)
        ensures
            r@ == duration_display(self.duration),
    {
        let d = self.duration;
        let hour = d / 3600;
        let min = (d / 60) % 60;
        let sec = d % 60;
        let mut out: Vec<char> = Vec::new();
        if hour > 0 {
            let mut h = crate::text::u64_to_dec(hour);
            out.append(&mut h);
            out.push(':');
        }
        let mut mm = crate::text::u64_to_two_digits(min);
        out.append(&mut mm);
        out.push(':');
        let mut ss = crate::text::u64_to_two_digits(sec);
        out.append(&mut ss);
        proof {
            assert(out@ =~= duration_display(d));
        }
        string_from_chars(&out)
    }

    /// The filename stem of this record's path.
    pub fn file_stem(&self) -> (r: Option<String>)
        ensures
            (r is Some) == (stem_of_path(self.path@) is Some),
            r is Some ==> r.unwrap()@ == stem_of_path(self.path@).unwrap(),
    {
        stem_string(self.path.as_str())
    }

    /// Reads a track number out of a tag value such as "3" or "3/12".
    pub fn get_track(track_info: Option<&String>) -> (r: Option<u16>)
        ensures
            r == match track_info {
                None => None::<u16>,
                Some(s) => track_of(s@),
            },
    {
        let s = match track_info {
            None => {
                return None;
            },
            Some(s) => s,
        };
        let cs = chars_of(s.as_str());
        let n = cs.len();
        let mut j: usize = 0;
        let mut found: bool = false;
        while j < n && !found
            invariant
                j <= n,
                n == cs@.len(),
                forall|k: int| 0 <= k < j ==> cs@[k] != '/',
                found ==> j < n && cs@[j as int] == '/',
            decreases n - j + (if found { 0int } else { 1int }),
        {
            if cs[j] == '/' {
                found = true;
            } else {
                j = j + 1;
            }
        }
        proof {
            lemma_first_slash(cs@, j as int);
        }
        let head = subvec_chars(&cs, 0, j);
        proof {
            assert(head@ =~= cs@.take(j as int));
        }
        match crate::text::parse_u64(&head) {
            Some(v) => if v <= 65535 {
                Some(v as u16)
            } else {
                None
            },
            None => None,
        }
    }
}

/// The display-safe projection of a record that queries hand out: no path,
/// the identity as text, the playback time formatted.
pub struct SongResult {
    pub id: String,
    pub title: String,
    pub artist: String,
    pub album: String,
    pub year: u16,
    pub comment: String,
    pub duration: String,
    pub track: Option<u16>,
}

/// The mathematical value of a SongResult.
#[verifier::ext_equal]
pub ghost struct SongResultV {
    pub id: Seq<char>,
    pub title: Seq<char>,
    pub artist: Seq<char>,
    pub album: Seq<char>,
    pub year: u16,
    pub comment: Seq<char>,
    pub duration: Seq<char>,
    pub track: Option<u16>,
}

impl View for SongResult {
    type V = SongResultV;

    open spec fn view(&self) -> SongResultV {
        SongResultV {
            id: self.id@,
            title: self.title@,
            artist: self.artist@,
            album: self.album@,
            year: self.year,
            comment: self.comment@,
            duration: self.duration@,
            track: self.track,
        }
    }
}

/// What projecting a record to its display form yields: the identity in
/// decimal, the title falling back to the filename stem or a fixed
/// placeholder, the duration as text, everything else passed through.
pub open spec fn project_song(v: SongV) -> SongResultV {
    SongResultV {
        id: dec_digits(v.id as nat),
        title: if v.title.len() > 0 {
            v.title
        } else {
            match stem_of_path(v.path) {
                Some(st) => st,
                None => unknown_title(),
            }
        },
        artist: v.artist,
        album: v.album,
        year: v.year,
        comment: v.comment,
        duration: duration_display(v.duration),
        track: v.track,
    }
}

impl SongResult {
    /// Projects a record to its display form.
    pub fn from_song(song: &Song) -> (r: SongResult)
        ensures
            r@ == project_song(song@),
    {
        let idv = crate::text::u64_to_dec(song.id);
        let id = string_from_chars(&idv);
        let title = if song.title.as_str().is_empty() {
            match song.file_stem() {
                Some(s) => s,
                None => {
                    let u = String::from_str("(unknown)");
                    proof {
                        reveal_strlit("(unknown)");
                        assert(u@ =~= unknown_title());
                    }
                    u
                },
            }
        } else {
            song.title.clone()
        };
        SongResult {
            id,
            title,
            artist: song.artist.clone(),
            album: song.album.clone(),
            year: song.year,
            comment: song.comment.clone(),
            duration: song.duration_formatted(),
            track: song.track,
        }
    }
}

// ---------------------------------------------------------------------------
// Ordering of records
// ---------------------------------------------------------------------------

/// Three-way comparison of integers.
pub open spec fn int_cmp(a: int, b: int) -> Ordering {
    if a < b {
        Ordering::Less
    } else if a > b {
        Ordering::Greater
    } else {
        Ordering::Equal
    }
}

/// A missing track number sorts lowest.
pub open spec fn track_key(t: Option<u16>) -> int {
    match t {
        None => -1,
        Some(v) => v as int,
    }
}

/// Falls through to the second comparison when the first is a tie.
pub open spec fn ord_else(o1: Ordering, o2: Ordering) -> Ordering {
    if o1 == Ordering::Equal {
        o2
    } else {
        o1
    }
}

/// Tie break applied after the selectable chain, so that the order is total:
/// identity first, then every remaining field.
pub open spec fn tail_cmp(a: SongV, b: SongV) -> Ordering {
    ord_else(
        int_cmp(a.id as int, b.id as int),
        ord_else(
            int_cmp(a.year as int, b.year as int),
            ord_else(
                lex_cmp(a.title, b.title),
                ord_else(
                    lex_cmp(a.artist, b.artist),
                    ord_else(
                        lex_cmp(a.album, b.album),
                        ord_else(
                            lex_cmp(a.comment, b.comment),
                            ord_else(lex_cmp(a.path, b.path), lex_cmp(a.stem_lower, b.stem_lower)),
                        ),
                    ),
                ),
            ),
        ),
    )
}

/// The tie-break chain of the selected sort key. Text keys compare
/// by the precomputed lowercase forms.
pub open spec fn key_cmp(a: SongV, b: SongV, key: SortBy) -> Ordering {
    match key {
        SortBy::track => ord_else(
            int_cmp(track_key(a.track), track_key(b.track)),
            ord_else(
                lex_cmp(a.title_lower, b.title_lower),
                ord_else(
                    lex_cmp(a.album_lower, b.album_lower),
                    ord_else(
                        lex_cmp(a.artist_lower, b.artist_lower),
                        int_cmp(a.duration as int, b.duration as int),
                    ),
                ),
            ),
        ),
        SortBy::title => ord_else(
            lex_cmp(a.title_lower, b.title_lower),
            ord_else(
                int_cmp(track_key(a.track), track_key(b.track)),
                ord_else(
                    lex_cmp(a.album_lower, b.album_lower),
                    ord_else(
                        lex_cmp(a.artist_lower, b.artist_lower),
                        int_cmp(a.duration as int, b.duration as int),
                    ),
                ),
            ),
        ),
        SortBy::artist => ord_else(
            lex_cmp(a.artist_lower, b.artist_lower),
            ord_else(
                int_cmp(track_key(a.track), track_key(b.track)),
                ord_else(
                    lex_cmp(a.title_lower, b.title_lower),
                    ord_else(
                        lex_cmp(a.album_lower, b.album_lower),
                        int_cmp(a.duration as int, b.duration as int),
                    ),
                ),
            ),
        ),
        SortBy::album => ord_else(
            lex_cmp(a.album_lower, b.album_lower),
            ord_else(
                int_cmp(track_key(a.track), track_key(b.track)),
                ord_else(
                    lex_cmp(a.title_lower, b.title_lower),
                    ord_else(
                        lex_cmp(a.artist_lower, b.artist_lower),
                        int_cmp(a.duration as int, b.duration as int),
                    ),
                ),
            ),
        ),
        SortBy::duration => ord_else(
            int_cmp(a.duration as int, b.duration as int),
            ord_else(
                int_cmp(track_key(a.track), track_key(b.track)),
                ord_else(
                    lex_cmp(a.title_lower, b.title_lower),
                    ord_else(
                        lex_cmp(a.album_lower, b.album_lower),
                        lex_cmp(a.artist_lower, b.artist_lower),
                    ),
                ),
            ),
        ),
    }
}

/// The full record order for a sort key: the selectable chain, then the
/// total tie break.
pub open spec fn song_cmp(a: SongV, b: SongV, key: SortBy) -> Ordering {
    ord_else(key_cmp(a, b, key), tail_cmp(a, b))
}

/// The not-after relation that sorting uses.
pub open spec fn song_le(key: SortBy) -> spec_fn(SongV, SongV) -> bool {
    |x: SongV, y: SongV| song_cmp(x, y, key) != Ordering::Greater
}

/// Equality of the five fields every selectable chain inspects.
pub open spec fn key_eq(a: SongV, b: SongV) -> bool {
    &&& a.track == b.track
    &&& a.duration == b.duration
    &&& a.title_lower == b.title_lower
    &&& a.album_lower == b.album_lower
    &&& a.artist_lower == b.artist_lower
}

/// All order facts about the character sequences of three records, packaged
/// so that the chain lemmas below can leave the case analysis to the solver.
proof fn lex3(x: Seq<char>, y: Seq<char>, z: Seq<char>)
    ensures
        (lex_cmp(x, y) == Ordering::Equal) <==> x == y,
        (lex_cmp(y, z) == Ordering::Equal) <==> y == z,
        (lex_cmp(x, z) == Ordering::Equal) <==> x == z,
        (lex_cmp(x, y) == Ordering::Less) <==> (lex_cmp(y, x) == Ordering::Greater),
        (lex_cmp(y, z) == Ordering::Less) <==> (lex_cmp(z, y) == Ordering::Greater),
        (lex_cmp(x, z) == Ordering::Less) <==> (lex_cmp(z, x) == Ordering::Greater),
        (lex_cmp(x, y) == Ordering::Less && lex_cmp(y, z) == Ordering::Less) ==> lex_cmp(x, z)
            == Ordering::Less,
{
    lemma_lex_cmp_equal(x, y);
    lemma_lex_cmp_equal(y, z);
    lemma_lex_cmp_equal(x, z);
    lemma_lex_cmp_antisym(x, y);
    lemma_lex_cmp_antisym(y, z);
    lemma_lex_cmp_antisym(x, z);
    if lex_cmp(x, y) == Ordering::Less && lex_cmp(y, z) == Ordering::Less {
        lemma_lex_cmp_trans(x, y, z);
    }
}

/// A tie under the full order happens only between equal record values.
pub proof fn lemma_song_cmp_equal(a: SongV, b: SongV, key: SortBy)
    ensures
        (song_cmp(a, b, key) == Ordering::Equal) <==> (a == b),
{
    lex3(a.title_lower, b.title_lower, b.title_lower);
    lex3(a.album_lower, b.album_lower, b.album_lower);
    lex3(a.artist_lower, b.artist_lower, b.artist_lower);
    lex3(a.title, b.title, b.title);
    lex3(a.artist, b.artist, b.artist);
    lex3(a.album, b.album, b.album);
    lex3(a.comment, b.comment, b.comment);
    lex3(a.path, b.path, b.path);
    lex3(a.stem_lower, b.stem_lower, b.stem_lower);
    if song_cmp(a, b, key) == Ordering::Equal {
        assert(a =~= b);
    }
}

pub proof fn lemma_song_cmp_antisym(a: SongV, b: SongV, key: SortBy)
    ensures
        (song_cmp(a, b, key) == Ordering::Less) <==> (song_cmp(b, a, key) == Ordering::Greater),
{
    lex3(a.title_lower, b.title_lower, a.title_lower);
    lex3(a.album_lower, b.album_lower, a.album_lower);
    lex3(a.artist_lower, b.artist_lower, a.artist_lower);
    lex3(a.title, b.title, a.title);
    lex3(a.artist, b.artist, a.artist);
    lex3(a.album, b.album, a.album);
    lex3(a.comment, b.comment, a.comment);
    lex3(a.path, b.path, a.path);
    lex3(a.stem_lower, b.stem_lower, a.stem_lower);
}

#[verifier::rlimit(100)]
pub proof fn lemma_song_cmp_trans(a: SongV, b: SongV, c: SongV, key: SortBy)
    requires
        song_cmp(a, b, key) != Ordering::Greater,
        song_cmp(b, c, key) != Ordering::Greater,
    ensures
        song_cmp(a, c, key) != Ordering::Greater,
{
    lex3(a.title_lower, b.title_lower, c.title_lower);
    lex3(a.album_lower, b.album_lower, c.album_lower);
    lex3(a.artist_lower, b.artist_lower, c.artist_lower);
    lex3(a.title, b.title, c.title);
    lex3(a.artist, b.artist, c.artist);
    lex3(a.album, b.album, c.album);
    lex3(a.comment, b.comment, c.comment);
    lex3(a.path, b.path, c.path);
    lex3(a.stem_lower, b.stem_lower, c.stem_lower);
    lemma_song_cmp_equal(a, b, key);
    lemma_song_cmp_equal(b, c, key);
}

/// The record order is a total ordering, which sorting requires.
pub proof fn lemma_song_le_total(key: SortBy)
    ensures
        vstd::relations::total_ordering(song_le(key)),
{
    let leq = song_le(key);
    assert forall|x: SongV| #[trigger] leq(x, x) by {
        lemma_song_cmp_equal(x, x, key);
    }
    assert forall|x: SongV, y: SongV| #[trigger] leq(x, y) && #[trigger] leq(y, x) implies x
        == y by {
        lemma_song_cmp_antisym(x, y, key);
        lemma_song_cmp_antisym(y, x, key);
        lemma_song_cmp_equal(x, y, key);
    }
    assert forall|x: SongV, y: SongV, z: SongV| #[trigger] leq(x, y) && #[trigger] leq(y, z)
        implies leq(x, z) by {
        lemma_song_cmp_trans(x, y, z, key);
    }
    assert forall|x: SongV, y: SongV| #[trigger] leq(x, y) || #[trigger] leq(y, x) by {
        lemma_song_cmp_antisym(x, y, key);
        lemma_song_cmp_antisym(y, x, key);
    }
}

/// Executable three-way comparison of u64 values.
fn cmp_u64(a: u64, b: u64) -> (r: Ordering)
    ensures
        r == int_cmp(a as int, b as int),
{
    if a < b {
        Ordering::Less
    } else if a > b {
        Ordering::Greater
    } else {
        Ordering::Equal
    }
}

/// Executable three-way comparison of track numbers; a missing one is lowest.
fn cmp_track(a: Option<u16>, b: Option<u16>) -> (r: Ordering)
    ensures
        r == int_cmp(track_key(a), track_key(b)),
{
    match (a, b) {
        (None, None) => Ordering::Equal,
        (None, Some(_)) => Ordering::Less,
        (Some(_), None) => Ordering::Greater,
        (Some(x), Some(y)) => {
            if x < y {
                Ordering::Less
            } else if x > y {
                Ordering::Greater
            } else {
                Ordering::Equal
            }
        },
    }
}

/// Executable three-way comparison of string fields.
fn cmp_str_field(a: &String, b: &String) -> (r: Ordering)
    ensures
        r == lex_cmp(a@, b@),
{
    let ca = chars_of(a.as_str());
    let cb = chars_of(b.as_str());
    cmp_chars(&ca, &cb)
}

fn is_eq(o: Ordering) -> (b: bool)
    ensures
        b == (o == Ordering::Equal),
{
    matches!(o, Ordering::Equal)
}

impl Song {
    fn tail_cmp_exec(&self, other: &Song) -> (r: Ordering)
        ensures
            r == tail_cmp(self@, other@),
    {
        let mut r = cmp_u64(self.id, other.id);
        if is_eq(r) {
            r = cmp_u64(self.year as u64, other.year as u64);
        }
        if is_eq(r) {
            r = cmp_str_field(&self.title, &other.title);
        }
        if is_eq(r) {
            r = cmp_str_field(&self.artist, &other.artist);
        }
        if is_eq(r) {
            r = cmp_str_field(&self.album, &other.album);
        }
        if is_eq(r) {
            r = cmp_str_field(&self.comment, &other.comment);
        }
        if is_eq(r) {
            r = cmp_str_field(&self.path, &other.path);
        }
        if is_eq(r) {
            r = cmp_str_field(&self.stem_lower, &other.stem_lower);
        }
        r
    }

    /// Three-way comparison under the selected sort key: the selectable
    /// tie-break chain, then the total tie break.
    pub fn cmp(&self, other: &Song, sort_by: SortBy) -> (r: Ordering)
        ensures
            r == song_cmp(self@, other@, sort_by),
    {
        let mut r = match sort_by {
            SortBy::track => {
                let mut o = cmp_track(self.track, other.track);
                if is_eq(o) {
                    o = cmp_str_field(&self.title_lower, &other.title_lower);
                }
                if is_eq(o) {
                    o = cmp_str_field(&self.album_lower, &other.album_lower);
                }
                if is_eq(o) {
                    o = cmp_str_field(&self.artist_lower, &other.artist_lower);
                }
                if is_eq(o) {
                    o = cmp_u64(self.duration, other.duration);
                }
                o
            },
            SortBy::title => {
                let mut o = cmp_str_field(&self.title_lower, &other.title_lower);
                if is_eq(o) {
                    o = cmp_track(self.track, other.track);
                }
                if is_eq(o) {
                    o = cmp_str_field(&self.album_lower, &other.album_lower);
                }
                if is_eq(o) {
                    o = cmp_str_field(&self.artist_lower, &other.artist_lower);
                }
                if is_eq(o) {
                    o = cmp_u64(self.duration, other.duration);
                }
                o
            },
            SortBy::artist => {
                let mut o = cmp_str_field(&self.artist_lower, &other.artist_lower);
                if is_eq(o) {
                    o = cmp_track(self.track, other.track);
                }
                if is_eq(o) {
                    o = cmp_str_field(&self.title_lower, &other.title_lower);
                }
                if is_eq(o) {
                    o = cmp_str_field(&self.album_lower, &other.album_lower);
                }
                if is_eq(o) {
                    o = cmp_u64(self.duration, other.duration);
                }
                o
            },
            SortBy::album => {
                let mut o = cmp_str_field(&self.album_lower, &other.album_lower);
                if is_eq(o) {
                    o = cmp_track(self.track, other.track);
                }
                if is_eq(o) {
                    o = cmp_str_field(&self.title_lower, &other.title_lower);
                }
                if is_eq(o) {
                    o = cmp_str_field(&self.artist_lower, &other.artist_lower);
                }
                if is_eq(o) {
                    o = cmp_u64(self.duration, other.duration);
                }
                o
            },
            SortBy::duration => {
                let mut o = cmp_u64(self.duration, other.duration);
                if is_eq(o) {
                    o = cmp_track(self.track, other.track);
                }
                if is_eq(o) {
                    o = cmp_str_field(&self.title_lower, &other.title_lower);
                }
                if is_eq(o) {
                    o = cmp_str_field(&self.album_lower, &other.album_lower);
                }
                if is_eq(o) {
                    o = cmp_str_field(&self.artist_lower, &other.artist_lower);
                }
                o
            },
        };
        if is_eq(r) {
            r = self.tail_cmp_exec(other);
        }
        r
    }
}

} // verus!
