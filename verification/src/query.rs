use vstd::prelude::*;
use core::cmp::Ordering;
use vstd::relations::sorted_by;
use vstd::seq_lib::lemma_sorted_unique;
use crate::music_db::{contains_string, find_id, strs_of, views_of, MusicDB};
use crate::song::{
    lemma_song_cmp_antisym, lemma_song_cmp_trans, lemma_song_le_total, project_song, song_cmp,
    song_le, Song, SongResult, SongResultV, SongV, SortBy,
};
use crate::text::{chars_contain, chars_of, contains_sub, lower_of, lowercase};

verus! {

/// What a query asks for. Every field is optional; missing values fall back
/// to fixed defaults.
pub struct SearchTerms {
    pub artist: Option<String>,
    pub album: Option<String>,
    pub term: Option<String>,
    pub limit: Option<u16>,
    pub sort_by: Option<SortBy>,
    pub after: Option<u64>,
}

impl SearchTerms {
    /// The page size used when a query names none.
    pub const DEFAULT_LIMIT: u16 = 100;
}

/// The mathematical value of SearchTerms.
#[verifier::ext_equal]
pub ghost struct SearchTermsV {
    pub artist: Option<Seq<char>>,
    pub album: Option<Seq<char>>,
    pub term: Option<Seq<char>>,
    pub limit: Option<u16>,
    pub sort_by: Option<SortBy>,
    pub after: Option<u64>,
}

pub open spec fn opt_str_view(o: Option<String>) -> Option<Seq<char>> {
    match o {
        None => None,
        Some(s) => Some(s@),
    }
}

impl View for SearchTerms {
    type V = SearchTermsV;

    open spec fn view(&self) -> SearchTermsV {
        SearchTermsV {
            artist: opt_str_view(self.artist),
            album: opt_str_view(self.album),
            term: opt_str_view(self.term),
            limit: self.limit,
            sort_by: self.sort_by,
            after: self.after,
        }
    }
}

/// A page of results: the display projections, whether more matches exist
/// beyond the page, the echoed terms, and the related facet set, if any.
pub struct SearchResults {
    pub has_more: bool,
    pub search_terms: SearchTerms,
    pub results: Vec<SongResult>,
    pub other_albums: Option<Vec<String>>,
}

/// The display projections of a result vector.
pub open spec fn results_of(s: Seq<SongResult>) -> Seq<SongResultV> {
    s.map_values(|x: SongResult| x@)
}

// ---------------------------------------------------------------------------
// The query pipeline, as a function of the store and the terms
// ---------------------------------------------------------------------------

pub open spec fn opt_chars(o: Option<Seq<char>>) -> Seq<char> {
    match o {
        None => Seq::empty(),
        Some(s) => s,
    }
}

/// The artist filter, lowercased; empty when absent.
pub open spec fn norm_artist(t: SearchTermsV) -> Seq<char> {
    lower_of(opt_chars(t.artist))
}

/// The album filter, lowercased; empty when absent.
pub open spec fn norm_album(t: SearchTermsV) -> Seq<char> {
    lower_of(opt_chars(t.album))
}

/// The free-text term, lowercased; empty when absent.
pub open spec fn norm_term(t: SearchTermsV) -> Seq<char> {
    lower_of(opt_chars(t.term))
}

/// The page size in force.
pub open spec fn norm_limit(t: SearchTermsV) -> int {
    match t.limit {
        None => SearchTerms::DEFAULT_LIMIT as int,
        Some(l) => l as int,
    }
}

/// The sort key in force.
pub open spec fn norm_key(t: SearchTermsV) -> SortBy {
    match t.sort_by {
        None => SortBy::track,
        Some(k) => k,
    }
}

/// The record the cursor refers to, when it resolves; an unknown cursor
/// means no pagination filter at all.
pub open spec fn cursor_of(db: Seq<SongV>, t: SearchTermsV) -> Option<SongV> {
    match t.after {
        None => None,
        Some(id) => find_id(db, id),
    }
}

/// Whether a record passes the artist, album and free-text filters. An empty
/// filter passes everything; comparisons are case-insensitive through the
/// precomputed lowercase fields.
pub open spec fn matches_filters(
    v: SongV,
    artist_l: Seq<char>,
    album_l: Seq<char>,
    term_l: Seq<char>,
) -> bool {
    &&& (artist_l.len() > 0 ==> v.artist_lower == artist_l)
    &&& (album_l.len() > 0 ==> v.album_lower == album_l)
    &&& (term_l.len() > 0 ==> (contains_sub(v.title_lower, term_l) || contains_sub(
        v.artist_lower,
        term_l,
    ) || contains_sub(v.album_lower, term_l) || contains_sub(v.stem_lower, term_l)))
}

/// The candidate predicate: the filters, and — when the cursor resolves —
/// sorting strictly after the cursor record.
pub open spec fn query_pred(db: Seq<SongV>, t: SearchTermsV) -> spec_fn(SongV) -> bool {
    |v: SongV|
        matches_filters(v, norm_artist(t), norm_album(t), norm_term(t)) && (match cursor_of(
            db,
            t,
        ) {
            None => true,
            Some(c) => song_cmp(v, c, norm_key(t)) == Ordering::Greater,
        })
}

/// The filtered candidates, sorted under the key in force. Filtering keeps
/// store order; sorting then determines the sequence completely.
pub open spec fn query_sorted(db: Seq<SongV>, t: SearchTermsV) -> Seq<SongV> {
    db.filter(query_pred(db, t)).sort_by(song_le(norm_key(t)))
}

/// How many results the page shows.
pub open spec fn page_len(db: Seq<SongV>, t: SearchTermsV) -> int {
    if query_sorted(db, t).len() <= norm_limit(t) {
        query_sorted(db, t).len() as int
    } else {
        norm_limit(t)
    }
}

/// The page a query returns: the first `limit` sorted candidates, projected
/// to their display form.
pub open spec fn query_page(db: Seq<SongV>, t: SearchTermsV) -> Seq<SongResultV> {
    query_sorted(db, t).take(page_len(db, t)).map_values(|v: SongV| project_song(v))
}

/// Whether matches beyond the returned page exist.
pub open spec fn query_has_more(db: Seq<SongV>, t: SearchTermsV) -> bool {
    query_sorted(db, t).len() > norm_limit(t)
}

// ---------------------------------------------------------------------------
// Facets
// ---------------------------------------------------------------------------

/// Membership in the artist facet: albums carried by records of the
/// filtered artist.
pub open spec fn in_artist_albums(db: Seq<SongV>, artist_l: Seq<char>, a: Seq<char>) -> bool {
    exists|i: int|
        0 <= i < db.len() && (#[trigger] db[i]).artist_lower == artist_l && db[i].album == a
}

/// An artist (by lowercase name) with at least one record on the filtered
/// album.
pub open spec fn in_album_artists(db: Seq<SongV>, album_l: Seq<char>, x: Seq<char>) -> bool {
    exists|i: int|
        0 <= i < db.len() && (#[trigger] db[i]).album_lower == album_l && db[i].artist_lower == x
}

/// Membership in the album facet, witnessed by a record among the first
/// `upto`; the shared artist may stand anywhere in the catalog.
pub open spec fn in_related_albums_upto(
    db: Seq<SongV>,
    upto: int,
    album_l: Seq<char>,
    a: Seq<char>,
) -> bool {
    exists|i: int|
        0 <= i < upto <= db.len() && (#[trigger] db[i]).album_lower != album_l
            && in_album_artists(db, album_l, db[i].artist_lower) && db[i].album == a
}

/// Membership in the album facet: albums other than the filtered one that
/// share an artist with it.
pub open spec fn in_related_albums(db: Seq<SongV>, album_l: Seq<char>, a: Seq<char>) -> bool {
    in_related_albums_upto(db, db.len() as int, album_l, a)
}

/// The list holds each member of the set exactly once and nothing else.
pub open spec fn lists_exactly(list: Seq<Seq<char>>, member: spec_fn(Seq<char>) -> bool) -> bool {
    &&& (forall|k: int| 0 <= k < list.len() ==> member(#[trigger] list[k]))
    &&& (forall|a: Seq<char>| #[trigger] member(a) ==> list.contains(a))
    &&& (forall|k1: int, k2: int| 0 <= k1 < k2 < list.len() ==> list[k1] != list[k2])
}

// ---------------------------------------------------------------------------
// Sorting
// ---------------------------------------------------------------------------

proof fn lemma_insert_multiset<A>(s: Seq<A>, pos: int, x: A)
    requires
        0 <= pos <= s.len(),
    ensures
        s.insert(pos, x).to_multiset() =~= s.to_multiset().insert(x),
{
    broadcast use vstd::seq_lib::group_to_multiset_ensures;
    broadcast use vstd::multiset::group_multiset_axioms;

    let a = s.subrange(0, pos);
    let b = s.subrange(pos, s.len() as int);
    assert(s =~= a + b);
    vstd::seq_lib::lemma_multiset_commutative(a, b);
    assert(s.insert(pos, x) =~= a.push(x) + b);
    vstd::seq_lib::lemma_multiset_commutative(a.push(x), b);
    assert(a.push(x).to_multiset() =~= a.to_multiset().insert(x));
}

/// Sorts the records under the key in force. The result is exactly the
/// mathematical sort of the input sequence.
pub fn sort_songs(v: &mut Vec<crate::song::Song>, key: SortBy)
    ensures
        views_of(final(v)@) == views_of(old(v)@).sort_by(song_le(key)),
{
    let ghost orig = views_of(old(v)@);
    let ghost leq = song_le(key);
    let n = v.len();
    if n <= 1 {
        proof {
            lemma_song_le_total(key);
            orig.lemma_sort_by_ensures(leq);
            assert(sorted_by(views_of(v@), leq));
            lemma_sorted_unique(views_of(v@), orig.sort_by(leq), leq);
        }
        return;
    }
    let mut i: usize = 1;
    while i < n
        invariant
            1 <= i <= n,
            n == v@.len(),
            leq == song_le(key),
            sorted_by(views_of(v@).take(i as int), leq),
            views_of(v@).to_multiset() == orig.to_multiset(),
        decreases n - i,
    {
        let ghost s_pre = views_of(v@);
        let x = v.remove(i);
        let ghost s_rem = views_of(v@);
        proof {
            assert(s_rem =~= s_pre.remove(i as int));
            assert(s_rem.take(i as int) =~= s_pre.take(i as int));
        }
        let mut j: usize = 0;
        let mut found: bool = false;
        while j < i && !found
            invariant
                j <= i,
                i < n,
                n - 1 == v@.len(),
                leq == song_le(key),
                s_rem == views_of(v@),
                forall|k: int|
                    0 <= k < j ==> song_cmp(#[trigger] s_rem[k], x@, key) != Ordering::Greater,
                found ==> j < i && song_cmp(s_rem[j as int], x@, key) == Ordering::Greater,
            decreases i - j + (if found { 0int } else { 1int }),
        {
            if matches!(v[j].cmp(&x, key), Ordering::Greater) {
                found = true;
            } else {
                j = j + 1;
            }
        }
        proof {
            assert(found ==> song_cmp(s_rem[j as int], x@, key) == Ordering::Greater);
            assert(!found ==> j == i);
        }
        let ghost xj = j as int;
        v.insert(j, x);
        proof {
            let s_new = views_of(v@);
            assert(s_new =~= s_rem.insert(xj, x@));
            // the new prefix is the old prefix with x inserted at xj
            assert(s_new.take(i + 1) =~= s_rem.take(i as int).insert(xj, x@));
            let p = s_rem.take(i as int);
            let pn = s_new.take(i + 1);
            assert(sorted_by(p, leq));
            assert forall|a: int, b: int| 0 <= a < b < pn.len() implies leq(pn[a], pn[b]) by {
                let pa = if a < xj {
                    p[a]
                } else if a == xj {
                    x@
                } else {
                    p[a - 1]
                };
                let pb = if b < xj {
                    p[b]
                } else if b == xj {
                    x@
                } else {
                    p[b - 1]
                };
                assert(pn[a] == pa && pn[b] == pb);
                if a == xj {
                    // x against a later element: x is not after p[xj..]
                    if found {
                        lemma_song_cmp_antisym(p[xj], x@, key);
                        assert(leq(x@, p[xj]));
                        if b > xj + 1 {
                            assert(leq(p[xj], p[b - 1]));
                            lemma_song_cmp_trans(x@, p[xj], p[b - 1], key);
                        }
                    }
                } else if b == xj {
                    assert(song_cmp(p[a], x@, key) != Ordering::Greater);
                } else if a < xj && b > xj {
                    assert(leq(p[a], p[b - 1]));
                } else {
                    assert(leq(pa, pb));
                }
            }
            assert(sorted_by(s_new.take(i + 1), leq));
            // the multiset is unchanged by remove plus insert
            broadcast use vstd::seq_lib::group_to_multiset_ensures;
            broadcast use vstd::multiset::group_multiset_axioms;

            assert(s_pre[i as int] == x@);
            assert(s_rem.to_multiset() =~= s_pre.to_multiset().remove(x@)) by {
                assert(s_rem =~= s_pre.remove(i as int));
            }
            lemma_insert_multiset(s_rem, xj, x@);
            assert(s_pre.contains(x@));
            assert(s_pre.to_multiset().count(x@) > 0);
            assert(s_new.to_multiset() =~= s_pre.to_multiset());
        }
        i = i + 1;
    }
    proof {
        assert(views_of(v@).take(n as int) =~= views_of(v@));
        lemma_song_le_total(key);
        orig.lemma_sort_by_ensures(leq);
        lemma_sorted_unique(views_of(v@), orig.sort_by(leq), leq);
    }
}

// ---------------------------------------------------------------------------
// The query itself
// ---------------------------------------------------------------------------

/// The string a missing optional filter stands for.
fn opt_str(o: &Option<String>) -> (r: &str)
    ensures
        r@ == opt_chars(opt_str_view(*o)),
{
    match o {
        Some(s) => s.as_str(),
        None => {
            proof {
                reveal_strlit("");
                assert(""@ =~= Seq::<char>::empty());
            }
            ""
        },
    }
}

/// One step of filtering: what the filtered prefix becomes when one more
/// element is considered.
proof fn lemma_filter_take_step(s: Seq<SongV>, i: int, pred: spec_fn(SongV) -> bool)
    requires
        0 <= i < s.len(),
    ensures
        s.take(i + 1).filter(pred) == (if pred(s[i]) {
            s.take(i).filter(pred).push(s[i])
        } else {
            s.take(i).filter(pred)
        }),
{
    reveal(Seq::<SongV>::filter);
    assert(s.take(i + 1).drop_last() =~= s.take(i));
    assert(s.take(i + 1).last() == s[i]);
}

impl MusicDB {
    /// Every distinct album attributed to the filtered artist, over the
    /// whole catalog.
    fn collect_artist_albums(&self, artist_l: &String) -> (r: Vec<String>)
        ensures
            lists_exactly(
                strs_of(r@),
                (|a: Seq<char>| in_artist_albums(self@, artist_l@, a)),
            ),
    {
        let mut out: Vec<String> = Vec::new();
        let n = self.records.len();
        let mut i: usize = 0;
        while i < n
            invariant
                i <= n,
                n == self.records@.len(),
                self@ == views_of(self.records@),
                lists_exactly(
                    strs_of(out@),
                    (|a: Seq<char>| in_artist_albums(self@.take(i as int), artist_l@, a)),
                ),
            decreases n - i,
        {
            let ghost pre = strs_of(out@);
            let ghost memb_old = |a: Seq<char>|
                in_artist_albums(self@.take(i as int), artist_l@, a);
            let ghost memb_new = |a: Seq<char>|
                in_artist_albums(self@.take(i + 1), artist_l@, a);
            let s = &self.records[i];
            proof {
                assert(s@ == self@[i as int]);
                assert(self@.take(i + 1)[i as int] == self@[i as int]);
                assert forall|a: Seq<char>| #[trigger] memb_old(a) implies memb_new(a) by {
                    let k = choose|k: int|
                        0 <= k < self@.take(i as int).len() && (#[trigger] self@.take(
                            i as int,
                        )[k]).artist_lower == artist_l@ && self@.take(i as int)[k].album == a;
                    assert(self@.take(i + 1)[k] == self@.take(i as int)[k]);
                }
                assert forall|a: Seq<char>| #[trigger] memb_new(a) && a != self@[i as int].album implies
                    memb_old(a) by {
                    let k = choose|k: int|
                        0 <= k < self@.take(i + 1).len() && (#[trigger] self@.take(
                            i + 1,
                        )[k]).artist_lower == artist_l@ && self@.take(i + 1)[k].album == a;
                    assert(k < i);
                    assert(self@.take(i as int)[k] == self@.take(i + 1)[k]);
                }
            }
            if s.artist_lower.eq(artist_l) && !contains_string(&out, &s.album) {
                out.push(s.album.clone());
                proof {
                    assert(strs_of(out@) =~= pre.push(self@[i as int].album));
                    assert(memb_new(self@[i as int].album));
                    assert forall|a: Seq<char>| #[trigger] memb_new(a) implies strs_of(
                        out@,
                    ).contains(a) by {
                        if a == self@[i as int].album {
                            assert(strs_of(out@).last() == a);
                        } else {
                            assert(memb_old(a));
                            assert(pre.contains(a));
                            let k = choose|k: int| 0 <= k < pre.len() && pre[k] == a;
                            assert(strs_of(out@)[k] == a);
                        }
                    }
                }
            } else {
                proof {
                    if s.artist_lower@ == artist_l@ {
                        // the album is already listed
                        assert(strs_of(out@).contains(s.album@));
                    }
                    assert forall|a: Seq<char>| #[trigger] memb_new(a) implies strs_of(
                        out@,
                    ).contains(a) by {
                        if a == self@[i as int].album && self@[i as int].artist_lower
                            == artist_l@ {
                            assert(strs_of(out@).contains(a));
                        } else {
                            if a != self@[i as int].album {
                                assert(memb_old(a));
                            } else {
                                let k = choose|k: int|
                                    0 <= k < self@.take(i + 1).len() && (#[trigger] self@.take(
                                        i + 1,
                                    )[k]).artist_lower == artist_l@ && self@.take(i + 1)[k].album
                                        == a;
                                assert(k < i);
                                assert(self@.take(i as int)[k] == self@.take(i + 1)[k]);
                                assert(memb_old(a));
                            }
                            assert(strs_of(out@).contains(a));
                        }
                    }
                }
            }
            i = i + 1;
        }
        proof {
            assert(self@.take(n as int) =~= self@);
        }
        out
    }

    /// Every artist (by lowercase name) with a record on the filtered album.
    fn collect_album_artists(&self, album_l: &String) -> (r: Vec<String>)
        ensures
            lists_exactly(
                strs_of(r@),
                (|x: Seq<char>| in_album_artists(self@, album_l@, x)),
            ),
    {
        let mut out: Vec<String> = Vec::new();
        let n = self.records.len();
        let mut i: usize = 0;
        while i < n
            invariant
                i <= n,
                n == self.records@.len(),
                self@ == views_of(self.records@),
                lists_exactly(
                    strs_of(out@),
                    (|x: Seq<char>| in_album_artists(self@.take(i as int), album_l@, x)),
                ),
            decreases n - i,
        {
            let ghost pre = strs_of(out@);
            let ghost memb_old = |x: Seq<char>|
                in_album_artists(self@.take(i as int), album_l@, x);
            let ghost memb_new = |x: Seq<char>|
                in_album_artists(self@.take(i + 1), album_l@, x);
            let s = &self.records[i];
            proof {
                assert(s@ == self@[i as int]);
                assert(self@.take(i + 1)[i as int] == self@[i as int]);
                assert forall|x: Seq<char>| #[trigger] memb_old(x) implies memb_new(x) by {
                    let k = choose|k: int|
                        0 <= k < self@.take(i as int).len() && (#[trigger] self@.take(
                            i as int,
                        )[k]).album_lower == album_l@ && self@.take(i as int)[k].artist_lower == x;
                    assert(self@.take(i + 1)[k] == self@.take(i as int)[k]);
                }
                assert forall|x: Seq<char>| #[trigger] memb_new(x) && x != self@[i as int].artist_lower
                    implies memb_old(x) by {
                    let k = choose|k: int|
                        0 <= k < self@.take(i + 1).len() && (#[trigger] self@.take(
                            i + 1,
                        )[k]).album_lower == album_l@ && self@.take(i + 1)[k].artist_lower == x;
                    assert(k < i);
                    assert(self@.take(i as int)[k] == self@.take(i + 1)[k]);
                }
            }
            if s.album_lower.eq(album_l) && !contains_string(&out, &s.artist_lower) {
                out.push(s.artist_lower.clone());
                proof {
                    assert(strs_of(out@) =~= pre.push(self@[i as int].artist_lower));
                    assert(memb_new(self@[i as int].artist_lower));
                    assert forall|x: Seq<char>| #[trigger] memb_new(x) implies strs_of(
                        out@,
                    ).contains(x) by {
                        if x == self@[i as int].artist_lower {
                            assert(strs_of(out@).last() == x);
                        } else {
                            assert(memb_old(x));
                            assert(pre.contains(x));
                            let k = choose|k: int| 0 <= k < pre.len() && pre[k] == x;
                            assert(strs_of(out@)[k] == x);
                        }
                    }
                }
            } else {
                proof {
                    assert forall|x: Seq<char>| #[trigger] memb_new(x) implies strs_of(
                        out@,
                    ).contains(x) by {
                        if x == self@[i as int].artist_lower && self@[i as int].album_lower
                            == album_l@ {
                            assert(strs_of(out@).contains(x));
                        } else {
                            if x != self@[i as int].artist_lower {
                                assert(memb_old(x));
                            } else {
                                let k = choose|k: int|
                                    0 <= k < self@.take(i + 1).len() && (#[trigger] self@.take(
                                        i + 1,
                                    )[k]).album_lower == album_l@ && self@.take(
                                        i + 1,
                                    )[k].artist_lower == x;
                                assert(k < i);
                                assert(self@.take(i as int)[k] == self@.take(i + 1)[k]);
                                assert(memb_old(x));
                            }
                            assert(strs_of(out@).contains(x));
                        }
                    }
                }
            }
            i = i + 1;
        }
        proof {
            assert(self@.take(n as int) =~= self@);
        }
        out
    }

    /// Every distinct album, other than the filtered one, by an artist who
    /// has a record on the filtered album.
    fn collect_related_albums(&self, album_l: &String) -> (r: Vec<String>)
        ensures
            lists_exactly(
                strs_of(r@),
                (|a: Seq<char>| in_related_albums(self@, album_l@, a)),
            ),
    {
        let artists = self.collect_album_artists(album_l);
        let mut out: Vec<String> = Vec::new();
        let n = self.records.len();
        let mut i: usize = 0;
        while i < n
            invariant
                i <= n,
                n == self.records@.len(),
                self@ == views_of(self.records@),
                lists_exactly(
                    strs_of(artists@),
                    (|x: Seq<char>| in_album_artists(self@, album_l@, x)),
                ),
                lists_exactly(
                    strs_of(out@),
                    (|a: Seq<char>| in_related_albums_upto(self@, i as int, album_l@, a)),
                ),
            decreases n - i,
        {
            let ghost pre = strs_of(out@);
            let ghost memb_old = |a: Seq<char>|
                in_related_albums_upto(self@, i as int, album_l@, a);
            let ghost memb_new = |a: Seq<char>|
                in_related_albums_upto(self@, i + 1, album_l@, a);
            let s = &self.records[i];
            let ghost cond = self@[i as int].album_lower != album_l@ && in_album_artists(
                self@,
                album_l@,
                self@[i as int].artist_lower,
            );
            proof {
                assert(s@ == self@[i as int]);
                assert forall|a: Seq<char>| #[trigger] memb_new(a) implies (memb_old(a) || (
                cond && a == self@[i as int].album)) by {
                    let k = choose|k: int|
                        0 <= k < i + 1 && (#[trigger] self@[k]).album_lower != album_l@
                            && in_album_artists(self@, album_l@, self@[k].artist_lower)
                            && self@[k].album == a;
                    if k < i {
                        assert(memb_old(a));
                    }
                }
                assert(cond && memb_new(self@[i as int].album) || !cond) by {
                    if cond {
                        assert((#[trigger] self@[i as int]).album_lower != album_l@
                            && in_album_artists(self@, album_l@, self@[i as int].artist_lower)
                            && self@[i as int].album == self@[i as int].album);
                    }
                }
            }
            let keep = !s.album_lower.eq(album_l) && contains_string(&artists, &s.artist_lower);
            proof {
                // the collected artist list stands for the artist set
                let am = |x: Seq<char>| in_album_artists(self@, album_l@, x);
                if strs_of(artists@).contains(s.artist_lower@) {
                    let k = choose|k: int|
                        0 <= k < strs_of(artists@).len() && strs_of(artists@)[k]
                            == s.artist_lower@;
                    assert(am(strs_of(artists@)[k]));
                    assert(in_album_artists(self@, album_l@, strs_of(artists@)[k]));
                } else {
                    assert(!am(s.artist_lower@)) by {
                        if am(s.artist_lower@) {
                            assert(strs_of(artists@).contains(s.artist_lower@));
                        }
                    }
                    assert(!in_album_artists(self@, album_l@, s.artist_lower@));
                }
                assert(keep == cond);
            }
            if keep && !contains_string(&out, &s.album) {
                out.push(s.album.clone());
                proof {
                    assert(strs_of(out@) =~= pre.push(self@[i as int].album));
                    assert forall|a: Seq<char>| #[trigger] memb_new(a) implies strs_of(
                        out@,
                    ).contains(a) by {
                        if a == self@[i as int].album {
                            assert(strs_of(out@).last() == a);
                        } else {
                            assert(memb_old(a));
                            assert(pre.contains(a));
                            let k = choose|k: int| 0 <= k < pre.len() && pre[k] == a;
                            assert(strs_of(out@)[k] == a);
                        }
                    }
                    assert forall|k: int| 0 <= k < strs_of(out@).len() implies memb_new(
                        #[trigger] strs_of(out@)[k],
                    ) by {
                        if k < pre.len() {
                            assert(memb_old(pre[k]));
                        }
                    }
                }
            } else {
                proof {
                    assert forall|a: Seq<char>| #[trigger] memb_new(a) implies strs_of(
                        out@,
                    ).contains(a) by {
                        if memb_old(a) {
                            assert(strs_of(out@).contains(a));
                        } else {
                            assert(cond && a == self@[i as int].album);
                            assert(strs_of(out@).contains(a));
                        }
                    }
                    assert forall|k: int| 0 <= k < strs_of(out@).len() implies memb_new(
                        #[trigger] strs_of(out@)[k],
                    ) by {
                        assert(memb_old(strs_of(out@)[k]));
                    }
                }
            }
            i = i + 1;
        }
        proof {
            let c1 = |a: Seq<char>| in_related_albums_upto(self@, n as int, album_l@, a);
            let c2 = |a: Seq<char>| in_related_albums(self@, album_l@, a);
            assert(self@.len() == n);
            assert forall|a: Seq<char>| #[trigger] c2(a) implies strs_of(out@).contains(a) by {
                assert(c1(a));
            }
            assert forall|k: int| 0 <= k < strs_of(out@).len() implies c2(
                #[trigger] strs_of(out@)[k],
            ) by {
                assert(c1(strs_of(out@)[k]));
            }
        }
        out
    }

    /// Answers a query: filters the catalog case-insensitively, applies the
    /// pagination cursor, sorts under the key in force, truncates to the page
    /// size, and computes the related facet set over the whole catalog.
    pub fn query(&self, search_terms: SearchTerms) -> (r: SearchResults)
        requires
            self.wf(),
        ensures
            r.search_terms == search_terms,
            results_of(r.results@) == query_page(self@, search_terms@),
            r.has_more == query_has_more(self@, search_terms@),
            norm_artist(search_terms@).len() > 0 ==> (r.other_albums matches Some(l)
                && lists_exactly(
                strs_of(l@),
                (|a: Seq<char>| in_artist_albums(self@, norm_artist(search_terms@), a)),
            )),
            norm_artist(search_terms@).len() == 0 && norm_album(search_terms@).len() > 0 ==> (
            r.other_albums matches Some(l) && lists_exactly(
                strs_of(l@),
                (|a: Seq<char>| in_related_albums(self@, norm_album(search_terms@), a)),
            )),
            norm_artist(search_terms@).len() == 0 && norm_album(search_terms@).len() == 0
                ==> r.other_albums is None,
    {
        let ghost t = search_terms@;
        let ghost db = self@;
        let artist_l = lowercase(opt_str(&search_terms.artist));
        let album_l = lowercase(opt_str(&search_terms.album));
        let term_l = lowercase(opt_str(&search_terms.term));
        let limit: usize = match search_terms.limit {
            None => 100,
            Some(l) => l as usize,
        };
        let key: SortBy = match search_terms.sort_by {
            None => SortBy::track,
            Some(k) => k,
        };
        proof {
            assert(artist_l@ == norm_artist(t));
            assert(album_l@ == norm_album(t));
            assert(term_l@ == norm_term(t));
            assert(limit as int == norm_limit(t));
            assert(key == norm_key(t));
        }
        let cursor: Option<Song> = match search_terms.after {
            None => None,
            Some(id) => match self.find_by_id(id) {
                Some(s) => Some(s.clone()),
                None => None,
            },
        };
        proof {
            assert(match cursor {
                Some(c) => cursor_of(db, t) == Some(c@),
                None => cursor_of(db, t) is None,
            });
        }
        let term_chars = chars_of(term_l.as_str());
        let ghost pred = query_pred(db, t);
        let mut cand: Vec<Song> = Vec::new();
        let n = self.records.len();
        let mut i: usize = 0;
        proof {
            reveal(Seq::<SongV>::filter);
            assert(db.take(0) =~= Seq::<SongV>::empty());
            assert(views_of(cand@) =~= db.take(0).filter(pred));
        }
        while i < n
            invariant
                i <= n,
                n == self.records@.len(),
                db == views_of(self.records@),
                pred == query_pred(db, t),
                artist_l@ == norm_artist(t),
                album_l@ == norm_album(t),
                term_l@ == norm_term(t),
                term_chars@ == term_l@,
                key == norm_key(t),
                match cursor {
                    Some(c) => cursor_of(db, t) == Some(c@),
                    None => cursor_of(db, t) is None,
                },
                views_of(cand@) == db.take(i as int).filter(pred),
            decreases n - i,
        {
            let s = &self.records[i];
            proof {
                assert(s@ == db[i as int]);
            }
            let mut keep = true;
            if !artist_l.as_str().is_empty() && !s.artist_lower.eq(&artist_l) {
                keep = false;
            }
            if keep && !album_l.as_str().is_empty() && !s.album_lower.eq(&album_l) {
                keep = false;
            }
            if keep && !term_l.as_str().is_empty() {
                let f1 = chars_of(s.title_lower.as_str());
                let f2 = chars_of(s.artist_lower.as_str());
                let f3 = chars_of(s.album_lower.as_str());
                let f4 = chars_of(s.stem_lower.as_str());
                keep = chars_contain(&f1, &term_chars) || chars_contain(&f2, &term_chars)
                    || chars_contain(&f3, &term_chars) || chars_contain(&f4, &term_chars);
            }
            proof {
                assert(keep == matches_filters(
                    db[i as int],
                    norm_artist(t),
                    norm_album(t),
                    norm_term(t),
                ));
            }
            if keep {
                match &cursor {
                    Some(c) => {
                        keep = matches!(s.cmp(c, key), Ordering::Greater);
                    },
                    None => {},
                }
            }
            proof {
                assert(keep == pred(db[i as int]));
                lemma_filter_take_step(db, i as int, pred);
            }
            if keep {
                cand.push(s.clone());
                proof {
                    assert(views_of(cand@) =~= db.take(i as int).filter(pred).push(
                        db[i as int],
                    ));
                }
            }
            i = i + 1;
        }
        proof {
            assert(db.take(n as int) =~= db);
        }
        sort_songs(&mut cand, key);
        proof {
            assert(views_of(cand@) == query_sorted(db, t));
            assert(cand@.len() == views_of(cand@).len());
        }
        let total = cand.len();
        let has_more = total > limit;
        let take_n = if total <= limit {
            total
        } else {
            limit
        };
        let ghost ss = views_of(cand@);
        let mut results: Vec<SongResult> = Vec::new();
        proof {
            assert(results_of(results@) =~= ss.take(0).map_values(|v: SongV| project_song(v)));
        }
        let mut j: usize = 0;
        while j < take_n
            invariant
                j <= take_n,
                take_n <= cand@.len(),
                ss == views_of(cand@),
                results_of(results@) == ss.take(j as int).map_values(
                    |v: SongV| project_song(v),
                ),
            decreases take_n - j,
        {
            let r1 = SongResult::from_song(&cand[j]);
            proof {
                assert(cand@[j as int]@ == ss[j as int]);
                assert(r1@ == project_song(ss[j as int]));
            }
            let ghost pre = results_of(results@);
            results.push(r1);
            proof {
                assert(results_of(results@) =~= pre.push(project_song(ss[j as int])));
                assert(ss.take(j + 1) =~= ss.take(j as int).push(ss[j as int]));
                assert(ss.take(j + 1).map_values(|v: SongV| project_song(v)) =~= pre.push(
                    project_song(ss[j as int]),
                ));
            }
            j = j + 1;
        }
        proof {
            assert(take_n as int == page_len(db, t));
            assert(ss.take(take_n as int) =~= query_sorted(db, t).take(page_len(db, t)));
            assert(results_of(results@) == query_page(db, t));
        }
        let other_albums: Option<Vec<String>> = if !artist_l.as_str().is_empty() {
            Some(self.collect_artist_albums(&artist_l))
        } else if !album_l.as_str().is_empty() {
            Some(self.collect_related_albums(&album_l))
        } else {
            None
        };
        SearchResults { has_more, search_terms, results, other_albums }
    }
}

} // verus!
