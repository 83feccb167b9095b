use vstd::prelude::*;
use core::cmp::Ordering;
use vstd::relations::sorted_by;
use vstd::seq_lib::lemma_sorted_unique;
use vstd::multiset::Multiset;
use crate::music_db::{db_wf, find_id, idx_of_id, lemma_idx_of_id, needs_parse, spec_insert,
    spec_merge};
use crate::query::{
    cursor_of, norm_album, norm_artist, norm_key, norm_term, query_has_more, query_page,
    query_pred, query_sorted, SearchTermsV,
};
use crate::song::{
    lemma_song_cmp_antisym, lemma_song_cmp_equal, lemma_song_le_total, song_cmp, song_le,
    song_wf, SongV, SortBy,
};

verus! {

// ---------------------------------------------------------------------------
// Helper lemmas
// ---------------------------------------------------------------------------

/// How filtering acts on element counts.
proof fn lemma_filter_count<A>(s: Seq<A>, pred: spec_fn(A) -> bool, x: A)
    ensures
        s.filter(pred).to_multiset().count(x) == (if pred(x) {
            s.to_multiset().count(x)
        } else {
            0
        }),
    decreases s.len(),
{
    broadcast use vstd::seq_lib::group_to_multiset_ensures;
    broadcast use vstd::multiset::group_multiset_axioms;

    reveal(Seq::filter);
    if s.len() == 0 {
        assert(s.to_multiset() =~= Multiset::<A>::empty());
        assert(s.filter(pred).to_multiset() =~= Multiset::<A>::empty());
    } else {
        lemma_filter_count(s.drop_last(), pred, x);
        assert(s =~= s.drop_last().push(s.last()));
        assert(s.to_multiset() =~= s.drop_last().to_multiset().insert(s.last()));
        if pred(s.last()) {
            assert(s.filter(pred) == s.drop_last().filter(pred).push(s.last()));
            assert(s.filter(pred).to_multiset() =~= s.drop_last().filter(
                pred,
            ).to_multiset().insert(s.last()));
        } else {
            assert(s.filter(pred) == s.drop_last().filter(pred));
        }
    }
}

/// In a store with unique identities, looking up a member's identity finds
/// exactly that member.
proof fn lemma_find_id_member(db: Seq<SongV>, v: SongV)
    requires
        db_wf(db),
        db.contains(v),
    ensures
        find_id(db, v.id) == Some(v),
{
    lemma_idx_of_id(db, v.id);
    let j = choose|j: int| 0 <= j < db.len() && db[j] == v;
    let i = idx_of_id(db, v.id);
    assert(db[j].id == v.id);
    assert(i < db.len());
    if i != j {
        assert(db[i].id != db[j].id);
    }
}

// ---------------------------------------------------------------------------
// Determinism and dedup of scanning
// ---------------------------------------------------------------------------

/// Scanning an unchanged catalog again changes nothing: a known path is
/// skipped outright when no rescan is forced, and even re-inserting the
/// identical record leaves the store exactly as it was.
pub proof fn lemma_scan_determinism(db: Seq<SongV>, known: Set<Seq<char>>, v: SongV)
    requires
        db_wf(db),
        known.contains(v.path),
        db.contains(v),
    ensures
        !needs_parse(known, v.path, false),
        spec_insert(db, v) == db,
{
    lemma_idx_of_id(db, v.id);
    let j = choose|j: int| 0 <= j < db.len() && db[j] == v;
    let i = idx_of_id(db, v.id);
    assert(i < db.len());
    if i != j {
        assert(db[i].id != db[j].id);
    }
    assert(db[i] == v);
    assert(spec_insert(db, v) =~= db);
}

/// Re-inserting a record whose identity the store already holds never grows
/// the store: deduplication by identity.
pub proof fn lemma_insert_dedup(db: Seq<SongV>, v: SongV)
    requires
        db_wf(db),
    ensures
        (exists|i: int| 0 <= i < db.len() && (#[trigger] db[i]).id == v.id) ==> spec_insert(
            db,
            v,
        ).len() == db.len(),
        !(exists|i: int| 0 <= i < db.len() && (#[trigger] db[i]).id == v.id) ==> spec_insert(
            db,
            v,
        ).len() == db.len() + 1,
{
    lemma_idx_of_id(db, v.id);
    if exists|i: int| 0 <= i < db.len() && (#[trigger] db[i]).id == v.id {
        let i = choose|i: int| 0 <= i < db.len() && (#[trigger] db[i]).id == v.id;
        assert(idx_of_id(db, v.id) <= i < db.len());
    }
}

// ---------------------------------------------------------------------------
// Sort order: no nondeterministic ties
// ---------------------------------------------------------------------------

/// Two distinct records never tie: one sorts strictly before the other, in
/// every sort key, and which one is fully determined by the tie-break chain.
pub proof fn lemma_no_ties(a: SongV, b: SongV, key: SortBy)
    requires
        a != b,
    ensures
        song_cmp(a, b, key) != Ordering::Equal,
        (song_cmp(a, b, key) == Ordering::Less) <==> (song_cmp(b, a, key) == Ordering::Greater),
{
    lemma_song_cmp_equal(a, b, key);
    lemma_song_cmp_antisym(a, b, key);
}

/// There is exactly one sorted arrangement of any candidate set: sorting is
/// deterministic.
pub proof fn lemma_sorted_arrangement_unique(s1: Seq<SongV>, s2: Seq<SongV>, key: SortBy)
    requires
        sorted_by(s1, song_le(key)),
        sorted_by(s2, song_le(key)),
        s1.to_multiset() == s2.to_multiset(),
    ensures
        s1 == s2,
{
    lemma_song_le_total(key);
    lemma_sorted_unique(s1, s2, song_le(key));
}

// ---------------------------------------------------------------------------
// Pagination completeness
// ---------------------------------------------------------------------------

/// Pagination completeness: when the cursor is the identity of the record at
/// position k-1 of the full sorted filtered sequence, the query's candidate
/// sequence is exactly the rest of that sequence. Successive pages therefore
/// cover the filtered set exactly once, with no duplicates and no omissions,
/// and `has_more` turns false exactly on the last page.
pub proof fn lemma_pagination_completeness(
    db: Seq<SongV>,
    t0: SearchTermsV,
    t: SearchTermsV,
    k: int,
)
    requires
        db_wf(db),
        t0.after is None,
        t.artist == t0.artist,
        t.album == t0.album,
        t.term == t0.term,
        t.limit == t0.limit,
        t.sort_by == t0.sort_by,
        1 <= k <= query_sorted(db, t0).len(),
        t.after == Some(query_sorted(db, t0)[k - 1].id),
    ensures
        query_sorted(db, t) == query_sorted(db, t0).skip(k),
        query_has_more(db, t) == (k + norm_limit_of(t) < query_sorted(db, t0).len()),
{
    broadcast use vstd::seq_lib::group_to_multiset_ensures;
    broadcast use vstd::multiset::group_multiset_axioms;

    let key = norm_key(t0);
    let le = song_le(key);
    let p0 = query_pred(db, t0);
    let pt = query_pred(db, t);
    let f0 = db.filter(p0);
    let fs = query_sorted(db, t0);
    let c = fs[k - 1];
    lemma_song_le_total(key);
    f0.lemma_sort_by_ensures(le);
    assert(sorted_by(fs, le));
    assert(fs.to_multiset() == f0.to_multiset());
    assert(fs.to_multiset().len() == fs.len());
    assert(f0.to_multiset().len() == f0.len());
    assert(fs.len() == f0.len());
    // the cursor record is a member of the store, so the cursor resolves to it
    assert(fs.contains(c));
    assert(f0.to_multiset().count(c) > 0);
    assert(f0.contains(c));
    let jc = choose|j: int| 0 <= j < f0.len() && f0[j] == c;
    assert(db.contains(c)) by {
        assert(f0[jc] == c);
        lemma_filter_member(db, p0, jc);
    }
    lemma_find_id_member(db, c);
    assert(cursor_of(db, t) == Some(c));
    // the normalized filters agree between the two term values
    assert(norm_artist(t) == norm_artist(t0));
    assert(norm_album(t) == norm_album(t0));
    assert(norm_term(t) == norm_term(t0));
    assert(norm_key(t) == key);
    // records never repeat in the candidate sequence
    assert(db.no_duplicates()) by {
        assert forall|i: int, j: int| 0 <= i < j < db.len() implies db[i] != db[j] by {
            assert(db[i].id != db[j].id);
        }
    }
    db.lemma_multiset_has_no_duplicates();
    assert forall|x: SongV| fs.to_multiset().count(x) <= 1 by {
        lemma_filter_count(db, p0, x);
        if db.to_multiset().contains(x) {
            assert(db.to_multiset().count(x) == 1);
        } else {
            assert(db.to_multiset().count(x) == 0);
        }
    }
    fs.lemma_multiset_has_no_duplicates_conv();
    assert(fs.no_duplicates());
    // before the cursor nothing sorts after it; from the cursor on,
    // everything does
    assert forall|j: int| 0 <= j < k implies song_cmp(#[trigger] fs[j], c, key)
        != Ordering::Greater by {
        if j < k - 1 {
            assert(le(fs[j], fs[k - 1]));
        } else {
            lemma_song_cmp_equal(c, c, key);
        }
    }
    assert forall|j: int| k <= j < fs.len() implies song_cmp(#[trigger] fs[j], c, key)
        == Ordering::Greater by {
        assert(le(fs[k - 1], fs[j]));
        assert(fs[k - 1] != fs[j]);
        lemma_song_cmp_equal(c, fs[j], key);
        lemma_song_cmp_antisym(c, fs[j], key);
        assert(song_cmp(c, fs[j], key) == Ordering::Less);
    }
    // the candidate multiset of the cursored query is the tail's multiset
    let tail = fs.skip(k);
    assert forall|x: SongV| db.filter(pt).to_multiset().count(x) == tail.to_multiset().count(
        x,
    ) by {
        lemma_filter_count(db, pt, x);
        lemma_filter_count(db, p0, x);
        assert(fs =~= fs.take(k) + tail);
        vstd::seq_lib::lemma_multiset_commutative(fs.take(k), tail);
        assert(pt(x) == (p0(x) && song_cmp(x, c, key) == Ordering::Greater));
        if pt(x) {
            assert(fs.take(k).to_multiset().count(x) == 0) by {
                if fs.take(k).to_multiset().count(x) > 0 {
                    assert(fs.take(k).contains(x));
                    let j = choose|j: int| 0 <= j < k && fs.take(k)[j] == x;
                    assert(fs[j] == x);
                    assert(song_cmp(fs[j], c, key) != Ordering::Greater);
                }
            }
            assert(tail.to_multiset().count(x) == fs.to_multiset().count(x));
        } else {
            assert(tail.to_multiset().count(x) == 0) by {
                if tail.to_multiset().count(x) > 0 {
                    assert(tail.contains(x));
                    let j = choose|j: int| 0 <= j < tail.len() && tail[j] == x;
                    assert(fs[j + k] == x);
                    assert(song_cmp(fs[j + k], c, key) == Ordering::Greater);
                    assert(p0(x)) by {
                        assert(fs.to_multiset().count(x) > 0);
                        assert(f0.contains(x));
                        let m = choose|m: int| 0 <= m < f0.len() && f0[m] == x;
                        db.lemma_filter_pred(p0, m);
                    }
                }
            }
        }
    }
    assert(db.filter(pt).to_multiset() =~= tail.to_multiset());
    // the tail is sorted, so it is the one sorted arrangement
    assert(sorted_by(tail, le)) by {
        assert forall|a: int, b: int| 0 <= a < b < tail.len() implies le(
            #[trigger] tail[a],
            #[trigger] tail[b],
        ) by {
            assert(tail[a] == fs[a + k]);
            assert(tail[b] == fs[b + k]);
        }
    }
    db.filter(pt).lemma_sort_by_ensures(le);
    lemma_sorted_unique(db.filter(pt).sort_by(le), tail, le);
    assert(query_sorted(db, t) == tail);
    assert(norm_limit_of(t) == crate::query::norm_limit(t));
}

/// The page size of a term value; a name for use in the pagination law.
pub open spec fn norm_limit_of(t: SearchTermsV) -> int {
    crate::query::norm_limit(t)
}

/// Every element a filter keeps comes from the sequence.
proof fn lemma_filter_member<A>(s: Seq<A>, pred: spec_fn(A) -> bool, i: int)
    requires
        0 <= i < s.filter(pred).len(),
    ensures
        s.contains(s.filter(pred)[i]),
    decreases s.len(),
{
    reveal(Seq::filter);
    if s.len() > 0 {
        let out = s.filter(pred);
        let sub = s.drop_last().filter(pred);
        if pred(s.last()) {
            if i < out.len() - 1 {
                assert(sub[i] == out[i]);
                lemma_filter_member(s.drop_last(), pred, i);
                let j = choose|j: int| 0 <= j < s.drop_last().len() && s.drop_last()[j] == out[i];
                assert(s[j] == out[i]);
            } else {
                assert(out[i] == s.last());
                assert(s[s.len() - 1] == s.last());
            }
        } else {
            assert(sub[i] == out[i]);
            lemma_filter_member(s.drop_last(), pred, i);
            let j = choose|j: int| 0 <= j < s.drop_last().len() && s.drop_last()[j] == out[i];
            assert(s[j] == out[i]);
        }
    }
}

// ---------------------------------------------------------------------------
// Case-insensitive filtering
// ---------------------------------------------------------------------------

/// Two term values whose filters lowercase to the same text ask the same
/// question: the page, the flag and the facet sets all coincide.
pub proof fn lemma_case_insensitive(db: Seq<SongV>, t1: SearchTermsV, t2: SearchTermsV)
    requires
        norm_artist(t1) == norm_artist(t2),
        norm_album(t1) == norm_album(t2),
        norm_term(t1) == norm_term(t2),
        t1.limit == t2.limit,
        t1.sort_by == t2.sort_by,
        t1.after == t2.after,
    ensures
        query_page(db, t1) == query_page(db, t2),
        query_has_more(db, t1) == query_has_more(db, t2),
{
    assert(query_pred(db, t1) =~= query_pred(db, t2));
    assert(norm_key(t1) == norm_key(t2));
    assert(query_sorted(db, t1) == query_sorted(db, t2));
}

/// The facet sets depend only on the catalog and the normalized filters,
/// never on the page size, the sort key or the cursor: truncating the main
/// result list cannot lose facet entries.
pub proof fn lemma_facets_ignore_paging(db: Seq<SongV>, t1: SearchTermsV, t2: SearchTermsV)
    requires
        norm_artist(t1) == norm_artist(t2),
        norm_album(t1) == norm_album(t2),
    ensures
        forall|a: Seq<char>| #[trigger] crate::query::in_artist_albums(db, norm_artist(t1), a)
            == crate::query::in_artist_albums(db, norm_artist(t2), a),
        forall|a: Seq<char>| #[trigger] crate::query::in_related_albums(db, norm_album(t1), a)
            == crate::query::in_related_albums(db, norm_album(t2), a),
{
}

// ---------------------------------------------------------------------------
// Snapshot round trip
// ---------------------------------------------------------------------------

/// Reinserting the records of a well-formed store, in order, into an empty
/// store rebuilds it exactly; with the per-line round trip this makes a
/// snapshot save followed by a reload the identity on the store.
pub proof fn lemma_reload_store(db: Seq<SongV>)
    requires
        db_wf(db),
    ensures
        spec_merge(Seq::empty(), db) == db,
    decreases db.len(),
{
    if db.len() == 0 {
        assert(spec_merge(Seq::empty(), db) =~= db);
    } else {
        let front = db.drop_last();
        assert(db_wf(front)) by {
            assert forall|i: int| 0 <= i < front.len() implies song_wf(#[trigger] front[i]) by {
                assert(front[i] == db[i]);
                assert(song_wf(db[i]));
            }
            assert forall|i: int, j: int| 0 <= i < j < front.len() implies front[i].id
                != front[j].id by {
                assert(db[i].id != db[j].id);
            }
        }
        lemma_reload_store(front);
        assert(spec_merge(Seq::empty(), db) == spec_insert(front, db.last()));
        lemma_idx_of_id(front, db.last().id);
        let i = idx_of_id(front, db.last().id);
        if i < front.len() {
            assert(front[i].id == db.last().id);
            assert(db[i].id != db[db.len() - 1].id);
            assert(false);
        }
        assert(spec_insert(front, db.last()) =~= db);
    }
}

} // verus!
