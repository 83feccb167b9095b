use vstd::prelude::*;
use crate::song::{song_make, song_wf, subvec_chars, Song, SongV};
use crate::text::{
    chars_of, dec_digits, lemma_dec_roundtrip, parse_u64, parse_u64_spec, string_from_chars,
    u64_to_dec,
};

verus! {

// ---------------------------------------------------------------------------
// Escaping: a field may hold any character, a line may not
// ---------------------------------------------------------------------------

/// How one character is written inside a snapshot field: backslash, tab,
/// newline and carriage return get two-character escapes, all else stands
/// for itself.
pub open spec fn esc_char(c: char) -> Seq<char> {
    if c == '\\' {
        seq!['\\', '\\']
    } else if c == '\t' {
        seq!['\\', 't']
    } else if c == '\n' {
        seq!['\\', 'n']
    } else if c == '\r' {
        seq!['\\', 'r']
    } else {
        seq![c]
    }
}

pub open spec fn escape(s: Seq<char>) -> Seq<char>
    decreases s.len(),
{
    if s.len() == 0 {
        Seq::empty()
    } else {
        esc_char(s[0]) + escape(s.drop_first())
    }
}

/// The inverse reading: fails on a dangling backslash or an unknown escape.
pub open spec fn unescape(s: Seq<char>) -> Option<Seq<char>>
    decreases s.len(),
{
    if s.len() == 0 {
        Some(Seq::empty())
    } else if s[0] != '\\' {
        match unescape(s.drop_first()) {
            Some(r) => Some(seq![s[0]] + r),
            None => None,
        }
    } else if s.len() == 1 {
        None
    } else {
        let c = if s[1] == '\\' {
            Some('\\')
        } else if s[1] == 't' {
            Some('\t')
        } else if s[1] == 'n' {
            Some('\n')
        } else if s[1] == 'r' {
            Some('\r')
        } else {
            None
        };
        match (c, unescape(s.skip(2))) {
            (Some(c0), Some(r)) => Some(seq![c0] + r),
            _ => None,
        }
    }
}

pub proof fn lemma_escape_snoc(s: Seq<char>, c: char)
    ensures
        escape(s.push(c)) == escape(s) + esc_char(c),
    decreases s.len(),
{
    if s.len() == 0 {
        assert(s.push(c)[0] == c);
        assert(s.push(c).drop_first() =~= Seq::empty());
        assert(escape(s.push(c)) == esc_char(c) + escape(Seq::empty()));
        assert(esc_char(c) + escape(Seq::empty()) =~= esc_char(c));
        assert(escape(s) + esc_char(c) =~= esc_char(c));
    } else {
        assert(s.push(c).drop_first() =~= s.drop_first().push(c));
        lemma_escape_snoc(s.drop_first(), c);
        assert(escape(s.push(c)) == esc_char(s[0]) + (escape(s.drop_first()) + esc_char(c)));
        assert(esc_char(s[0]) + (escape(s.drop_first()) + esc_char(c)) =~= (esc_char(s[0])
            + escape(s.drop_first())) + esc_char(c));
    }
}

/// An escaped field never holds a raw tab, newline or carriage return.
pub proof fn lemma_escape_clean(s: Seq<char>)
    ensures
        forall|i: int|
            0 <= i < escape(s).len() ==> #[trigger] escape(s)[i] != '\t' && escape(s)[i] != '\n'
                && escape(s)[i] != '\r',
    decreases s.len(),
{
    if s.len() > 0 {
        lemma_escape_clean(s.drop_first());
        assert forall|i: int|
            0 <= i < escape(s).len() implies #[trigger] escape(s)[i] != '\t' && escape(s)[i]
            != '\n' && escape(s)[i] != '\r' by {
            if i >= esc_char(s[0]).len() {
                assert(escape(s)[i] == escape(s.drop_first())[i - esc_char(s[0]).len()]);
            }
        }
    }
}

/// Reading an escaped field gives the field back.
pub proof fn lemma_unescape_escape(s: Seq<char>)
    ensures
        unescape(escape(s)) == Some(s),
    decreases s.len(),
{
    if s.len() == 0 {
    } else {
        lemma_unescape_escape(s.drop_first());
        let e = escape(s);
        assert(e == esc_char(s[0]) + escape(s.drop_first()));
        if s[0] == '\\' || s[0] == '\t' || s[0] == '\n' || s[0] == '\r' {
            assert(e[0] == '\\');
            assert(e.len() >= 2);
            assert(e.skip(2) =~= escape(s.drop_first()));
            assert(unescape(e) == Some(seq![s[0]] + s.drop_first()));
            assert(seq![s[0]] + s.drop_first() =~= s);
        } else {
            assert(e[0] == s[0]);
            assert(e[0] != '\\');
            assert(e.drop_first() =~= escape(s.drop_first()));
            assert(unescape(e) == Some(seq![s[0]] + s.drop_first()));
            assert(seq![s[0]] + s.drop_first() =~= s);
        }
    }
}

// ---------------------------------------------------------------------------
// Fields on a line, separated by tabs
// ---------------------------------------------------------------------------

/// Index of the first tab, or the length if there is none.
pub open spec fn first_tab(s: Seq<char>) -> int
    decreases s.len(),
{
    if s.len() == 0 {
        0
    } else if s[0] == '\t' {
        0
    } else {
        1 + first_tab(s.drop_first())
    }
}

pub open spec fn join_tabs(fields: Seq<Seq<char>>) -> Seq<char>
    decreases fields.len(),
{
    if fields.len() == 0 {
        Seq::empty()
    } else if fields.len() == 1 {
        fields[0]
    } else {
        fields[0] + seq!['\t'] + join_tabs(fields.drop_first())
    }
}

pub open spec fn split_tabs(s: Seq<char>) -> Seq<Seq<char>>
    decreases s.len(),
{
    let j = first_tab(s);
    if 0 <= j && j < s.len() {
        seq![s.take(j)] + split_tabs(s.skip(j + 1))
    } else {
        seq![s]
    }
}

pub proof fn lemma_first_tab(s: Seq<char>, j: int)
    requires
        0 <= j <= s.len(),
        forall|k: int| 0 <= k < j ==> s[k] != '\t',
        j == s.len() || s[j] == '\t',
    ensures
        first_tab(s) == j,
    decreases s.len(),
{
    if s.len() == 0 {
    } else if s[0] == '\t' {
        assert(j == 0);
    } else {
        assert(j >= 1);
        lemma_first_tab(s.drop_first(), j - 1);
    }
}

/// A field sequence survives being joined and split again, provided no
/// field holds a raw tab.
pub proof fn lemma_split_join(fields: Seq<Seq<char>>)
    requires
        fields.len() >= 1,
        forall|i: int, k: int|
            0 <= i < fields.len() && 0 <= k < fields[i].len() ==> #[trigger] fields[i][k] != '\t',
    ensures
        split_tabs(join_tabs(fields)) == fields,
    decreases fields.len(),
{
    let s = join_tabs(fields);
    if fields.len() == 1 {
        lemma_first_tab(s, s.len() as int);
        assert(split_tabs(s) =~= fields);
    } else {
        let f0 = fields[0];
        let rest = join_tabs(fields.drop_first());
        assert(s == f0 + seq!['\t'] + rest);
        assert forall|k: int| 0 <= k < f0.len() implies s[k] != '\t' by {
            assert(s[k] == f0[k]);
            assert(fields[0][k] != '\t');
        }
        assert(s[f0.len() as int] == '\t');
        lemma_first_tab(s, f0.len() as int);
        assert(s.take(f0.len() as int) =~= f0);
        assert(s.skip(f0.len() as int + 1) =~= rest);
        assert forall|i: int, k: int|
            0 <= i < fields.drop_first().len() && 0 <= k < fields.drop_first()[i].len()
            implies #[trigger] fields.drop_first()[i][k] != '\t' by {
            assert(fields.drop_first()[i] == fields[i + 1]);
            assert(fields[i + 1][k] != '\t');
        }
        lemma_split_join(fields.drop_first());
        assert(split_tabs(s) =~= seq![f0] + fields.drop_first());
        assert(seq![f0] + fields.drop_first() =~= fields);
    }
}

// ---------------------------------------------------------------------------
// One record per line
// ---------------------------------------------------------------------------

/// A track number's field: empty when absent.
pub open spec fn track_field(t: Option<u16>) -> Seq<char> {
    match t {
        None => Seq::empty(),
        Some(v) => dec_digits(v as nat),
    }
}

/// The thirteen fields a record is written as, in order: identity, path,
/// title, artist, album, year, comment, duration, track, and the four
/// derived lowercase fields.
pub open spec fn record_fields(v: SongV) -> Seq<Seq<char>> {
    seq![
        dec_digits(v.id as nat),
        v.path,
        v.title,
        v.artist,
        v.album,
        dec_digits(v.year as nat),
        v.comment,
        dec_digits(v.duration as nat),
        track_field(v.track),
        v.title_lower,
        v.artist_lower,
        v.album_lower,
        v.stem_lower,
    ]
}

/// The snapshot line a record is written as.
pub open spec fn encode_record(v: SongV) -> Seq<char> {
    join_tabs(record_fields(v).map_values(|f: Seq<char>| escape(f)))
}

/// Unescapes every field; fails if any fails.
pub open spec fn unescape_all(fs: Seq<Seq<char>>) -> Option<Seq<Seq<char>>>
    decreases fs.len(),
{
    if fs.len() == 0 {
        Some(Seq::empty())
    } else {
        match (unescape(fs[0]), unescape_all(fs.drop_first())) {
            (Some(f), Some(r)) => Some(seq![f] + r),
            _ => None,
        }
    }
}

/// What reading one snapshot line yields. The stored derived fields and the
/// stored identity are validated for shape but recomputed from the content,
/// so a loaded record is always well formed.
pub open spec fn parse_record(line: Seq<char>) -> Option<SongV> {
    let raw = split_tabs(line);
    if raw.len() != 13 {
        None
    } else {
        match unescape_all(raw) {
            None => None,
            Some(f) => if parse_u64_spec(f[0]) is None {
                None
            } else if !(parse_u64_spec(f[5]) matches Some(y) && y <= u16::MAX as u64) {
                None
            } else if parse_u64_spec(f[7]) is None {
                None
            } else if f[8].len() > 0 && !(parse_u64_spec(f[8]) matches Some(tv) && tv
                <= u16::MAX as u64) {
                None
            } else {
                let y = parse_u64_spec(f[5]).unwrap();
                let d = parse_u64_spec(f[7]).unwrap();
                let track = if f[8].len() == 0 {
                    None
                } else {
                    Some(parse_u64_spec(f[8]).unwrap() as u16)
                };
                Some(song_make(f[1], f[2], f[3], f[4], y as u16, f[6], d, track))
            },
        }
    }
}

/// Writing a well-formed record and reading the line back gives the record.
pub proof fn lemma_record_roundtrip(v: SongV)
    requires
        song_wf(v),
    ensures
        parse_record(encode_record(v)) == Some(v),
{
    let fields = record_fields(v);
    let mapped = fields.map_values(|f: Seq<char>| escape(f));
    assert(mapped.len() == 13);
    assert forall|i: int, k: int|
        0 <= i < mapped.len() && 0 <= k < mapped[i].len() implies #[trigger] mapped[i][k]
        != '\t' by {
        assert(mapped[i] == escape(fields[i]));
        lemma_escape_clean(fields[i]);
    }
    lemma_split_join(mapped);
    assert(split_tabs(encode_record(v)) == mapped);
    assert forall|i: int| 0 <= i < mapped.len() implies unescape(#[trigger] mapped[i])
        == Some(fields[i]) by {
        assert(mapped[i] == escape(fields[i]));
        lemma_unescape_escape(fields[i]);
    }
    lemma_unescape_all(mapped, fields);
    assert(unescape_all(mapped) == Some(fields));
    lemma_dec_roundtrip(v.id);
    lemma_dec_roundtrip(v.year as u64);
    lemma_dec_roundtrip(v.duration);
    assert(fields[0] == dec_digits(v.id as nat));
    assert(parse_u64_spec(fields[0]) == Some(v.id));
    assert(parse_u64_spec(fields[5]) == Some(v.year as u64));
    assert(parse_u64_spec(fields[7]) == Some(v.duration));
    match v.track {
        None => {
            assert(fields[8].len() == 0);
        },
        Some(tv) => {
            lemma_dec_roundtrip(tv as u64);
            assert(fields[8] == dec_digits(tv as nat));
            assert(parse_u64_spec(fields[8]) == Some(tv as u64));
            crate::text::lemma_dec_digits_are_digits(tv as nat);
            assert(fields[8].len() > 0);
        },
    }
    let parsed = parse_record(encode_record(v));
    assert(parsed == Some(
        song_make(v.path, v.title, v.artist, v.album, v.year, v.comment, v.duration, v.track),
    ));
    assert(song_make(v.path, v.title, v.artist, v.album, v.year, v.comment, v.duration, v.track)
        =~= v);
}

// ---------------------------------------------------------------------------
// Executable encoding and parsing
// ---------------------------------------------------------------------------

/// Escapes one field.
fn escape_chars(s: &Vec<char>) -> (r: Vec<char>)
    ensures
        r@ == escape(s@),
{
    let mut out: Vec<char> = Vec::new();
    let n = s.len();
    let mut i: usize = 0;
    proof {
        assert(s@.take(0) =~= Seq::empty());
        assert(out@ =~= escape(s@.take(0)));
    }
    while i < n
        invariant
            i <= n,
            n == s@.len(),
            out@ == escape(s@.take(i as int)),
        decreases n - i,
    {
        let c = s[i];
        proof {
            lemma_escape_snoc(s@.take(i as int), c);
            assert(s@.take(i + 1) =~= s@.take(i as int).push(c));
        }
        if c == '\\' {
            out.push('\\');
            out.push('\\');
        } else if c == '\t' {
            out.push('\\');
            out.push('t');
        } else if c == '\n' {
            out.push('\\');
            out.push('n');
        } else if c == '\r' {
            out.push('\\');
            out.push('r');
        } else {
            out.push(c);
        }
        proof {
            assert(out@ =~= escape(s@.take(i as int)) + esc_char(c));
        }
        i = i + 1;
    }
    proof {
        assert(s@.take(n as int) =~= s@);
    }
    out
}

/// Reads one escaped field back.
fn unescape_chars(s: &Vec<char>) -> (r: Option<Vec<char>>)
    ensures
        match r {
            Some(v) => unescape(s@) == Some(v@),
            None => unescape(s@) is None,
        },
{
    let mut out: Vec<char> = Vec::new();
    let n = s.len();
    let mut i: usize = 0;
    proof {
        assert(s@.skip(0) =~= s@);
    }
    while i < n
        invariant
            i <= n,
            n == s@.len(),
            unescape(s@) == (match unescape(s@.skip(i as int)) {
                Some(r) => Some(out@ + r),
                None => None::<Seq<char>>,
            }),
        decreases n - i,
    {
        let ghost rem = s@.skip(i as int);
        let c = s[i];
        proof {
            assert(rem[0] == c);
        }
        if c == '\\' {
            if i + 1 == n {
                proof {
                    assert(rem.len() == 1);
                    assert(unescape(rem) is None);
                }
                return None;
            }
            let d = s[i + 1];
            proof {
                assert(rem[1] == d);
                assert(rem.skip(2) =~= s@.skip(i + 2));
            }
            let m: char;
            if d == '\\' {
                m = '\\';
            } else if d == 't' {
                m = '\t';
            } else if d == 'n' {
                m = '\n';
            } else if d == 'r' {
                m = '\r';
            } else {
                proof {
                    assert(unescape(rem) is None);
                }
                return None;
            }
            let ghost pre = out@;
            out.push(m);
            proof {
                assert(unescape(rem) == (match unescape(s@.skip(i + 2)) {
                    Some(r) => Some(seq![m] + r),
                    None => None::<Seq<char>>,
                }));
                if unescape(s@.skip(i + 2)) is Some {
                    assert(pre + (seq![m] + unescape(s@.skip(i + 2)).unwrap()) =~= out@
                        + unescape(s@.skip(i + 2)).unwrap());
                }
            }
            i = i + 2;
        } else {
            proof {
                assert(rem.drop_first() =~= s@.skip(i + 1));
            }
            let ghost pre = out@;
            out.push(c);
            proof {
                assert(unescape(rem) == (match unescape(s@.skip(i + 1)) {
                    Some(r) => Some(seq![c] + r),
                    None => None::<Seq<char>>,
                }));
                if unescape(s@.skip(i + 1)) is Some {
                    assert(pre + (seq![c] + unescape(s@.skip(i + 1)).unwrap()) =~= out@
                        + unescape(s@.skip(i + 1)).unwrap());
                }
            }
            i = i + 1;
        }
    }
    proof {
        assert(s@.skip(n as int) =~= Seq::<char>::empty());
        assert(out@ + Seq::<char>::empty() =~= out@);
    }
    Some(out)
}

/// Splits a line into its raw fields at tabs.
fn split_tabs_exec(s: &Vec<char>) -> (r: Vec<Vec<char>>)
    ensures
        r@.map_values(|f: Vec<char>| f@) == split_tabs(s@),
{
    let ghost m = |f: Vec<char>| f@;
    let mut parts: Vec<Vec<char>> = Vec::new();
    let n = s.len();
    let mut start: usize = 0;
    let mut done = false;
    proof {
        assert(s@.skip(0) =~= s@);
        assert(parts@.map_values(m) =~= Seq::<Seq<char>>::empty());
    }
    while !done
        invariant
            start <= n,
            n == s@.len(),
            m == (|f: Vec<char>| f@),
            !done ==> split_tabs(s@) == parts@.map_values(m) + split_tabs(
                s@.skip(start as int),
            ),
            done ==> parts@.map_values(m) == split_tabs(s@),
        decreases n - start + (if done { 0int } else { 1int }),
    {
        let ghost rem = s@.skip(start as int);
        let mut j: usize = start;
        let mut found = false;
        while j < n && !found
            invariant
                start <= j <= n,
                n == s@.len(),
                forall|k: int| start <= k < j ==> s@[k] != '\t',
                found ==> j < n && s@[j as int] == '\t',
            decreases n - j + (if found { 0int } else { 1int }),
        {
            if s[j] == '\t' {
                found = true;
            } else {
                j = j + 1;
            }
        }
        proof {
            assert forall|k: int| 0 <= k < j - start implies rem[k] != '\t' by {
                assert(rem[k] == s@[k + start]);
            }
            if found {
                assert(rem[j - start] == '\t');
            }
            lemma_first_tab(rem, j - start);
        }
        let field = subvec_chars(s, start, j);
        let ghost pre = parts@.map_values(m);
        parts.push(field);
        proof {
            assert(parts@.map_values(m) =~= pre.push(field@));
        }
        if j == n {
            proof {
                assert(first_tab(rem) == rem.len());
                assert(field@ =~= rem);
                assert(split_tabs(rem) =~= seq![rem]);
                assert(pre.push(field@) =~= pre + seq![rem]);
            }
            done = true;
        } else {
            proof {
                assert(0 <= first_tab(rem) < rem.len());
                assert(field@ =~= rem.take(j - start));
                assert(rem.skip(j - start + 1) =~= s@.skip(j + 1));
                assert(split_tabs(rem) == seq![rem.take(j - start)] + split_tabs(
                    s@.skip(j + 1),
                ));
                assert(pre.push(field@) + split_tabs(s@.skip(j + 1)) =~= pre + split_tabs(rem));
            }
            start = j + 1;
        }
    }
    parts
}

/// Writes a record as one snapshot line.
pub fn encode_song(song: &Song) -> (r: String)
    ensures
        r@ == encode_record(song@),
{
    let mut fields: Vec<Vec<char>> = Vec::new();
    fields.push(u64_to_dec(song.id));
    fields.push(chars_of(song.path.as_str()));
    fields.push(chars_of(song.title.as_str()));
    fields.push(chars_of(song.artist.as_str()));
    fields.push(chars_of(song.album.as_str()));
    fields.push(u64_to_dec(song.year as u64));
    fields.push(chars_of(song.comment.as_str()));
    fields.push(u64_to_dec(song.duration));
    match song.track {
        None => fields.push(Vec::new()),
        Some(t) => fields.push(u64_to_dec(t as u64)),
    }
    fields.push(chars_of(song.title_lower.as_str()));
    fields.push(chars_of(song.artist_lower.as_str()));
    fields.push(chars_of(song.album_lower.as_str()));
    fields.push(chars_of(song.stem_lower.as_str()));
    let ghost fv = fields@.map_values(|f: Vec<char>| f@);
    proof {
        assert(fv =~= record_fields(song@));
    }
    let ghost mapped = record_fields(song@).map_values(|f: Seq<char>| escape(f));
    let mut out: Vec<char> = Vec::new();
    let mut i: usize = 0;
    while i < 13
        invariant
            i <= 13,
            fields@.len() == 13,
            fields@.map_values(|f: Vec<char>| f@) == record_fields(song@),
            mapped == record_fields(song@).map_values(|f: Seq<char>| escape(f)),
            i == 0 ==> out@ =~= Seq::<char>::empty(),
            0 < i < 13 ==> join_tabs(mapped) == out@ + seq!['\t'] + join_tabs(
                mapped.skip(i as int),
            ),
            i == 13 ==> out@ == join_tabs(mapped),
        decreases 13 - i,
    {
        let mut e = escape_chars(&fields[i]);
        proof {
            assert(fields@[i as int]@ == record_fields(song@)[i as int]);
            assert(e@ == mapped[i as int]);
        }
        let ghost pre = out@;
        if i > 0 {
            out.push('\t');
        }
        out.append(&mut e);
        proof {
            let msk = mapped.skip(i as int);
            if i == 0 {
                assert(mapped.skip(0) =~= mapped);
                assert(msk.drop_first() =~= mapped.skip(1));
                assert(join_tabs(mapped) == mapped[0] + seq!['\t'] + join_tabs(mapped.skip(1)));
                assert(out@ =~= mapped[0]);
                assert(join_tabs(mapped) =~= out@ + seq!['\t'] + join_tabs(mapped.skip(1)));
            } else if i < 12 {
                assert(msk.len() == 13 - i);
                assert(msk[0] == mapped[i as int]);
                assert(msk.drop_first() =~= mapped.skip(i + 1));
                assert(join_tabs(msk) == mapped[i as int] + seq!['\t'] + join_tabs(
                    mapped.skip(i + 1),
                ));
                assert(out@ =~= pre + seq!['\t'] + mapped[i as int]);
                assert(join_tabs(mapped) =~= out@ + seq!['\t'] + join_tabs(mapped.skip(i + 1)));
            } else {
                assert(msk.len() == 1);
                assert(msk[0] == mapped[12]);
                assert(join_tabs(msk) == mapped[12]);
                assert(out@ =~= pre + seq!['\t'] + mapped[12]);
                assert(join_tabs(mapped) =~= out@);
            }
        }
        i = i + 1;
    }
    string_from_chars(&out)
}

/// Reads one snapshot line; a line that does not parse yields nothing. A
/// parsed record is rebuilt from its content fields and is well formed.
pub fn parse_song_line(line: &str) -> (r: Option<Song>)
    ensures
        match r {
            Some(s) => parse_record(line@) == Some(s@) && song_wf(s@),
            None => parse_record(line@) is None,
        },
{
    let cs = chars_of(line);
    let raw = split_tabs_exec(&cs);
    let ghost rawm = raw@.map_values(|f: Vec<char>| f@);
    if raw.len() != 13 {
        return None;
    }
    let mut clean: Vec<Vec<char>> = Vec::new();
    let mut i: usize = 0;
    proof {
        assert(rawm.skip(0) =~= rawm);
        assert(clean@.map_values(|f: Vec<char>| f@) =~= Seq::<Seq<char>>::empty());
    }
    while i < 13
        invariant
            i <= 13,
            raw@.len() == 13,
            rawm == raw@.map_values(|f: Vec<char>| f@),
            rawm == split_tabs(line@),
            unescape_all(rawm) == (match unescape_all(rawm.skip(i as int)) {
                Some(rest) => Some(clean@.map_values(|f: Vec<char>| f@) + rest),
                None => None::<Seq<Seq<char>>>,
            }),
            clean@.len() == i,
        decreases 13 - i,
    {
        let ghost rem = rawm.skip(i as int);
        proof {
            assert(rem[0] == rawm[i as int]);
            assert(rem.drop_first() =~= rawm.skip(i + 1));
            assert(raw@[i as int]@ == rawm[i as int]);
        }
        match unescape_chars(&raw[i]) {
            Some(f) => {
                let ghost pre = clean@.map_values(|g: Vec<char>| g@);
                clean.push(f);
                proof {
                    assert(clean@.map_values(|g: Vec<char>| g@) =~= pre.push(f@));
                    if unescape_all(rawm.skip(i + 1)) is Some {
                        assert(pre + (seq![f@] + unescape_all(rawm.skip(i + 1)).unwrap())
                            =~= pre.push(f@) + unescape_all(rawm.skip(i + 1)).unwrap());
                    }
                }
            },
            None => {
                proof {
                    assert(unescape_all(rem) is None);
                }
                return None;
            },
        }
        i = i + 1;
    }
    let ghost cleanm = clean@.map_values(|f: Vec<char>| f@);
    proof {
        assert(rawm.skip(13) =~= Seq::<Seq<char>>::empty());
        assert(cleanm + Seq::<Seq<char>>::empty() =~= cleanm);
        assert(unescape_all(rawm) == Some(cleanm));
        assert forall|k: int| 0 <= k < 13 implies cleanm[k] == clean@[k]@ by {}
    }
    match parse_u64(&clean[0]) {
        Some(_) => {},
        None => {
            return None;
        },
    }
    let year_w = match parse_u64(&clean[5]) {
        Some(y) => {
            if y <= 65535 {
                y
            } else {
                return None;
            }
        },
        None => {
            return None;
        },
    };
    let dur = match parse_u64(&clean[7]) {
        Some(d) => d,
        None => {
            return None;
        },
    };
    let track: Option<u16> = if clean[8].len() == 0 {
        None
    } else {
        match parse_u64(&clean[8]) {
            Some(t) => {
                if t <= 65535 {
                    Some(t as u16)
                } else {
                    return None;
                }
            },
            None => {
                return None;
            },
        }
    };
    let song = Song::new(
        string_from_chars(&clean[1]),
        string_from_chars(&clean[2]),
        string_from_chars(&clean[3]),
        string_from_chars(&clean[4]),
        year_w as u16,
        string_from_chars(&clean[6]),
        dur,
        track,
    );
    proof {
        assert(parse_record(line@) == Some(song@));
    }
    Some(song)
}

/// Unescaping distributes over a sequence of escaped fields.
proof fn lemma_unescape_all(mapped: Seq<Seq<char>>, fields: Seq<Seq<char>>)
    requires
        mapped.len() == fields.len(),
        forall|i: int| 0 <= i < mapped.len() ==> unescape(#[trigger] mapped[i]) == Some(fields[i]),
    ensures
        unescape_all(mapped) == Some(fields),
    decreases mapped.len(),
{
    if mapped.len() == 0 {
        assert(fields =~= Seq::<Seq<char>>::empty());
    } else {
        assert forall|i: int|
            0 <= i < mapped.drop_first().len() implies unescape(
            #[trigger] mapped.drop_first()[i],
        ) == Some(fields.drop_first()[i]) by {
            assert(mapped.drop_first()[i] == mapped[i + 1]);
            assert(fields.drop_first()[i] == fields[i + 1]);
        }
        lemma_unescape_all(mapped.drop_first(), fields.drop_first());
        assert(unescape_all(mapped) == Some(seq![fields[0]] + fields.drop_first()));
        assert(seq![fields[0]] + fields.drop_first() =~= fields);
    }
}

} // verus!
