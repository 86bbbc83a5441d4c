//! The archive adapter: scans gzip-compressed tar containers of package
//! descriptor entries, in a bulk search mode and in a lookup-by-identity
//! mode, both over the `%FIELD%` / value-lines grammar.

use vstd::prelude::*;
use vstd::seq_lib::{lemma_multiset_commutative, to_multiset_build, to_multiset_len};
use vstd::multiset::{Multiset, lemma_multiset_empty_len};
use crate::fuzzy::{spec_fuzzy_match, spec_exceeds_threshold, fuzzy_match, exceeds_threshold};
use crate::managers::{
    Package, PackageV, DetailsMap, DetailsMapV, all_wf, sorted_desc, insert_by_score,
    lemma_fuzzy_match_wf,
};
use crate::text::{
    chars_of, string_from_chars, eq_chars, copy_chars, copy_range, trim_chars, spec_trim,
    spec_lines, split_str_lines, spec_pure, pure_name,
};

verus! {

/// One package database container: where it lives (its short name is derived
/// from the file name) and its raw compressed bytes.
pub struct RepoDb {
    pub path: String,
    pub data: Vec<u8>,
}

impl DeepView for RepoDb {
    type V = (Seq<char>, Seq<u8>);

    open spec fn deep_view(&self) -> (Seq<char>, Seq<u8>) {
        (self.path@, self.data@)
    }
}

/// One entry of a tar archive: its path and its body, decoded as text.
pub struct TarEntry {
    pub path: String,
    pub text: String,
}

impl DeepView for TarEntry {
    type V = (Seq<char>, Seq<char>);

    open spec fn deep_view(&self) -> (Seq<char>, Seq<char>) {
        (self.path@, self.text@)
    }
}

/// The bytes a gzip stream decodes to (empty when the stream is corrupt).
pub uninterp spec fn gunzip_of(data: Seq<u8>) -> Seq<u8>;

/// Relies on flate2's `GzDecoder` over an in-memory buffer: the decoded bytes
/// are a function of the input bytes alone; a corrupt stream yields the empty
/// result.
#[verifier::external_body]
fn gunzip(data: &[u8]) -> (r: Vec<u8>)
    ensures
        r@ == gunzip_of(data@),
{
    let mut out = Vec::new();
    let mut dec = flate2::read::GzDecoder::new(data);
    match std::io::Read::read_to_end(&mut dec, &mut out) {
        Ok(_) => out,
        Err(_) => Vec::new(),
    }
}

/// The readable UTF-8 entries of a tar archive, with their paths, in order.
pub uninterp spec fn tar_entries_of(data: Seq<u8>) -> Seq<(Seq<char>, Seq<char>)>;

/// Relies on tar's `Archive` over an in-memory buffer: the entries and their
/// paths are a function of the archive bytes alone; an unreadable or
/// non-UTF-8 entry is skipped, and a malformed archive yields what was read
/// up to the fault.
#[verifier::external_body]
fn tar_entries(data: &[u8]) -> (r: Vec<TarEntry>)
    ensures
        r.deep_view() == tar_entries_of(data@),
{
    let mut out = Vec::new();
    let mut ar = tar::Archive::new(data);
    let entries = match ar.entries() { Ok(e) => e, Err(_) => return Vec::new() };
    for ent in entries {
        let mut e = match ent { Ok(e) => e, Err(_) => continue };
        let path = match e.path() { Ok(p) => p.to_string_lossy().into_owned(), Err(_) => continue };
        let mut text = String::new();
        if std::io::Read::read_to_string(&mut e, &mut text).is_ok() { out.push(TarEntry { path, text }); }
    }
    out
}

/// The entries of one container: the tar entries of its gunzipped bytes.
pub open spec fn spec_db_entries(data: Seq<u8>) -> Seq<(Seq<char>, Seq<char>)> {
    tar_entries_of(gunzip_of(data))
}

/// A descriptor entry's path: the final path component is `desc`.
pub open spec fn spec_is_desc_path(p: Seq<char>) -> bool {
    p == "desc"@ || (p.len() >= 5 && p.skip(p.len() - 5) == "/desc"@)
}

fn is_desc_path(p: &[char]) -> (r: bool)
    ensures
        r == spec_is_desc_path(p@),
{
    let d = chars_of("desc");
    let sd = chars_of("/desc");
    if eq_chars(p, d.as_slice()) {
        return true;
    }
    if p.len() >= 5 {
        let tail = copy_range(p, p.len() - 5, p.len());
        proof {
            assert(tail@ =~= p@.skip(p@.len() - 5));
        }
        eq_chars(tail.as_slice(), sd.as_slice())
    } else {
        false
    }
}

pub open spec fn trim_pct_start(s: Seq<char>) -> Seq<char>
    decreases s.len(),
{
    if s.len() > 0 && s[0] == '%' {
        trim_pct_start(s.drop_first())
    } else {
        s
    }
}

pub open spec fn trim_pct_end(s: Seq<char>) -> Seq<char>
    decreases s.len(),
{
    if s.len() > 0 && s.last() == '%' {
        trim_pct_end(s.drop_last())
    } else {
        s
    }
}

/// A marker line with its leading and trailing `%` characters removed: the
/// field name.
pub open spec fn spec_trim_pct(s: Seq<char>) -> Seq<char> {
    trim_pct_end(trim_pct_start(s))
}

#[verifier::loop_isolation(false)]
fn trim_pct(v: &[char]) -> (r: Vec<char>)
    ensures
        r@ == spec_trim_pct(v@),
{
    let n = v.len();
    let mut a: usize = 0;
    proof {
        assert(v@.skip(0) =~= v@);
    }
    while a < n && v[a] == '%'
        invariant
            a <= n == v@.len(),
            trim_pct_start(v@) == trim_pct_start(v@.skip(a as int)),
        decreases n - a,
    {
        proof {
            assert(v@.skip(a as int).drop_first() =~= v@.skip(a + 1 as int));
        }
        a += 1;
    }
    proof {
        if a == n {
            assert(v@.skip(a as int) =~= Seq::<char>::empty());
        }
        assert(trim_pct_start(v@) == v@.skip(a as int));
        assert(v@.skip(a as int) =~= v@.subrange(a as int, n as int));
    }
    let mut b: usize = n;
    while b > a && v[b - 1] == '%'
        invariant
            a <= b <= n,
            trim_pct_end(v@.subrange(a as int, n as int)) == trim_pct_end(
                v@.subrange(a as int, b as int),
            ),
        decreases b,
    {
        proof {
            assert(v@.subrange(a as int, b as int).drop_last() =~= v@.subrange(
                a as int,
                b - 1 as int,
            ));
        }
        b -= 1;
    }
    proof {
        assert(trim_pct_end(v@.subrange(a as int, b as int)) == v@.subrange(a as int, b as int));
    }
    copy_range(v, a, b)
}

/// Value lines joined by single newlines.
pub open spec fn spec_join_nl(vals: Seq<Seq<char>>) -> Seq<char>
    decreases vals.len(),
{
    if vals.len() == 0 {
        Seq::empty()
    } else if vals.len() == 1 {
        vals[0]
    } else {
        spec_join_nl(vals.drop_last()) + seq!['\n'] + vals.last()
    }
}

#[verifier::loop_isolation(false)]
fn join_nl(vals: &Vec<Vec<char>>) -> (r: Vec<char>)
    ensures
        r@ == spec_join_nl(vals@.map_values(|t: Vec<char>| t@)),
{
    let ghost vd = vals@.map_values(|t: Vec<char>| t@);
    let n = vals.len();
    let mut out: Vec<char> = Vec::new();
    let mut i: usize = 0;
    proof {
        assert(out@ =~= spec_join_nl(vd.take(0)));
    }
    while i < n
        invariant
            i <= n == vals@.len(),
            vd == vals@.map_values(|t: Vec<char>| t@),
            out@ == spec_join_nl(vd.take(i as int)),
        decreases n - i,
    {
        if i > 0 {
            out.push('\n');
        }
        let mut j: usize = 0;
        let ghost mid = out@;
        let m = vals[i].len();
        while j < m
            invariant
                j <= m == vals@[i as int]@.len(),
                i < n == vals@.len(),
                vd == vals@.map_values(|t: Vec<char>| t@),
                out@ == mid + vals@[i as int]@.take(j as int),
            decreases m - j,
        {
            let c = vals[i][j];
            out.push(c);
            proof {
                assert(out@ =~= mid + vals@[i as int]@.take(j + 1 as int));
            }
            j += 1;
        }
        proof {
            assert(vals@[i as int]@.take(m as int) =~= vd[i as int]);
            if i == 0 {
                assert(vd.take(1).len() == 1);
                assert(vd.take(1)[0] == vd[0]);
                assert(out@ =~= vd[0]);
            } else {
                assert(vd.take(i + 1 as int).drop_last() =~= vd.take(i as int));
                assert(vd.take(i + 1 as int).last() == vd[i as int]);
                assert(out@ =~= spec_join_nl(vd.take(i as int)) + seq!['\n'] + vd[i as int]);
            }
        }
        i += 1;
    }
    proof {
        assert(vd.take(n as int) =~= vd);
    }
    out
}

/// Flushing the pending field: it is recorded only when both a field name and
/// at least one value line have been seen.
pub open spec fn spec_flush(
    acc: Seq<(Seq<char>, Seq<char>)>,
    key: Seq<char>,
    vals: Seq<Seq<char>>,
) -> Seq<(Seq<char>, Seq<char>)> {
    if key.len() > 0 && vals.len() > 0 {
        acc.push((key, spec_join_nl(vals)))
    } else {
        acc
    }
}

/// The `%FIELD%` grammar as a fold over the lines: a line starting with `%`
/// opens a new field named by the line without its `%` frame; every non-blank
/// line until the next marker is a value line (trimmed); a field's value is
/// its value lines joined by newlines. Fields may come in any order, and no
/// trailing blank line is needed.
pub open spec fn spec_parse_rec(
    lines: Seq<Seq<char>>,
    key: Seq<char>,
    vals: Seq<Seq<char>>,
    acc: Seq<(Seq<char>, Seq<char>)>,
) -> Seq<(Seq<char>, Seq<char>)>
    decreases lines.len(),
{
    if lines.len() == 0 {
        spec_flush(acc, key, vals)
    } else {
        let l = lines[0];
        if l.len() > 0 && l[0] == '%' {
            spec_parse_rec(lines.drop_first(), spec_trim_pct(l), Seq::empty(), spec_flush(acc, key, vals))
        } else if spec_trim(l).len() > 0 {
            spec_parse_rec(lines.drop_first(), key, vals.push(spec_trim(l)), acc)
        } else {
            spec_parse_rec(lines.drop_first(), key, vals, acc)
        }
    }
}

/// The fields of a descriptor text.
pub open spec fn spec_fields_of(text: Seq<char>) -> Seq<(Seq<char>, Seq<char>)> {
    spec_parse_rec(spec_lines(text), Seq::empty(), Seq::empty(), Seq::empty())
}

#[verifier::loop_isolation(false)]
fn parse_fields(lines: &[&str]) -> (r: Vec<(Vec<char>, Vec<char>)>)
    ensures
        r.deep_view() == spec_parse_rec(
            lines@.map_values(|l: &str| l@),
            Seq::empty(),
            Seq::empty(),
            Seq::empty(),
        ),
{
    let ghost ld = lines@.map_values(|l: &str| l@);
    let n = lines.len();
    let mut key: Vec<char> = Vec::new();
    let mut vals: Vec<Vec<char>> = Vec::new();
    let mut acc: Vec<(Vec<char>, Vec<char>)> = Vec::new();
    let mut i: usize = 0;
    proof {
        assert(ld.skip(0) =~= ld);
        assert(key@ =~= Seq::<char>::empty());
        assert(vals@.map_values(|t: Vec<char>| t@) =~= Seq::<Seq<char>>::empty());
        assert(acc.deep_view() =~= Seq::<(Seq<char>, Seq<char>)>::empty());
    }
    while i < n
        invariant
            i <= n == lines@.len(),
            ld == lines@.map_values(|l: &str| l@),
            spec_parse_rec(ld.skip(i as int), key@, vals@.map_values(|t: Vec<char>| t@), acc.deep_view())
                == spec_parse_rec(ld, Seq::empty(), Seq::empty(), Seq::empty()),
        decreases n - i,
    {
        let lc = chars_of(lines[i]);
        proof {
            assert(ld.skip(i as int)[0] == ld[i as int]);
            assert(ld[i as int] == lines@[i as int]@);
            assert(ld.skip(i as int).drop_first() =~= ld.skip(i + 1 as int));
        }
        if lc.len() > 0 && lc[0] == '%' {
            let ghost acc_old = acc.deep_view();
            let ghost key_old = key@;
            let ghost vals_old = vals@.map_values(|t: Vec<char>| t@);
            if key.len() > 0 && vals.len() > 0 {
                let joined = join_nl(&vals);
                let kc = copy_chars(key.as_slice());
                let ghost kd = kc@;
                let ghost jd = joined@;
                acc.push((kc, joined));
                proof {
                    assert(acc.deep_view().last().0 =~= kd);
                    assert(acc.deep_view().last().1 =~= jd);
                    assert(acc.deep_view() =~= spec_flush(acc_old, key_old, vals_old));
                }
            } else {
                proof {
                    assert(acc.deep_view() =~= spec_flush(acc_old, key_old, vals_old));
                }
            }
            key = trim_pct(lc.as_slice());
            vals = Vec::new();
            proof {
                assert(vals@.map_values(|t: Vec<char>| t@) =~= Seq::<Seq<char>>::empty());
            }
        } else {
            let tl = trim_chars(lc.as_slice());
            if tl.len() > 0 {
                let ghost vals_old = vals@.map_values(|t: Vec<char>| t@);
                vals.push(tl);
                proof {
                    assert(vals@.map_values(|t: Vec<char>| t@) =~= vals_old.push(
                        spec_trim(ld[i as int]),
                    ));
                }
            }
        }
        i += 1;
    }
    proof {
        assert(ld.skip(n as int) =~= Seq::<Seq<char>>::empty());
    }
    let ghost acc_old = acc.deep_view();
    let ghost key_old = key@;
    let ghost vals_old = vals@.map_values(|t: Vec<char>| t@);
    if key.len() > 0 && vals.len() > 0 {
        let joined = join_nl(&vals);
        let ghost jd = joined@;
        acc.push((key, joined));
        proof {
            assert(acc.deep_view().last().0 =~= key_old);
            assert(acc.deep_view().last().1 =~= jd);
            assert(acc.deep_view() =~= spec_flush(acc_old, key_old, vals_old));
        }
    } else {
        proof {
            assert(acc.deep_view() =~= spec_flush(acc_old, key_old, vals_old));
        }
    }
    acc
}

/// The value of a field: the most recently parsed occurrence wins, as an
/// overwriting map insert would have it.
pub open spec fn spec_field_get(
    fields: Seq<(Seq<char>, Seq<char>)>,
    key: Seq<char>,
) -> Option<Seq<char>>
    decreases fields.len(),
{
    if fields.len() == 0 {
        None
    } else if fields.last().0 == key {
        Some(fields.last().1)
    } else {
        spec_field_get(fields.drop_last(), key)
    }
}

#[verifier::loop_isolation(false)]
fn get_field(fields: &Vec<(Vec<char>, Vec<char>)>, key: &[char]) -> (r: Option<Vec<char>>)
    ensures
        match r {
            Some(v) => spec_field_get(fields.deep_view(), key@) == Some(v@),
            None => spec_field_get(fields.deep_view(), key@) is None,
        },
{
    let n = fields.len();
    let mut i: usize = n;
    proof {
        assert(fields.deep_view().take(n as int) =~= fields.deep_view());
    }
    while i > 0
        invariant
            i <= n == fields@.len(),
            spec_field_get(fields.deep_view(), key@) == spec_field_get(
                fields.deep_view().take(i as int),
                key@,
            ),
        decreases i,
    {
        proof {
            assert(fields.deep_view()[i - 1] == (fields@[i - 1].0@, fields@[i - 1].1@));
            assert(fields.deep_view().take(i as int).last() == fields.deep_view()[i - 1]);
        }
        if eq_chars(fields[i - 1].0.as_slice(), key) {
            return Some(copy_chars(fields[i - 1].1.as_slice()));
        }
        proof {
            assert(fields.deep_view().take(i as int).drop_last() =~= fields.deep_view().take(
                i - 1 as int,
            ));
        }
        i -= 1;
    }
    proof {
        assert(fields.deep_view().take(0) =~= Seq::<(Seq<char>, Seq<char>)>::empty());
    }
    None
}

/// The marker line that opens field `key`.
pub open spec fn spec_marker(key: Seq<char>) -> Seq<char> {
    seq!['%'] + key + seq!['%']
}

/// The first line of field `key`'s value: the line after the first line that
/// reads `%KEY%` exactly, trimmed; the empty string when that marker is the
/// last line; `None` when the marker does not occur.
pub open spec fn spec_extract_field(lines: Seq<Seq<char>>, marker: Seq<char>) -> Option<Seq<char>>
    decreases lines.len(),
{
    if lines.len() == 0 {
        None
    } else if lines[0] == marker {
        Some(
            if lines.len() >= 2 {
                spec_trim(lines[1])
            } else {
                Seq::empty()
            },
        )
    } else {
        spec_extract_field(lines.drop_first(), marker)
    }
}

/// Returns the line following the `%KEY%` marker line, trimmed.
#[verifier::loop_isolation(false)]
pub fn extract_field(desc: &str, key: &str) -> (r: Option<String>)
    ensures
        match r {
            Some(v) => spec_extract_field(spec_lines(desc@), spec_marker(key@)) == Some(v@),
            None => spec_extract_field(spec_lines(desc@), spec_marker(key@)) is None,
        },
{
    let kc = chars_of(key);
    let mut marker: Vec<char> = Vec::new();
    marker.push('%');
    let mut ki: usize = 0;
    while ki < kc.len()
        invariant
            ki <= kc@.len(),
            kc@ == key@,
            marker@ == seq!['%'] + key@.take(ki as int),
        decreases kc@.len() - ki,
    {
        let c = kc[ki];
        marker.push(c);
        proof {
            assert(marker@ =~= seq!['%'] + key@.take(ki + 1 as int));
        }
        ki += 1;
    }
    marker.push('%');
    proof {
        assert(key@.take(key@.len() as int) =~= key@);
        assert(marker@ =~= spec_marker(key@));
    }
    let lines = split_str_lines(desc);
    let ghost ld = lines@.map_values(|l: &str| l@);
    let n = lines.len();
    let mut i: usize = 0;
    proof {
        assert(ld.skip(0) =~= ld);
    }
    while i < n
        invariant
            i <= n == lines@.len(),
            ld == lines@.map_values(|l: &str| l@),
            marker@ == spec_marker(key@),
            spec_extract_field(ld, spec_marker(key@)) == spec_extract_field(
                ld.skip(i as int),
                spec_marker(key@),
            ),
        decreases n - i,
    {
        let lc = chars_of(lines[i]);
        proof {
            assert(ld.skip(i as int)[0] == ld[i as int]);
            assert(ld[i as int] == lines@[i as int]@);
        }
        if eq_chars(lc.as_slice(), marker.as_slice()) {
            if i + 1 < n {
                proof {
                    assert(ld.skip(i as int)[1] == ld[i + 1 as int]);
                    assert(ld[i + 1 as int] == lines@[i + 1 as int]@);
                }
                let vc = chars_of(lines[i + 1]);
                let tv = trim_chars(vc.as_slice());
                return Some(string_from_chars(tv.as_slice()));
            } else {
                proof {
                    assert(ld.skip(i as int).len() == 1);
                }
                let empty: Vec<char> = Vec::new();
                proof {
                    assert(empty@ =~= Seq::<char>::empty());
                }
                return Some(string_from_chars(empty.as_slice()));
            }
        }
        proof {
            assert(ld.skip(i as int).drop_first() =~= ld.skip(i + 1 as int));
        }
        i += 1;
    }
    proof {
        assert(ld.skip(n as int) =~= Seq::<Seq<char>>::empty());
    }
    None
}



/// The packaging suffix `.pkg.tar.zst`, stripped (repeatedly) from a
/// `FILENAME` before comparing it to an identity.
pub open spec fn spec_strip_zst(f: Seq<char>) -> Seq<char>
    decreases f.len(),
{
    if f.len() >= 12 && f.skip(f.len() - 12) == ".pkg.tar.zst"@ {
        spec_strip_zst(f.take(f.len() - 12))
    } else {
        f
    }
}

#[verifier::loop_isolation(false)]
fn strip_zst(f: &[char]) -> (r: Vec<char>)
    ensures
        r@ == spec_strip_zst(f@),
{
    let suf = chars_of(".pkg.tar.zst");
    let mut cur = copy_chars(f);
    proof {
        assert(suf@.len() == 12) by {
            reveal_strlit(".pkg.tar.zst");
        }
    }
    loop
        invariant
            suf@ == ".pkg.tar.zst"@,
            suf@.len() == 12,
            spec_strip_zst(f@) == spec_strip_zst(cur@),
        decreases cur@.len(),
    {
        if cur.len() >= 12 {
            let tail = copy_range(cur.as_slice(), cur.len() - 12, cur.len());
            proof {
                assert(tail@ =~= cur@.skip(cur@.len() - 12));
            }
            if eq_chars(tail.as_slice(), suf.as_slice()) {
                let next = copy_range(cur.as_slice(), 0, cur.len() - 12);
                proof {
                    assert(next@ =~= cur@.take(cur@.len() - 12));
                }
                cur = next;
            } else {
                proof {
                    assert(spec_strip_zst(cur@) == cur@);
                }
                return cur;
            }
        } else {
            proof {
                assert(spec_strip_zst(cur@) == cur@);
            }
            return cur;
        }
    }
}

/// The database file suffix `.db`, stripped (repeatedly) from a container's
/// file name to give its short repository name.
pub open spec fn spec_strip_db(f: Seq<char>) -> Seq<char>
    decreases f.len(),
{
    if f.len() >= 3 && f.skip(f.len() - 3) == ".db"@ {
        spec_strip_db(f.take(f.len() - 3))
    } else {
        f
    }
}

#[verifier::loop_isolation(false)]
fn strip_db(f: &[char]) -> (r: Vec<char>)
    ensures
        r@ == spec_strip_db(f@),
{
    let suf = chars_of(".db");
    let mut cur = copy_chars(f);
    proof {
        assert(suf@.len() == 3) by {
            reveal_strlit(".db");
        }
    }
    loop
        invariant
            suf@ == ".db"@,
            suf@.len() == 3,
            spec_strip_db(f@) == spec_strip_db(cur@),
        decreases cur@.len(),
    {
        if cur.len() >= 3 {
            let tail = copy_range(cur.as_slice(), cur.len() - 3, cur.len());
            proof {
                assert(tail@ =~= cur@.skip(cur@.len() - 3));
            }
            if eq_chars(tail.as_slice(), suf.as_slice()) {
                let next = copy_range(cur.as_slice(), 0, cur.len() - 3);
                proof {
                    assert(next@ =~= cur@.take(cur@.len() - 3));
                }
                cur = next;
            } else {
                proof {
                    assert(spec_strip_db(cur@) == cur@);
                }
                return cur;
            }
        } else {
            proof {
                assert(spec_strip_db(cur@) == cur@);
            }
            return cur;
        }
    }
}

/// A container's short repository name: its file name without the `.db`
/// suffix.
pub open spec fn spec_short_name(path: Seq<char>) -> Seq<char> {
    spec_strip_db(spec_pure(path))
}

fn short_name(path: &str) -> (r: Vec<char>)
    ensures
        r@ == spec_short_name(path@),
{
    let pc = chars_of(path);
    let base = pure_name(pc.as_slice());
    strip_db(base.as_slice())
}

/// Whether a descriptor's fields match a requested identity: its `NAME`
/// equals the identity, or its `FILENAME` with the packaging suffix removed
/// equals the identity or starts with the identity followed by `-`.
pub open spec fn spec_entry_matches(fields: Seq<(Seq<char>, Seq<char>)>, pure: Seq<char>) -> bool {
    (match spec_field_get(fields, "NAME"@) {
        Some(n) => n == pure,
        None => false,
    }) || (match spec_field_get(fields, "FILENAME"@) {
        Some(f) => {
            let st = spec_strip_zst(f);
            st == pure || (st.len() > pure.len() && st.take(pure.len() as int + 1) == pure.push('-'))
        },
        None => false,
    })
}

#[verifier::loop_isolation(false)]
fn entry_matches(fields: &Vec<(Vec<char>, Vec<char>)>, pure: &[char]) -> (r: bool)
    ensures
        r == spec_entry_matches(fields.deep_view(), pure@),
{
    let name_key = chars_of("NAME");
    let file_key = chars_of("FILENAME");
    let by_name = match get_field(fields, name_key.as_slice()) {
        Some(n) => eq_chars(n.as_slice(), pure),
        None => false,
    };
    if by_name {
        return true;
    }
    match get_field(fields, file_key.as_slice()) {
        Some(f) => {
            let st = strip_zst(f.as_slice());
            if eq_chars(st.as_slice(), pure) {
                return true;
            }
            if st.len() > pure.len() {
                let mut pd = copy_chars(pure);
                pd.push('-');
                proof {
                    assert(pd@ =~= pure@.push('-'));
                }
                let head = copy_range(st.as_slice(), 0, pure.len() + 1);
                proof {
                    assert(head@ =~= st@.take(pure@.len() as int + 1));
                }
                eq_chars(head.as_slice(), pd.as_slice())
            } else {
                false
            }
        },
        None => false,
    }
}

/// A field's value, or the empty string when it is absent.
pub open spec fn spec_field_or_empty(
    fields: Seq<(Seq<char>, Seq<char>)>,
    key: Seq<char>,
) -> Seq<char> {
    match spec_field_get(fields, key) {
        Some(v) => v,
        None => Seq::empty(),
    }
}

fn field_or_empty(fields: &Vec<(Vec<char>, Vec<char>)>, key: &str) -> (r: Vec<char>)
    ensures
        r@ == spec_field_or_empty(fields.deep_view(), key@),
{
    let kc = chars_of(key);
    match get_field(fields, kc.as_slice()) {
        Some(v) => v,
        None => {
            let empty: Vec<char> = Vec::new();
            proof {
                assert(empty@ =~= Seq::<char>::empty());
            }
            empty
        },
    }
}

/// The canonical details map built from one matching descriptor: a fixed
/// field order, absent fields defaulting to the empty string, except the
/// build timestamp, which is omitted entirely when absent.
pub open spec fn spec_pacman_map(
    repo: Seq<char>,
    fields: Seq<(Seq<char>, Seq<char>)>,
) -> DetailsMapV {
    seq![
        ("Repository"@, repo),
        ("Name"@, spec_field_or_empty(fields, "NAME"@)),
        ("Version"@, spec_field_or_empty(fields, "VERSION"@)),
        ("Description"@, spec_field_or_empty(fields, "DESC"@)),
        ("Architecture"@, spec_field_or_empty(fields, "ARCH"@)),
        ("URL"@, spec_field_or_empty(fields, "URL"@)),
        ("Licenses"@, spec_field_or_empty(fields, "LICENSE"@)),
        ("Groups"@, spec_field_or_empty(fields, "GROUPS"@)),
        ("Provides"@, spec_field_or_empty(fields, "PROVIDES"@)),
        ("Depends On"@, spec_field_or_empty(fields, "DEPENDS"@)),
        ("Optional Deps"@, spec_field_or_empty(fields, "OPTDEPENDS"@)),
        ("Conflicts"@, spec_field_or_empty(fields, "CONFLICTS"@)),
        ("Replaces"@, spec_field_or_empty(fields, "REPLACES"@)),
        ("Download Size"@, spec_field_or_empty(fields, "CSIZE"@)),
        ("Installed Size"@, spec_field_or_empty(fields, "ISIZE"@)),
        ("Packager"@, spec_field_or_empty(fields, "PACKAGER"@)),
    ] + (match spec_field_get(fields, "BUILDDATE"@) {
        Some(ts) => seq![("Build Date"@, ts)],
        None => Seq::empty(),
    }) + seq![("Filename"@, spec_field_or_empty(fields, "FILENAME"@))]
}

fn push_pair(out: &mut DetailsMap, name: &str, val: Vec<char>)
    ensures
        final(out).deep_view() == old(out).deep_view().push((name@, val@)),
{
    let ks = string_from_chars(chars_of(name).as_slice());
    let vs = string_from_chars(val.as_slice());
    let ghost vd = vs@;
    out.push((ks, vs));
    proof {
        assert(out.deep_view() =~= old(out).deep_view().push((name@, vd)));
    }
}

#[verifier::loop_isolation(false)]
fn build_pacman_map(repo_short: &[char], fields: &Vec<(Vec<char>, Vec<char>)>) -> (r: DetailsMap)
    ensures
        r.deep_view() == spec_pacman_map(repo_short@, fields.deep_view()),
{
    let ghost fd = fields.deep_view();
    let mut out: DetailsMap = Vec::new();
    proof {
        assert(out.deep_view() =~= Seq::<(Seq<char>, Seq<char>)>::empty());
    }
    push_pair(&mut out, "Repository", copy_chars(repo_short));
    push_pair(&mut out, "Name", field_or_empty(fields, "NAME"));
    push_pair(&mut out, "Version", field_or_empty(fields, "VERSION"));
    push_pair(&mut out, "Description", field_or_empty(fields, "DESC"));
    push_pair(&mut out, "Architecture", field_or_empty(fields, "ARCH"));
    push_pair(&mut out, "URL", field_or_empty(fields, "URL"));
    push_pair(&mut out, "Licenses", field_or_empty(fields, "LICENSE"));
    push_pair(&mut out, "Groups", field_or_empty(fields, "GROUPS"));
    push_pair(&mut out, "Provides", field_or_empty(fields, "PROVIDES"));
    push_pair(&mut out, "Depends On", field_or_empty(fields, "DEPENDS"));
    push_pair(&mut out, "Optional Deps", field_or_empty(fields, "OPTDEPENDS"));
    push_pair(&mut out, "Conflicts", field_or_empty(fields, "CONFLICTS"));
    push_pair(&mut out, "Replaces", field_or_empty(fields, "REPLACES"));
    push_pair(&mut out, "Download Size", field_or_empty(fields, "CSIZE"));
    push_pair(&mut out, "Installed Size", field_or_empty(fields, "ISIZE"));
    push_pair(&mut out, "Packager", field_or_empty(fields, "PACKAGER"));
    let bd_key = chars_of("BUILDDATE");
    match get_field(fields, bd_key.as_slice()) {
        Some(ts) => {
            push_pair(&mut out, "Build Date", ts);
        },
        None => {},
    }
    push_pair(&mut out, "Filename", field_or_empty(fields, "FILENAME"));
    proof {
        assert(out.deep_view() =~= spec_pacman_map(repo_short@, fd));
    }
    out
}

/// The qualifying records of one container's entries, in entry order: each
/// descriptor entry whose `NAME`, `VERSION` and `DESC` fields are all present
/// is scored against the query and kept when it beats the threshold.
pub open spec fn spec_search_entries(
    entries: Seq<(Seq<char>, Seq<char>)>,
    provider: Seq<char>,
    query: Seq<char>,
) -> Seq<PackageV>
    decreases entries.len(),
{
    if entries.len() == 0 {
        Seq::empty()
    } else {
        let rest = spec_search_entries(entries.drop_first(), provider, query);
        let e = entries[0];
        if spec_is_desc_path(e.0) {
            let fields = spec_fields_of(e.1);
            match (
                spec_field_get(fields, "NAME"@),
                spec_field_get(fields, "VERSION"@),
                spec_field_get(fields, "DESC"@),
            ) {
                (Some(n), Some(v), Some(d)) => {
                    let sc = spec_fuzzy_match(query, n);
                    if spec_exceeds_threshold(sc) {
                        seq![(provider, n, v, d, sc)] + rest
                    } else {
                        rest
                    }
                },
                _ => rest,
            }
        } else {
            rest
        }
    }
}

/// The qualifying records of all containers, in container order; each
/// container's records carry the provider tag `pacman/<short name>`.
pub open spec fn spec_search_dbs(dbs: Seq<(Seq<char>, Seq<u8>)>, query: Seq<char>) -> Seq<PackageV>
    decreases dbs.len(),
{
    if dbs.len() == 0 {
        Seq::empty()
    } else {
        spec_search_entries(
            spec_db_entries(dbs[0].1),
            "pacman/"@ + spec_short_name(dbs[0].0),
            query,
        ) + spec_search_dbs(dbs.drop_first(), query)
    }
}

/// The bulk search mode: scans every descriptor entry of every given
/// container, scores each against the search word, and returns the records
/// beating the threshold, sorted by score, highest first. A container that
/// cannot be read is simply not among `repos`; a malformed entry yields no
/// record.
#[verifier::loop_isolation(false)]
pub fn search_pacman(search_word: &str, repos: &Vec<RepoDb>) -> (r: Vec<Package>)
    ensures
        sorted_desc(r.deep_view()),
        all_wf(r.deep_view()),
        r.deep_view().to_multiset() == spec_search_dbs(repos.deep_view(), search_word@)
            .to_multiset(),
{
    let ghost rd = repos.deep_view();
    let ghost total = spec_search_dbs(rd, search_word@);
    let mut res: Vec<Package> = Vec::new();
    let nd = repos.len();
    let mut di: usize = 0;
    proof {
        assert(rd.skip(0) =~= rd);
        assert(res.deep_view() =~= Seq::<PackageV>::empty());
        to_multiset_len::<PackageV>(Seq::empty());
        lemma_multiset_empty_len::<PackageV>(Seq::<PackageV>::empty().to_multiset());
        assert(res.deep_view().to_multiset().add(
            spec_search_dbs(rd.skip(0), search_word@).to_multiset(),
        ) =~= total.to_multiset());
    }
    while di < nd
        invariant
            di <= nd == repos@.len(),
            rd == repos.deep_view(),
            total == spec_search_dbs(rd, search_word@),
            sorted_desc(res.deep_view()),
            all_wf(res.deep_view()),
            res.deep_view().to_multiset().add(
                spec_search_dbs(rd.skip(di as int), search_word@).to_multiset(),
            ) == total.to_multiset(),
        decreases nd - di,
    {
        let ghost dtail = spec_search_dbs(rd.skip(di + 1 as int), search_word@);
        proof {
            assert(rd.skip(di as int)[0] == rd[di as int]);
            assert(rd[di as int] == repos@[di as int].deep_view());
            assert(rd.skip(di as int).drop_first() =~= rd.skip(di + 1 as int));
        }
        let sn = short_name(repos[di].path.as_str());
        let mut prov = String::new();
        prov.append("pacman/");
        let sn_str = string_from_chars(sn.as_slice());
        prov.append(sn_str.as_str());
        let ghost provider = "pacman/"@ + spec_short_name(rd[di as int].0);
        proof {
            assert(prov@ == provider);
        }
        let decomp = gunzip(repos[di].data.as_slice());
        let ents = tar_entries(decomp.as_slice());
        let ghost ed = ents.deep_view();
        proof {
            assert(ed == spec_db_entries(rd[di as int].1));
            assert(ed.skip(0) =~= ed);
        }
        let ne = ents.len();
        let mut ei: usize = 0;
        proof {
            broadcast use vstd::multiset::group_multiset_axioms;

            assert(spec_search_dbs(rd.skip(di as int), search_word@) == spec_search_entries(
                ed,
                provider,
                search_word@,
            ) + dtail);
            lemma_multiset_commutative(spec_search_entries(ed, provider, search_word@), dtail);
            assert(res.deep_view().to_multiset().add(
                spec_search_entries(ed, provider, search_word@).to_multiset().add(
                    dtail.to_multiset(),
                ),
            ) =~= res.deep_view().to_multiset().add(
                spec_search_entries(ed, provider, search_word@).to_multiset(),
            ).add(dtail.to_multiset()));
        }
        while ei < ne
            invariant
                ei <= ne == ents@.len(),
                ed == ents.deep_view(),
                sorted_desc(res.deep_view()),
                all_wf(res.deep_view()),
                res.deep_view().to_multiset().add(
                    spec_search_entries(ed.skip(ei as int), provider, search_word@).to_multiset(),
                ).add(dtail.to_multiset()) == total.to_multiset(),
            decreases ne - ei,
        {
            let ghost etail = spec_search_entries(ed.skip(ei + 1 as int), provider, search_word@);
            proof {
                assert(ed.skip(ei as int)[0] == ed[ei as int]);
                assert(ed[ei as int] == ents@[ei as int].deep_view());
                assert(ed.skip(ei as int).drop_first() =~= ed.skip(ei + 1 as int));
            }
            let pc = chars_of(ents[ei].path.as_str());
            if is_desc_path(pc.as_slice()) {
                let lines = split_str_lines(ents[ei].text.as_str());
                let fields = parse_fields(lines.as_slice());
                let ghost fd = spec_fields_of(ed[ei as int].1);
                proof {
                    assert(fields.deep_view() == fd);
                }
                let name_key = chars_of("NAME");
                let ver_key = chars_of("VERSION");
                let desc_key = chars_of("DESC");
                let name = get_field(&fields, name_key.as_slice());
                let ver = get_field(&fields, ver_key.as_slice());
                let descr = get_field(&fields, desc_key.as_slice());
                match (name, ver, descr) {
                    (Some(n), Some(v), Some(d)) => {
                        let n_str = string_from_chars(n.as_slice());
                        let score = fuzzy_match(search_word, n_str.as_str());
                        let ghost sc = spec_fuzzy_match(search_word@, n@);
                        if exceeds_threshold(&score) {
                            let ghost pv: PackageV = (provider, n@, v@, d@, sc);
                            let pkg = Package {
                                provider: prov.clone(),
                                name: n_str,
                                version: string_from_chars(v.as_slice()),
                                description: string_from_chars(d.as_slice()),
                                score,
                            };
                            proof {
                                lemma_fuzzy_match_wf(search_word@, n@);
                                assert(pkg.deep_view() == pv);
                                assert(spec_search_entries(
                                    ed.skip(ei as int),
                                    provider,
                                    search_word@,
                                ) == seq![pv] + etail);
                                lemma_multiset_commutative(seq![pv], etail);
                                assert(seq![pv] =~= Seq::<PackageV>::empty().push(pv));
                                to_multiset_build::<PackageV>(Seq::empty(), pv);
                                to_multiset_len::<PackageV>(Seq::empty());
                                lemma_multiset_empty_len::<PackageV>(
                                    Seq::<PackageV>::empty().to_multiset(),
                                );
                            }
                            let ghost res_old = res.deep_view();
                            insert_by_score(&mut res, pkg);
                            proof {
                                assert(res.deep_view().to_multiset() =~= res_old.to_multiset()
                                    .insert(pv));
                                assert(res.deep_view().to_multiset().add(etail.to_multiset()).add(
                                    dtail.to_multiset(),
                                ) =~= res_old.to_multiset().add(
                                    spec_search_entries(
                                        ed.skip(ei as int),
                                        provider,
                                        search_word@,
                                    ).to_multiset(),
                                ).add(dtail.to_multiset()));
                            }
                        } else {
                            proof {
                                assert(spec_search_entries(
                                    ed.skip(ei as int),
                                    provider,
                                    search_word@,
                                ) == etail);
                            }
                        }
                    },
                    _ => {
                        proof {
                            assert(spec_search_entries(ed.skip(ei as int), provider, search_word@)
                                == etail);
                        }
                    },
                }
            } else {
                proof {
                    assert(spec_search_entries(ed.skip(ei as int), provider, search_word@)
                        == etail);
                }
            }
            ei += 1;
        }
        proof {
            assert(ed.skip(ne as int) =~= Seq::<(Seq<char>, Seq<char>)>::empty());
            assert(spec_search_entries(ed.skip(ne as int), provider, search_word@) == Seq::<
                PackageV,
            >::empty());
            to_multiset_len::<PackageV>(Seq::empty());
            lemma_multiset_empty_len::<PackageV>(Seq::<PackageV>::empty().to_multiset());
            assert(res.deep_view().to_multiset().add(Multiset::<PackageV>::empty()).add(
                dtail.to_multiset(),
            ) =~= res.deep_view().to_multiset().add(dtail.to_multiset()));
            assert(spec_search_dbs(rd.skip(di as int), search_word@) == spec_search_entries(
                spec_db_entries(rd[di as int].1),
                provider,
                search_word@,
            ) + dtail);
            lemma_multiset_commutative(
                spec_search_entries(spec_db_entries(rd[di as int].1), provider, search_word@),
                dtail,
            );
        }
        di += 1;
    }
    proof {
        assert(rd.skip(nd as int) =~= Seq::<(Seq<char>, Seq<u8>)>::empty());
        assert(spec_search_dbs(rd.skip(nd as int), search_word@) == Seq::<PackageV>::empty());
        to_multiset_len::<PackageV>(Seq::empty());
        lemma_multiset_empty_len::<PackageV>(Seq::<PackageV>::empty().to_multiset());
        assert(res.deep_view().to_multiset().add(
            spec_search_dbs(rd.skip(nd as int), search_word@).to_multiset(),
        ) =~= res.deep_view().to_multiset());
    }
    res
}

/// The first matching descriptor's fields among one container's entries, in
/// entry order.
pub open spec fn spec_repo_find(
    entries: Seq<(Seq<char>, Seq<char>)>,
    pure: Seq<char>,
) -> Option<Seq<(Seq<char>, Seq<char>)>>
    decreases entries.len(),
{
    if entries.len() == 0 {
        None
    } else {
        let e = entries[0];
        if spec_is_desc_path(e.0) && spec_entry_matches(spec_fields_of(e.1), pure) {
            Some(spec_fields_of(e.1))
        } else {
            spec_repo_find(entries.drop_first(), pure)
        }
    }
}

/// The first matching descriptor across the containers, scanned in the given
/// priority order, paired with its container's short name.
pub open spec fn spec_dbs_find(
    dbs: Seq<(Seq<char>, Seq<u8>)>,
    pure: Seq<char>,
) -> Option<(Seq<char>, Seq<(Seq<char>, Seq<char>)>)>
    decreases dbs.len(),
{
    if dbs.len() == 0 {
        None
    } else {
        match spec_repo_find(spec_db_entries(dbs[0].1), pure) {
            Some(fields) => Some((spec_short_name(dbs[0].0), fields)),
            None => spec_dbs_find(dbs.drop_first(), pure),
        }
    }
}

/// The lookup-by-identity mode: scans the containers in priority order for
/// the first descriptor matching the identity (stripped of any repository
/// qualifier) and builds its canonical details map; `None` when no container
/// holds a match.
#[verifier::loop_isolation(false)]
pub fn pacman_details(pkg: &str, repos: &Vec<RepoDb>) -> (r: Option<DetailsMap>)
    ensures
        match r {
            Some(m) => spec_dbs_find(repos.deep_view(), spec_pure(pkg@)) matches Some(pr)
                && m.deep_view() == spec_pacman_map(pr.0, pr.1),
            None => spec_dbs_find(repos.deep_view(), spec_pure(pkg@)) is None,
        },
{
    let ghost rd = repos.deep_view();
    let pc = chars_of(pkg);
    let pure = pure_name(pc.as_slice());
    let nd = repos.len();
    let mut di: usize = 0;
    proof {
        assert(rd.skip(0) =~= rd);
    }
    while di < nd
        invariant
            di <= nd == repos@.len(),
            rd == repos.deep_view(),
            pure@ == spec_pure(pkg@),
            spec_dbs_find(rd, spec_pure(pkg@)) == spec_dbs_find(
                rd.skip(di as int),
                spec_pure(pkg@),
            ),
        decreases nd - di,
    {
        proof {
            assert(rd.skip(di as int)[0] == rd[di as int]);
            assert(rd[di as int] == repos@[di as int].deep_view());
            assert(rd.skip(di as int).drop_first() =~= rd.skip(di + 1 as int));
        }
        let sn = short_name(repos[di].path.as_str());
        let decomp = gunzip(repos[di].data.as_slice());
        let ents = tar_entries(decomp.as_slice());
        let ghost ed = ents.deep_view();
        proof {
            assert(ed == spec_db_entries(rd[di as int].1));
            assert(ed.skip(0) =~= ed);
        }
        let ne = ents.len();
        let mut ei: usize = 0;
        while ei < ne
            invariant
                ei <= ne == ents@.len(),
                ed == ents.deep_view(),
                pure@ == spec_pure(pkg@),
                spec_repo_find(ed, spec_pure(pkg@)) == spec_repo_find(
                    ed.skip(ei as int),
                    spec_pure(pkg@),
                ),
            decreases ne - ei,
        {
            proof {
                assert(ed.skip(ei as int)[0] == ed[ei as int]);
                assert(ed[ei as int] == ents@[ei as int].deep_view());
                assert(ed.skip(ei as int).drop_first() =~= ed.skip(ei + 1 as int));
            }
            let epc = chars_of(ents[ei].path.as_str());
            if is_desc_path(epc.as_slice()) {
                let lines = split_str_lines(ents[ei].text.as_str());
                let fields = parse_fields(lines.as_slice());
                proof {
                    assert(fields.deep_view() == spec_fields_of(ed[ei as int].1));
                }
                if entry_matches(&fields, pure.as_slice()) {
                    let m = build_pacman_map(sn.as_slice(), &fields);
                    proof {
                        assert(spec_repo_find(ed.skip(ei as int), spec_pure(pkg@)) == Some(
                            spec_fields_of(ed[ei as int].1),
                        ));
                        assert(spec_dbs_find(rd.skip(di as int), spec_pure(pkg@)) == Some(
                            (spec_short_name(rd[di as int].0), spec_fields_of(ed[ei as int].1)),
                        ));
                    }
                    return Some(m);
                }
            }
            ei += 1;
        }
        proof {
            assert(ed.skip(ne as int) =~= Seq::<(Seq<char>, Seq<char>)>::empty());
            assert(spec_repo_find(ed, spec_pure(pkg@)) is None);
        }
        di += 1;
    }
    proof {
        assert(rd.skip(nd as int) =~= Seq::<(Seq<char>, Seq<u8>)>::empty());
    }
    None
}

/// Law (container priority): when the first container holds a matching
/// descriptor, the lookup's result comes from that container, whatever the
/// later containers hold.
pub proof fn lemma_lookup_priority(dbs: Seq<(Seq<char>, Seq<u8>)>, pure: Seq<char>)
    requires
        dbs.len() > 0,
        spec_repo_find(spec_db_entries(dbs[0].1), pure) is Some,
    ensures
        spec_dbs_find(dbs, pure) == Some(
            (spec_short_name(dbs[0].0), spec_repo_find(spec_db_entries(dbs[0].1), pure)->Some_0),
        ),
{
}

/// Law (filename match): a descriptor whose `FILENAME`, with the packaging
/// suffix removed, equals the requested identity matches it, whatever its
/// `NAME` field holds.
pub proof fn lemma_filename_match(fields: Seq<(Seq<char>, Seq<char>)>, pure: Seq<char>)
    requires
        spec_field_get(fields, "FILENAME"@) is Some,
        spec_strip_zst(spec_field_get(fields, "FILENAME"@)->Some_0) == pure,
    ensures
        spec_entry_matches(fields, pure),
{
}

} // verus!
