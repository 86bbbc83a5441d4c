//! The unified record shape, the line-pair adapter, the aggregator, and the
//! details cache with its provider dispatch.

use vstd::prelude::*;
use vstd::seq_lib::lemma_multiset_commutative;
use vstd::multiset::{Multiset, lemma_multiset_empty_len};
use crate::fuzzy::{
    Score, spec_score_ge, spec_exceeds_threshold, spec_fuzzy_match, score_ge, exceeds_threshold,
    fuzzy_match, lemma_score_ge_trans, MAX_TARGET_LEN,
};
use crate::text::{
    chars_of, string_from_chars, eq_chars, trim_chars, spec_trim, spec_tokens, tokenize,
    spec_pure, pure_name, spec_family, family_of,
};

verus! {

/// The unified package record every adapter produces: where it came from, how
/// the source names it, its version and summary, and its match score.
pub struct Package {
    pub provider: String,
    pub name: String,
    pub version: String,
    pub description: String,
    pub score: Score,
}

/// The mathematical image of a record: the four texts and the score.
pub type PackageV = (Seq<char>, Seq<char>, Seq<char>, Seq<char>, Score);

impl DeepView for Package {
    type V = PackageV;

    open spec fn deep_view(&self) -> PackageV {
        (self.provider@, self.name@, self.version@, self.description@, self.score)
    }
}

pub open spec fn all_wf(s: Seq<PackageV>) -> bool {
    forall|i: int| 0 <= i < s.len() ==> (#[trigger] s[i]).4.den > 0
}

/// Sorted by score, highest first.
pub open spec fn sorted_desc(s: Seq<PackageV>) -> bool {
    forall|i: int, j: int|
        0 <= i <= j < s.len() ==> spec_score_ge(#[trigger] s[i].4, #[trigger] s[j].4)
}

/// Every score the scorer returns has a positive denominator.
pub proof fn lemma_fuzzy_match_wf(q: Seq<char>, t: Seq<char>)
    ensures
        spec_fuzzy_match(q, t).den > 0,
{
    if q.len() == 0 {
    } else if crate::fuzzy::lower_of(t).len() > MAX_TARGET_LEN {
    } else {
        match crate::fuzzy::greedy_idx(crate::fuzzy::lower_of(q), crate::fuzzy::lower_of(t), 0) {
            Some(ix) => {
                assert(3 * crate::fuzzy::lower_of(t).len() + 20 <= 3 * MAX_TARGET_LEN + 20);
            },
            None => {},
        }
    }
}

/// Inserts a record into a score-sorted list, keeping it sorted; the records
/// are preserved as a multiset.
#[verifier::loop_isolation(false)]
pub fn insert_by_score(v: &mut Vec<Package>, p: Package)
    requires
        sorted_desc(old(v).deep_view()),
        all_wf(old(v).deep_view()),
        p.score.den > 0,
    ensures
        sorted_desc(final(v).deep_view()),
        all_wf(final(v).deep_view()),
        final(v).deep_view().to_multiset() == old(v).deep_view().to_multiset().insert(
            p.deep_view(),
        ),
{
    broadcast use vstd::seq_lib::group_to_multiset_ensures;
    broadcast use vstd::multiset::group_multiset_axioms;

    let n = v.len();
    let mut i: usize = 0;
    while i < n && score_ge(&v[i].score, &p.score)
        invariant
            i <= n == v@.len(),
            v@ == old(v)@,
            forall|k: int| 0 <= k < i ==> spec_score_ge((#[trigger] v.deep_view()[k]).4, p.score),
        decreases n - i,
    {
        proof {
            assert(v.deep_view()[i as int].4 == v@[i as int].score);
        }
        i += 1;
    }
    let ghost oldv = v.deep_view();
    let ghost pv = p.deep_view();
    let ghost pre = v@;
    proof {
        if i < n {
            assert(v.deep_view()[i as int].4 == v@[i as int].score);
            assert(!spec_score_ge(oldv[i as int].4, pv.4));
        }
    }
    v.insert(i, p);
    proof {
        pre.insert_ensures(i as int, p);
        oldv.insert_ensures(i as int, pv);
        let newd = v.deep_view();
        assert forall|k: int| 0 <= k < newd.len() implies newd[k] == oldv.insert(i as int, pv)[k] by {
            if k < i {
                assert(v@[k] == pre[k]);
                assert(oldv.insert(i as int, pv)[k] == oldv[k]);
            } else if k == i {
                assert(v@[k] == p);
            } else {
                assert(v@[k] == pre[k - 1]);
                assert(oldv.insert(i as int, pv)[k] == oldv[k - 1]);
            }
        }
        assert(newd =~= oldv.insert(i as int, pv));
        // sortedness
        assert forall|k: int, l: int|
            0 <= k <= l < newd.len() implies spec_score_ge(
            #[trigger] newd[k].4,
            #[trigger] newd[l].4,
        ) by {
            let s = oldv.insert(i as int, pv);
            if l < i {
                assert(s[k] == oldv[k] && s[l] == oldv[l]);
            } else if k < i && l == i {
                assert(s[k] == oldv[k] && s[l] == pv);
            } else if k < i && l > i {
                assert(s[k] == oldv[k] && s[l] == oldv[l - 1]);
                assert(spec_score_ge(oldv[k].4, oldv[l - 1].4));
            } else if k == i && l == i {
                assert(spec_score_ge(pv.4, pv.4));
            } else if k == i && l > i {
                assert(s[l] == oldv[l - 1]);
                assert(i < n);
                assert(spec_score_ge(pv.4, oldv[i as int].4));
                assert(spec_score_ge(oldv[i as int].4, oldv[l - 1].4));
                lemma_score_ge_trans(pv.4, oldv[i as int].4, oldv[l - 1].4);
            } else {
                assert(s[k] == oldv[k - 1] && s[l] == oldv[l - 1]);
                assert(spec_score_ge(oldv[k - 1].4, oldv[l - 1].4));
            }
        }
        // multiset preservation
        let front = oldv.subrange(0, i as int);
        let back = oldv.subrange(i as int, oldv.len() as int);
        assert(oldv.insert(i as int, pv) == front.push(pv) + back);
        lemma_multiset_commutative(front.push(pv), back);
        lemma_multiset_commutative(front, back);
        assert(front.push(pv).to_multiset() =~= front.to_multiset().insert(pv));
        assert(oldv =~= front + back);
        assert(newd.to_multiset() =~= oldv.to_multiset().insert(pv));
    }
}

/// The records one text yields under the line-pair grammar, qualified by the
/// score threshold: lines are consumed two at a time; a header with at least
/// two whitespace-separated tokens gives name and version, the next line
/// (trimmed) the description; the bare name (after the last `/`) is scored
/// against the query, and only records scoring above 1/100 are kept.
pub open spec fn spec_line_records(
    lines: Seq<Seq<char>>,
    manager: Seq<char>,
    query: Seq<char>,
) -> Seq<PackageV>
    decreases lines.len(),
{
    if lines.len() < 2 {
        Seq::empty()
    } else {
        let rest = spec_line_records(lines.skip(2), manager, query);
        let toks = spec_tokens(lines[0]);
        if toks.len() >= 2 {
            let sc = spec_fuzzy_match(query, spec_pure(toks[0]));
            if spec_exceeds_threshold(sc) {
                seq![(manager, toks[0], toks[1], spec_trim(lines[1]), sc)] + rest
            } else {
                rest
            }
        } else {
            rest
        }
    }
}

/// The line-pair adapter: parses two-line records from CLI-style text, scores
/// each against the query, keeps those above the threshold and returns them
/// sorted by score, highest first. Malformed pairs are skipped and the parser
/// still advances by two lines.
#[verifier::loop_isolation(false)]
pub fn parse_alternating_lines(lines: &[&str], manager: String, query: &str) -> (r: Vec<Package>)
    ensures
        sorted_desc(r.deep_view()),
        all_wf(r.deep_view()),
        r.deep_view().to_multiset() == spec_line_records(
            lines@.map_values(|l: &str| l@),
            manager@,
            query@,
        ).to_multiset(),
{
    broadcast use vstd::seq_lib::group_to_multiset_ensures;
    broadcast use vstd::multiset::group_multiset_axioms;
    broadcast use vstd::multiset::lemma_multiset_empty_len;

    let ghost lv = lines@.map_values(|l: &str| l@);
    let ghost total = spec_line_records(lv, manager@, query@);
    let n = lines.len();
    let mut res: Vec<Package> = Vec::new();
    let mut i: usize = 0;
    proof {
        assert(lv.skip(0) =~= lv);
        assert(res.deep_view() =~= Seq::<PackageV>::empty());
        assert(res.deep_view().to_multiset().len() == 0);
        assert(res.deep_view().to_multiset().add(
            spec_line_records(lv.skip(0), manager@, query@).to_multiset(),
        ) =~= spec_line_records(lv, manager@, query@).to_multiset());
    }
    while i < n && i + 1 < n
        invariant
            n == lines@.len(),
            lv == lines@.map_values(|l: &str| l@),
            total == spec_line_records(lv, manager@, query@),
            i <= n,
            sorted_desc(res.deep_view()),
            all_wf(res.deep_view()),
            res.deep_view().to_multiset().add(
                spec_line_records(lv.skip(i as int), manager@, query@).to_multiset(),
            ) == total.to_multiset(),
        decreases n - i,
    {
        let ghost lvi = lv.skip(i as int);
        let ghost rest = spec_line_records(lv.skip(i + 2 as int), manager@, query@);
        proof {
            assert(lvi[0] == lv[i as int]);
            assert(lvi[1] == lv[i + 1 as int]);
            assert(lvi.skip(2) =~= lv.skip(i + 2 as int));
            assert(lv[i as int] == lines@[i as int]@);
            assert(lv[i + 1 as int] == lines@[i + 1 as int]@);
        }
        let first_line: &str = lines[i];
        let second_line: &str = lines[i + 1];
        let fc = chars_of(first_line);
        let toks = tokenize(fc.as_slice());
        let ghost tokv = spec_tokens(lv[i as int]);
        proof {
            assert(toks@.map_values(|t2: Vec<char>| t2@) == tokv);
            assert(toks@.len() == tokv.len());
        }
        if toks.len() >= 2 {
            proof {
                assert(toks@[0]@ == tokv[0]);
                assert(toks@[1]@ == tokv[1]);
            }
            let name_s = string_from_chars(toks[0].as_slice());
            let ver_s = string_from_chars(toks[1].as_slice());
            let sc_chars = chars_of(second_line);
            let desc = trim_chars(sc_chars.as_slice());
            let desc_s = string_from_chars(desc.as_slice());
            let pn = pure_name(toks[0].as_slice());
            let pn_s = string_from_chars(pn.as_slice());
            let score = fuzzy_match(query, pn_s.as_str());
            let ghost sc = spec_fuzzy_match(query@, spec_pure(tokv[0]));
            proof {
                assert(pn_s@ == spec_pure(tokv[0]));
                assert(score == sc);
            }
            if exceeds_threshold(&score) {
                let ghost pv: PackageV = (manager@, tokv[0], tokv[1], spec_trim(lv[i + 1 as int]), sc);
                let pkg = Package {
                    provider: manager.clone(),
                    name: name_s,
                    version: ver_s,
                    description: desc_s,
                    score,
                };
                proof {
                    lemma_fuzzy_match_wf(query@, spec_pure(tokv[0]));
                    assert(pkg.deep_view() == pv);
                    assert(spec_line_records(lvi, manager@, query@) == seq![pv] + rest);
                    lemma_multiset_commutative(seq![pv], rest);
                    assert(seq![pv] =~= Seq::<PackageV>::empty().push(pv));
                    assert(Seq::<PackageV>::empty().to_multiset().len() == 0);
                    assert(Seq::<PackageV>::empty().to_multiset() =~= Multiset::<
                        PackageV,
                    >::empty());
                    assert(Seq::<PackageV>::empty().push(pv).to_multiset() =~= Seq::<
                        PackageV,
                    >::empty().to_multiset().insert(pv));
                    assert(seq![pv].to_multiset() =~= Multiset::<PackageV>::empty().insert(pv));
                }
                let ghost res_old = res.deep_view();
                insert_by_score(&mut res, pkg);
                proof {
                    assert(res.deep_view().to_multiset() =~= res_old.to_multiset().insert(pv));
                    assert(res.deep_view().to_multiset().add(rest.to_multiset())
                        =~= res_old.to_multiset().add(
                        spec_line_records(lvi, manager@, query@).to_multiset(),
                    ));
                }
            } else {
                proof {
                    assert(spec_line_records(lvi, manager@, query@) == rest);
                }
            }
        } else {
            proof {
                assert(spec_line_records(lvi, manager@, query@) == rest);
            }
        }
        i += 2;
    }
    proof {
        assert(lv.skip(i as int).len() < 2);
        assert(spec_line_records(lv.skip(i as int), manager@, query@) == Seq::<PackageV>::empty());
        assert(spec_line_records(lv.skip(i as int), manager@, query@).to_multiset().len() == 0);
        assert(res.deep_view().to_multiset().add(
            spec_line_records(lv.skip(i as int), manager@, query@).to_multiset(),
        ) =~= res.deep_view().to_multiset());
    }
    res
}

/// All the source lists, concatenated.
pub open spec fn spec_concat_all(lists: Seq<Seq<PackageV>>) -> Seq<PackageV>
    decreases lists.len(),
{
    if lists.len() == 0 {
        Seq::empty()
    } else {
        spec_concat_all(lists.drop_last()) + lists.last()
    }
}

/// The aggregator: merges the result lists of the enabled sources into one
/// list, re-sorted by score, highest first. The records of the inputs are
/// preserved as a multiset; the order among equal scores is unspecified.
#[verifier::loop_isolation(false)]
pub fn aggregate_results(sources: Vec<Vec<Package>>) -> (r: Vec<Package>)
    requires
        forall|i: int|
            0 <= i < sources.deep_view().len() ==> all_wf(#[trigger] sources.deep_view()[i]),
    ensures
        sorted_desc(r.deep_view()),
        all_wf(r.deep_view()),
        r.deep_view().to_multiset() == spec_concat_all(sources.deep_view()).to_multiset(),
{
    broadcast use vstd::seq_lib::group_to_multiset_ensures;
    broadcast use vstd::multiset::group_multiset_axioms;
    broadcast use vstd::multiset::lemma_multiset_empty_len;

    let ghost total = spec_concat_all(sources.deep_view());
    let mut src = sources;
    let mut out: Vec<Package> = Vec::new();
    proof {
        assert(out.deep_view() =~= Seq::<PackageV>::empty());
        assert(out.deep_view().to_multiset().len() == 0);
        assert(out.deep_view().to_multiset().add(total.to_multiset()) =~= total.to_multiset());
    }
    while src.len() > 0
        invariant
            sorted_desc(out.deep_view()),
            all_wf(out.deep_view()),
            forall|i: int|
                0 <= i < src.deep_view().len() ==> all_wf(#[trigger] src.deep_view()[i]),
            out.deep_view().to_multiset().add(spec_concat_all(src.deep_view()).to_multiset())
                == total.to_multiset(),
        decreases src@.len(),
    {
        let ghost src_d = src.deep_view();
        let list_opt = src.pop();
        let mut list = match list_opt {
            Some(l) => l,
            None => Vec::new(),
        };
        proof {
            assert(src.deep_view() =~= src_d.drop_last());
            assert(list.deep_view() == src_d.last());
            assert(spec_concat_all(src_d) == spec_concat_all(src_d.drop_last()) + src_d.last());
            lemma_multiset_commutative(spec_concat_all(src_d.drop_last()), src_d.last());
        }
        while list.len() > 0
            invariant
                sorted_desc(out.deep_view()),
                all_wf(out.deep_view()),
                all_wf(list.deep_view()),
                forall|i: int|
                    0 <= i < src.deep_view().len() ==> all_wf(#[trigger] src.deep_view()[i]),
                out.deep_view().to_multiset().add(list.deep_view().to_multiset()).add(
                    spec_concat_all(src.deep_view()).to_multiset(),
                ) == total.to_multiset(),
            decreases list@.len(),
        {
            let ghost list_d = list.deep_view();
            let p_opt = list.pop();
            let p = match p_opt {
                Some(p) => p,
                None => {
                    proof {
                        assert(false);
                    }
                    unreached()
                },
            };
            proof {
                assert(list.deep_view() =~= list_d.drop_last());
                assert(p.deep_view() == list_d.last());
                assert(list_d =~= list_d.drop_last().push(list_d.last()));
                assert(list_d.drop_last().push(list_d.last()).to_multiset()
                    =~= list_d.drop_last().to_multiset().insert(list_d.last()));
                assert(list_d.to_multiset() =~= list_d.drop_last().to_multiset().insert(
                    list_d.last(),
                ));
                assert(list_d.last().4.den > 0);
            }
            let ghost out_old = out.deep_view();
            insert_by_score(&mut out, p);
            proof {
                assert(out.deep_view().to_multiset() =~= out_old.to_multiset().insert(
                    list_d.last(),
                ));
                assert(out.deep_view().to_multiset().add(list.deep_view().to_multiset()).add(
                    spec_concat_all(src.deep_view()).to_multiset(),
                ) =~= out_old.to_multiset().add(list_d.to_multiset()).add(
                    spec_concat_all(src.deep_view()).to_multiset(),
                ));
            }
        }
        proof {
            assert(list.deep_view().to_multiset().len() == 0);
            assert(out.deep_view().to_multiset().add(list.deep_view().to_multiset()).add(
                spec_concat_all(src.deep_view()).to_multiset(),
            ) =~= out.deep_view().to_multiset().add(
                spec_concat_all(src.deep_view()).to_multiset(),
            ));
        }
    }
    proof {
        assert(src.deep_view().len() == 0);
        assert(spec_concat_all(src.deep_view()).to_multiset().len() == 0);
        assert(out.deep_view().to_multiset().add(spec_concat_all(src.deep_view()).to_multiset())
            =~= out.deep_view().to_multiset());
    }
    out
}

/// An ordered mapping from canonical field names to their text values.
pub type DetailsMap = Vec<(String, String)>;

/// The mathematical image of a details map.
pub type DetailsMapV = Seq<(Seq<char>, Seq<char>)>;

/// A copy of a details map holding the same texts.
#[verifier::loop_isolation(false)]
pub fn clone_details(m: &DetailsMap) -> (r: DetailsMap)
    ensures
        r.deep_view() == m.deep_view(),
{
    let n = m.len();
    let mut r: DetailsMap = Vec::new();
    let mut i: usize = 0;
    proof {
        assert(r.deep_view() =~= m.deep_view().take(0));
    }
    while i < n
        invariant
            i <= n == m@.len(),
            r.deep_view() == m.deep_view().take(i as int),
        decreases n - i,
    {
        let k = m[i].0.clone();
        let v = m[i].1.clone();
        let ghost pair_view = (k@, v@);
        r.push((k, v));
        proof {
            assert(r.deep_view()[i as int] == pair_view);
            assert(m.deep_view()[i as int] == (m@[i as int].0@, m@[i as int].1@));
            assert(r.deep_view() =~= m.deep_view().take(i + 1 as int));
        }
        i += 1;
    }
    proof {
        assert(r.deep_view() =~= m.deep_view());
    }
    r
}

/// The memo table of resolved details, keyed by the identity exactly as the
/// caller passed it. Entries are only ever added; a later entry for the same
/// identity shadows an earlier one.
pub struct DetailsCache {
    entries: Vec<(String, DetailsMap)>,
}

pub type CacheV = Seq<(Seq<char>, DetailsMapV)>;

impl View for DetailsCache {
    type V = CacheV;

    closed spec fn view(&self) -> CacheV {
        self.entries.deep_view()
    }
}

/// The value stored for a key: the most recently stored entry wins.
pub open spec fn spec_cache_get(c: CacheV, key: Seq<char>) -> Option<DetailsMapV>
    decreases c.len(),
{
    if c.len() == 0 {
        None
    } else if c.last().0 == key {
        Some(c.last().1)
    } else {
        spec_cache_get(c.drop_last(), key)
    }
}

impl DetailsCache {
    /// An empty cache.
    pub fn new() -> (r: DetailsCache)
        ensures
            r@ == Seq::<(Seq<char>, DetailsMapV)>::empty(),
    {
        let r = DetailsCache { entries: Vec::new() };
        proof {
            assert(r@ =~= Seq::<(Seq<char>, DetailsMapV)>::empty());
        }
        r
    }

    /// A copy of the entry stored under `package`, when there is one.
    #[verifier::loop_isolation(false)]
    pub fn lookup(&self, package: &str) -> (r: Option<DetailsMap>)
        ensures
            match r {
                Some(m) => spec_cache_get(self@, package@) == Some(m.deep_view()),
                None => spec_cache_get(self@, package@) is None,
            },
    {
        let key = chars_of(package);
        let n = self.entries.len();
        let mut i: usize = n;
        proof {
            assert(self@.take(n as int) =~= self@);
        }
        while i > 0
            invariant
                i <= n == self.entries@.len(),
                spec_cache_get(self@, package@) == spec_cache_get(self@.take(i as int), package@),
            decreases i,
        {
            let ek = chars_of(self.entries[i - 1].0.as_str());
            proof {
                assert(self@[i - 1] == self.entries@[i - 1].deep_view());
                assert(ek@ == self.entries@[i - 1].0@);
                assert(self@[i - 1].0 == self.entries@[i - 1].0@);
                assert(self@.take(i as int).last() == self@[i - 1]);
            }
            if eq_chars(ek.as_slice(), key.as_slice()) {
                proof {
                    assert(self@.take(i as int).last().0 == package@);
                    assert(spec_cache_get(self@.take(i as int), package@) == Some(self@[i - 1].1));
                }
                let m = clone_details(&self.entries[i - 1].1);
                proof {
                    assert(self@[i - 1].1 == self.entries@[i - 1].1.deep_view());
                }
                return Some(m);
            }
            proof {
                assert(self@.take(i as int).last().0 != package@);
                assert(self@.take(i as int).drop_last() =~= self@.take(i - 1 as int));
            }
            i -= 1;
        }
        proof {
            assert(self@.take(0) =~= Seq::<(Seq<char>, DetailsMapV)>::empty());
        }
        None
    }

    /// Stores a resolved details map under the identity exactly as given.
    pub fn store(&mut self, package: &str, info: DetailsMap)
        ensures
            final(self)@ == old(self)@.push((package@, info.deep_view())),
    {
        let ghost before = self@;
        let key = package.to_owned();
        let ghost infod = info.deep_view();
        self.entries.push((key, info));
        proof {
            assert(self@ =~= before.push((package@, infod)));
        }
    }
}

/// What a details request must do next: return the cached map, fetch from the
/// registry or from the package databases under the bare name, or give up on
/// an unknown provider family.
pub enum DetailsStep {
    Hit(DetailsMap),
    FetchAur(String),
    FetchPacman(String),
    Unknown,
}

/// The details entry point: answers from the cache when the identity (taken
/// verbatim) is present; otherwise directs the caller to the adapter selected
/// by the provider tag's leading family segment, handing it the bare package
/// name. It never touches the cache itself, so a failed resolution caches
/// nothing.
pub fn details_package(cache: &DetailsCache, package: &str, provider: &str) -> (r: DetailsStep)
    ensures
        spec_cache_get(cache@, package@) matches Some(m) ==> (r matches DetailsStep::Hit(d)
            && d.deep_view() == m),
        spec_cache_get(cache@, package@) is None && spec_family(provider@) == "aur"@
            ==> (r matches DetailsStep::FetchAur(name) && name@ == spec_pure(package@)),
        spec_cache_get(cache@, package@) is None && spec_family(provider@) != "aur"@
            && spec_family(provider@) == "pacman"@ ==> (r matches DetailsStep::FetchPacman(name)
            && name@ == spec_pure(package@)),
        spec_cache_get(cache@, package@) is None && spec_family(provider@) != "aur"@
            && spec_family(provider@) != "pacman"@ ==> r == DetailsStep::Unknown,
{
    match cache.lookup(package) {
        Some(m) => DetailsStep::Hit(m),
        None => {
            let pc = chars_of(package);
            let pure = pure_name(pc.as_slice());
            let pure_s = string_from_chars(pure.as_slice());
            let prov = chars_of(provider);
            let fam = family_of(prov.as_slice());
            let aur = chars_of("aur");
            let pacman = chars_of("pacman");
            if eq_chars(fam.as_slice(), aur.as_slice()) {
                DetailsStep::FetchAur(pure_s)
            } else if eq_chars(fam.as_slice(), pacman.as_slice()) {
                DetailsStep::FetchPacman(pure_s)
            } else {
                DetailsStep::Unknown
            }
        },
    }
}

/// Law (memoization): storing a resolved map under an identity makes exactly
/// that identity hit the cache from then on, and leaves what is stored under
/// every other identity unchanged. A failed resolution goes through no store,
/// and `details_package` takes the cache immutably, so the next call for the
/// same identity repeats the same fetch step.
pub proof fn lemma_details_cache_memoizes(c: CacheV, package: Seq<char>, info: DetailsMapV)
    ensures
        spec_cache_get(c.push((package, info)), package) == Some(info),
        forall|k: Seq<char>|
            k != package ==> #[trigger] spec_cache_get(c.push((package, info)), k)
                == spec_cache_get(c, k),
{
    assert(c.push((package, info)).last() == (package, info));
    assert forall|k: Seq<char>| k != package implies #[trigger] spec_cache_get(
        c.push((package, info)),
        k,
    ) == spec_cache_get(c, k) by {
        assert(c.push((package, info)).drop_last() =~= c);
    }
}


/// The texts of a sequence of strings.
pub open spec fn spec_texts(s: Seq<String>) -> Seq<Seq<char>> {
    s.map_values(|x: String| x@)
}

/// The argument list of an install command: the tool, its install flag, and
/// each selected package stripped to its bare name (after any repository
/// qualifier). Running the command is the caller's business.
pub open spec fn spec_install_args(tool: Seq<char>, selected: Seq<Seq<char>>) -> Seq<Seq<char>> {
    seq![tool, "-S"@] + selected.map_values(|s: Seq<char>| spec_pure(s))
}

#[verifier::loop_isolation(false)]
pub fn install_args(tool: &str, selected: &Vec<String>) -> (r: Vec<String>)
    ensures
        spec_texts(r@) == spec_install_args(tool@, spec_texts(selected@)),
{
    let ghost sel = selected@.map_values(|s: String| s@);
    let mut out: Vec<String> = Vec::new();
    out.push(tool.to_owned());
    let mut flag = String::new();
    flag.append("-S");
    out.push(flag);
    let n = selected.len();
    let mut i: usize = 0;
    proof {
        assert(out@.map_values(|s: String| s@) =~= seq![tool@, "-S"@] + sel.take(0).map_values(
            |s: Seq<char>| spec_pure(s),
        ));
    }
    while i < n
        invariant
            i <= n == selected@.len(),
            sel == selected@.map_values(|s: String| s@),
            out@.map_values(|s: String| s@) == seq![tool@, "-S"@] + sel.take(i as int).map_values(
                |s: Seq<char>| spec_pure(s),
            ),
        decreases n - i,
    {
        let sc = chars_of(selected[i].as_str());
        let pn = pure_name(sc.as_slice());
        let ps = string_from_chars(pn.as_slice());
        let ghost om = out@.map_values(|s: String| s@);
        let ghost pd = ps@;
        out.push(ps);
        proof {
            assert(out@.map_values(|s: String| s@) =~= om.push(pd));
            assert(pd == spec_pure(sel[i as int]));
            assert(sel.take(i + 1 as int).map_values(|s: Seq<char>| spec_pure(s)) =~= sel.take(
                i as int,
            ).map_values(|s: Seq<char>| spec_pure(s)).push(spec_pure(sel[i as int])));
            assert(out@.map_values(|s: String| s@) =~= seq![tool@, "-S"@] + sel.take(
                i + 1 as int,
            ).map_values(|s: Seq<char>| spec_pure(s)));
        }
        i += 1;
    }
    proof {
        assert(sel.take(n as int) =~= sel);
    }
    out
}

} // verus!
