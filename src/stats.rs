//! Counters of one extraction run.
use vstd::prelude::*;
use crate::text::text_eq;

verus! {

/// The counters of one locale.
#[derive(Debug)]
pub struct LanguageStatistics {
    pub lang: String,
    pub ftl_files_count: usize,
    pub ftl_stored_keys_count: usize,
    pub ftl_keys_updated: usize,
    pub ftl_keys_added: usize,
    pub ftl_keys_commented: usize,
}

/// The counters of one run: source files with keys, keys found in code, and the
/// counters of each locale.
#[derive(Debug)]
pub struct ExtractionStatistics {
    pub py_files_count: usize,
    pub ftl_in_code_keys_count: usize,
    pub languages: Vec<LanguageStatistics>,
}

/// The counters of a locale, in order: files, stored keys, updated, added, commented.
pub open spec fn counters(s: LanguageStatistics) -> (nat, nat, nat, nat, nat) {
    (
        s.ftl_files_count as nat,
        s.ftl_stored_keys_count as nat,
        s.ftl_keys_updated as nat,
        s.ftl_keys_added as nat,
        s.ftl_keys_commented as nat,
    )
}

/// Whether no locale is listed twice.
pub open spec fn langs_unique(v: Seq<LanguageStatistics>) -> bool {
    forall|i: int, j: int| 0 <= i < j < v.len() ==> #[trigger] v[i].lang@ != #[trigger] v[j].lang@
}

/// The counters of locale `l` in `v`; all zero when it is not listed.
pub open spec fn counters_of(v: Seq<LanguageStatistics>, l: Seq<char>) -> (nat, nat, nat, nat, nat) {
    if exists|i: int| 0 <= i < v.len() && #[trigger] v[i].lang@ == l {
        counters(v[choose|i: int| 0 <= i < v.len() && #[trigger] v[i].lang@ == l])
    } else {
        (0, 0, 0, 0, 0)
    }
}

/// Whether locale `l` is listed in `v`.
pub open spec fn listed(v: Seq<LanguageStatistics>, l: Seq<char>) -> bool {
    exists|i: int| 0 <= i < v.len() && #[trigger] v[i].lang@ == l
}

pub open spec fn add_counters(a: (nat, nat, nat, nat, nat), b: (nat, nat, nat, nat, nat)) -> (
    nat,
    nat,
    nat,
    nat,
    nat,
) {
    (a.0 + b.0, a.1 + b.1, a.2 + b.2, a.3 + b.3, a.4 + b.4)
}

proof fn lemma_counters_at(v: Seq<LanguageStatistics>, i: int)
    requires
        langs_unique(v),
        0 <= i < v.len(),
    ensures
        counters_of(v, v[i].lang@) == counters(v[i]),
        listed(v, v[i].lang@),
{
    let l = v[i].lang@;
    assert(v[i].lang@ == l);
    let c = choose|c: int| 0 <= c < v.len() && #[trigger] v[c].lang@ == l;
    if c != i {
        if c < i {
            assert(v[c].lang@ != v[i].lang@);
        } else {
            assert(v[i].lang@ != v[c].lang@);
        }
    }
}

fn find_lang(v: &Vec<LanguageStatistics>, l: &str) -> (r: Option<usize>)
    requires
        langs_unique(v@),
    ensures
        r is Some ==> r->0 < v@.len() && v@[r->0 as int].lang@ == l@,
        r is None ==> !listed(v@, l@),
{
    let mut i: usize = 0;
    while i < v.len()
        invariant
            i <= v.len(),
            forall|j: int| 0 <= j < i ==> v@[j].lang@ != l@,
        decreases v.len() - i,
    {
        if text_eq(v[i].lang.as_str(), l) {
            return Some(i);
        }
        i += 1;
    }
    None
}

/// What listing `fresh` in `before` as `after` leaves of the other locales.
pub open spec fn others_unchanged(
    before: Seq<LanguageStatistics>,
    after: Seq<LanguageStatistics>,
    lang: Seq<char>,
) -> bool {
    forall|l: Seq<char>|
        l != lang ==> #[trigger] counters_of(after, l) == counters_of(before, l) && listed(after, l)
            == listed(before, l)
}

proof fn lemma_frame(before: Seq<LanguageStatistics>, after: Seq<LanguageStatistics>, lang: Seq<char>)
    requires
        langs_unique(before),
        langs_unique(after),
        forall|j: int| 0 <= j < after.len() && after[j].lang@ != lang ==> j < before.len() && #[trigger] after[j] == before[j],
        forall|j: int| 0 <= j < before.len() && before[j].lang@ != lang ==> j < after.len() && #[trigger] after[j] == before[j],
    ensures
        others_unchanged(before, after, lang),
{
    assert forall|l: Seq<char>| l != lang implies #[trigger] counters_of(after, l) == counters_of(before, l)
        && listed(after, l) == listed(before, l) by {
        if listed(before, l) {
            let j = choose|j: int| 0 <= j < before.len() && #[trigger] before[j].lang@ == l;
            assert(after[j] == before[j]);
            lemma_counters_at(before, j);
            lemma_counters_at(after, j);
        }
        if listed(after, l) {
            let j = choose|j: int| 0 <= j < after.len() && #[trigger] after[j].lang@ == l;
            assert(after[j] == before[j]);
            assert(before[j].lang@ == l);
        }
    }
}

impl ExtractionStatistics {
    /// All counters at zero, no locale listed.
    pub fn new() -> (r: ExtractionStatistics)
        ensures
            r.py_files_count == 0,
            r.ftl_in_code_keys_count == 0,
            r.languages@.len() == 0,
    {
        ExtractionStatistics { py_files_count: 0, ftl_in_code_keys_count: 0, languages: Vec::new() }
    }

    /// Lists locale `lang` with its counters at zero.
    pub fn init_lang(&mut self, lang: &str)
        requires
            langs_unique(old(self).languages@),
        ensures
            final(self).py_files_count == old(self).py_files_count,
            final(self).ftl_in_code_keys_count == old(self).ftl_in_code_keys_count,
            langs_unique(final(self).languages@),
            counters_of(final(self).languages@, lang@) == (0nat, 0nat, 0nat, 0nat, 0nat),
            listed(final(self).languages@, lang@),
            others_unchanged(old(self).languages@, final(self).languages@, lang@),
    {
        let fresh = LanguageStatistics {
            lang: crate::text::string_of(&crate::text::chars_of(lang)),
            ftl_files_count: 0,
            ftl_stored_keys_count: 0,
            ftl_keys_updated: 0,
            ftl_keys_added: 0,
            ftl_keys_commented: 0,
        };
        let ghost before = self.languages@;
        match find_lang(&self.languages, lang) {
            Some(i) => {
                self.languages.set(i, fresh);
                proof {
                    let after = self.languages@;
                    assert(langs_unique(after)) by {
                        assert forall|a: int, b: int| 0 <= a < b < after.len() implies #[trigger] after[a].lang@
                            != #[trigger] after[b].lang@ by {
                            assert(after[a].lang@ == before[a].lang@ && after[b].lang@ == before[b].lang@);
                        }
                    }
                    lemma_counters_at(after, i as int);
                    lemma_frame(before, after, lang@);
                }
            },
            None => {
                let ghost fl = fresh.lang@;
                assert(fl == lang@);
                self.languages.push(fresh);
                proof {
                    let after = self.languages@;
                    assert(after.len() == before.len() + 1);
                    assert(after[before.len() as int].lang@ == lang@);
                    assert(!listed(before, lang@));
                    assert(langs_unique(before));
                    assert forall|a: int| 0 <= a < before.len() implies #[trigger] before[a].lang@ != lang@ by {
                        if before[a].lang@ == lang@ {
                            assert(listed(before, lang@));
                        }
                    }
                    assert forall|a: int| 0 <= a < before.len() implies #[trigger] after[a] == before[a] by {}
                    assert(langs_unique(after)) by {
                        assert forall|a: int, b: int| 0 <= a < b < after.len() implies #[trigger] after[a].lang@
                            != #[trigger] after[b].lang@ by {
                            if b == before.len() {
                                assert(after[a] == before[a]);
                                assert(after[b].lang@ == lang@);
                                assert(before[a].lang@ != lang@);
                                assert(after[a].lang@ != after[b].lang@);
                            } else {
                                assert(after[a] == before[a] && after[b] == before[b]);
                                assert(before[a].lang@ != before[b].lang@);
                                assert(after[a].lang@ != after[b].lang@);
                            }
                        }
                    }
                    lemma_counters_at(after, before.len() as int);
                    lemma_frame(before, after, lang@);
                }
            },
        }
    }
}

/// Whether adding the counters of `other` to those of `base` stays in range.
pub open spec fn sums_fit(base: Seq<LanguageStatistics>, other: Seq<LanguageStatistics>) -> bool {
    forall|i: int|
        0 <= i < other.len() ==> {
            let a = counters_of(base, #[trigger] other[i].lang@);
            let b = counters(other[i]);
            &&& a.0 + b.0 <= usize::MAX
            &&& a.1 + b.1 <= usize::MAX
            &&& a.2 + b.2 <= usize::MAX
            &&& a.3 + b.3 <= usize::MAX
            &&& a.4 + b.4 <= usize::MAX
        }
}

/// Locales listed among the first `i` of `v`.
pub open spec fn listed_before(v: Seq<LanguageStatistics>, i: int, l: Seq<char>) -> bool {
    exists|j: int| 0 <= j < i && #[trigger] v[j].lang@ == l
}

impl ExtractionStatistics {
    /// Adds the counters of one locale to those of the same locale here, listing it
    /// if it is not yet.
    fn add_lang(&mut self, s: &LanguageStatistics)
        requires
            langs_unique(old(self).languages@),
            ({
                let a = counters_of(old(self).languages@, s.lang@);
                let b = counters(*s);
                a.0 + b.0 <= usize::MAX && a.1 + b.1 <= usize::MAX && a.2 + b.2 <= usize::MAX && a.3
                    + b.3 <= usize::MAX && a.4 + b.4 <= usize::MAX
            }),
        ensures
            final(self).py_files_count == old(self).py_files_count,
            final(self).ftl_in_code_keys_count == old(self).ftl_in_code_keys_count,
            langs_unique(final(self).languages@),
            counters_of(final(self).languages@, s.lang@) == add_counters(
                counters_of(old(self).languages@, s.lang@),
                counters(*s),
            ),
            listed(final(self).languages@, s.lang@),
            others_unchanged(old(self).languages@, final(self).languages@, s.lang@),
    {
        let ghost before = self.languages@;
        match find_lang(&self.languages, s.lang.as_str()) {
            Some(i) => {
                proof {
                    lemma_counters_at(before, i as int);
                }
                let cur = &self.languages[i];
                let merged = LanguageStatistics {
                    lang: cur.lang.clone(),
                    ftl_files_count: cur.ftl_files_count + s.ftl_files_count,
                    ftl_stored_keys_count: cur.ftl_stored_keys_count + s.ftl_stored_keys_count,
                    ftl_keys_updated: cur.ftl_keys_updated + s.ftl_keys_updated,
                    ftl_keys_added: cur.ftl_keys_added + s.ftl_keys_added,
                    ftl_keys_commented: cur.ftl_keys_commented + s.ftl_keys_commented,
                };
                self.languages.set(i, merged);
                proof {
                    let after = self.languages@;
                    assert forall|a: int| 0 <= a < after.len() && a != i implies #[trigger] after[a] == before[a] by {}
                    assert(langs_unique(after)) by {
                        assert forall|a: int, b: int| 0 <= a < b < after.len() implies #[trigger] after[a].lang@
                            != #[trigger] after[b].lang@ by {
                            assert(after[a].lang@ == before[a].lang@);
                            assert(after[b].lang@ == before[b].lang@);
                            assert(before[a].lang@ != before[b].lang@);
                        }
                    }
                    lemma_counters_at(after, i as int);
                    lemma_frame(before, after, s.lang@);
                }
            },
            None => {
                let fresh = LanguageStatistics {
                    lang: s.lang.clone(),
                    ftl_files_count: s.ftl_files_count,
                    ftl_stored_keys_count: s.ftl_stored_keys_count,
                    ftl_keys_updated: s.ftl_keys_updated,
                    ftl_keys_added: s.ftl_keys_added,
                    ftl_keys_commented: s.ftl_keys_commented,
                };
                self.languages.push(fresh);
                proof {
                    let after = self.languages@;
                    assert forall|a: int| 0 <= a < before.len() implies #[trigger] before[a].lang@ != s.lang@ by {
                        if before[a].lang@ == s.lang@ {
                            assert(listed(before, s.lang@));
                        }
                    }
                    assert forall|a: int| 0 <= a < before.len() implies #[trigger] after[a] == before[a] by {}
                    assert(langs_unique(after)) by {
                        assert forall|a: int, b: int| 0 <= a < b < after.len() implies #[trigger] after[a].lang@
                            != #[trigger] after[b].lang@ by {
                            if b == before.len() {
                                assert(after[a] == before[a]);
                                assert(before[a].lang@ != s.lang@);
                                assert(after[a].lang@ != after[b].lang@);
                            } else {
                                assert(after[a] == before[a] && after[b] == before[b]);
                                assert(before[a].lang@ != before[b].lang@);
                                assert(after[a].lang@ != after[b].lang@);
                            }
                        }
                    }
                    lemma_counters_at(after, before.len() as int);
                    lemma_frame(before, after, s.lang@);
                }
            },
        }
    }

    /// Adds the counters of each locale of `other` to those here.
    pub fn merge(&mut self, other: ExtractionStatistics)
        requires
            langs_unique(old(self).languages@),
            langs_unique(other.languages@),
            sums_fit(old(self).languages@, other.languages@),
        ensures
            final(self).py_files_count == old(self).py_files_count,
            final(self).ftl_in_code_keys_count == old(self).ftl_in_code_keys_count,
            langs_unique(final(self).languages@),
            forall|l: Seq<char>|
                #[trigger] counters_of(final(self).languages@, l) == add_counters(
                    counters_of(old(self).languages@, l),
                    counters_of(other.languages@, l),
                ),
            forall|l: Seq<char>|
                #[trigger] listed(final(self).languages@, l) == (listed(old(self).languages@, l)
                    || listed(other.languages@, l)),
    {
        let ghost base = self.languages@;
        let ghost ov = other.languages@;
        let mut i: usize = 0;
        while i < other.languages.len()
            invariant
                i <= other.languages.len(),
                base == old(self).languages@,
                ov == other.languages@,
                langs_unique(ov),
                sums_fit(base, ov),
                self.py_files_count == old(self).py_files_count,
                self.ftl_in_code_keys_count == old(self).ftl_in_code_keys_count,
                langs_unique(self.languages@),
                forall|l: Seq<char>|
                    #[trigger] counters_of(self.languages@, l) == (if listed_before(ov, i as int, l) {
                        add_counters(counters_of(base, l), counters_of(ov, l))
                    } else {
                        counters_of(base, l)
                    }),
                forall|l: Seq<char>|
                    #[trigger] listed(self.languages@, l) == (listed(base, l) || listed_before(ov, i as int, l)),
            decreases other.languages.len() - i,
        {
            let ghost cur = self.languages@;
            let ghost li = ov[i as int].lang@;
            proof {
                lemma_counters_at(ov, i as int);
                assert(!listed_before(ov, i as int, li)) by {
                    if listed_before(ov, i as int, li) {
                        let j = choose|j: int| 0 <= j < i && #[trigger] ov[j].lang@ == li;
                        assert(ov[j].lang@ != ov[i as int].lang@);
                    }
                }
                assert(counters_of(cur, li) == counters_of(base, li));
            }
            self.add_lang(&other.languages[i]);
            proof {
                assert forall|l: Seq<char>| #[trigger] listed_before(ov, i + 1, l) == (listed_before(ov, i as int, l) || l == li) by {
                    if l == li {
                        assert(ov[i as int].lang@ == l);
                    }
                    if listed_before(ov, i + 1, l) && l != li {
                        let j = choose|j: int| 0 <= j < i + 1 && #[trigger] ov[j].lang@ == l;
                        assert(j < i);
                    }
                }
                assert forall|l: Seq<char>| #[trigger] listed(self.languages@, l) == (listed(base, l) || listed_before(ov, i + 1, l)) by {
                    if l != li {
                        assert(counters_of(self.languages@, l) == counters_of(cur, l));
                        assert(listed(cur, l) == (listed(base, l) || listed_before(ov, i as int, l)));
                    }
                }
            }
            i += 1;
        }
        proof {
            assert forall|l: Seq<char>| #[trigger] listed_before(ov, ov.len() as int, l) == listed(ov, l) by {}
            assert forall|l: Seq<char>| !listed(ov, l) implies counters_of(ov, l) == (0nat, 0nat, 0nat, 0nat, 0nat) by {}
            assert forall|l: Seq<char>| #[trigger] counters_of(self.languages@, l) == add_counters(
                counters_of(base, l),
                counters_of(ov, l),
            ) by {
                assert(listed_before(ov, ov.len() as int, l) == listed(ov, l));
                if !listed(ov, l) {
                    assert(counters_of(ov, l) == (0nat, 0nat, 0nat, 0nat, 0nat));
                }
            }
            assert forall|l: Seq<char>| #[trigger] listed(self.languages@, l) == (listed(base, l) || listed(ov, l)) by {
                assert(listed_before(ov, ov.len() as int, l) == listed(ov, l));
            }
        }
    }
}

} // verus!
