//! Vocabulary construction.
//!
//! A vocabulary is built in one corpus pass: surface forms are
//! counted in first-seen order, the configured cutoff prunes rare
//! types, and the survivors receive dense ids by descending frequency
//! with ties broken by first-seen order. Each kept type also receives
//! a fixed-point discard probability for subsampling.

use crate::config::ConfigError;
use crate::util::{discard_probability, discard_probability_spec};
use vstd::multiset::Multiset;
use vstd::prelude::*;

verus! {

broadcast use
    vstd::string::group_string_axioms,
    vstd::seq_lib::group_to_multiset_ensures,
    vstd::seq_lib::group_filter_ensures,
    vstd::multiset::group_multiset_axioms;

/// Cutoff policies for pruning rare vocabulary items.
#[derive(Clone, Copy, Debug, PartialEq, Eq, Structural)]
pub enum Cutoff {
    /// Keep every type whose frequency reaches the given count.
    MinCount(u64),
    /// Keep at most the given number of most frequent types.
    TargetSize(usize),
}

/// A token or n-gram type together with its corpus frequency.
#[derive(Debug)]
pub struct CountedType {
    /// The surface form.
    pub label: String,
    /// The observed corpus frequency.
    pub count: u64,
}

impl CountedType {
    /// The surface form.
    pub fn label(&self) -> (r: &str)
        ensures
            r@ == self.label@,
    {
        self.label.as_str()
    }

    /// The observed corpus frequency.
    pub fn count(&self) -> (r: u64)
        ensures
            r == self.count,
    {
        self.count
    }
}

/// The first index whose label reads `g`, or `-1` when none does.
pub open spec fn find_spec(s: Seq<CountedType>, g: Seq<char>) -> int
    decreases s.len(),
{
    if s.len() == 0 {
        -1
    } else if s[0].label@ == g {
        0
    } else {
        let r = find_spec(s.drop_first(), g);
        if r < 0 {
            -1
        } else {
            r + 1
        }
    }
}

/// The count recorded for `g`, or zero when `g` is not present.
pub open spec fn recorded_count(s: Seq<CountedType>, g: Seq<char>) -> int {
    let f = find_spec(s, g);
    if f < 0 {
        0
    } else {
        s[f].count as int
    }
}

/// `find_spec` finds the first match, and only a match.
pub proof fn lemma_find_spec_props(s: Seq<CountedType>, g: Seq<char>)
    ensures
        find_spec(s, g) >= 0 ==> 0 <= find_spec(s, g) < s.len() && s[find_spec(s, g)].label@ == g,
        find_spec(s, g) >= 0 ==> forall|j: int|
            0 <= j < find_spec(s, g) ==> s[j].label@ != g,
        find_spec(s, g) < 0 ==> forall|j: int| 0 <= j < s.len() ==> s[j].label@ != g,
    decreases s.len(),
{
    if s.len() > 0 && s[0].label@ != g {
        lemma_find_spec_props(s.drop_first(), g);
        assert forall|j: int| 1 <= j < s.len() implies s.drop_first()[j - 1] == s[j] by {}
    }
}

/// `find_spec` returns the index of the first match when one exists.
pub proof fn lemma_find_spec_first(s: Seq<CountedType>, g: Seq<char>, i: int)
    requires
        0 <= i < s.len(),
        s[i].label@ == g,
        forall|j: int| 0 <= j < i ==> s[j].label@ != g,
    ensures
        find_spec(s, g) == i,
    decreases i,
{
    if i > 0 {
        lemma_find_spec_first(s.drop_first(), g, i - 1);
    }
}

/// Labels are pairwise distinct.
pub open spec fn distinct_labels(s: Seq<CountedType>) -> bool {
    forall|i: int, j: int| 0 <= i < j < s.len() ==> s[i].label@ != s[j].label@
}

/// The index of the first entry whose label reads `g`, when there is
/// one.
fn find_label(v: &Vec<CountedType>, g: &str) -> (r: Option<usize>)
    ensures
        (match r {
            Some(i) => 0 <= i < v@.len() && find_spec(v@, g@) == i,
            None => find_spec(v@, g@) < 0,
        }),
{
    let gs = String::from_str(g);
    let mut i: usize = 0;
    while i < v.len()
        invariant
            i <= v@.len(),
            gs@ == g@,
            forall|j: int| 0 <= j < i ==> v@[j].label@ != g@,
        decreases v@.len() - i,
    {
        if v[i].label == gs {
            proof {
                lemma_find_spec_first(v@, g@, i as int);
            }
            return Some(i);
        }
        i = i + 1;
    }
    proof {
        lemma_find_spec_props(v@, g@);
        if find_spec(v@, g@) >= 0 {
            assert(v@[find_spec(v@, g@)].label@ != g@);
        }
    }
    None
}

/// Saturating addition on counts.
pub open spec fn sat_add_u64(a: int, b: int) -> int {
    if a + b > 0xFFFF_FFFF_FFFF_FFFF {
        0xFFFF_FFFF_FFFF_FFFF
    } else {
        a + b
    }
}

/// Record `times` further occurrences of `g` in a counter, appending
/// a new entry when `g` is new; counts saturate.
fn bump(v: &mut Vec<CountedType>, g: &str, times: u64) -> (added: bool)
    requires
        times >= 1,
    ensures
        recorded_count(final(v)@, g@) == sat_add_u64(recorded_count(old(v)@, g@), times as int),
        forall|o: Seq<char>| o != g@ ==> recorded_count(final(v)@, o) == recorded_count(old(v)@, o),
        added <==> find_spec(old(v)@, g@) < 0,
        added ==> final(v)@.len() == old(v)@.len() + 1 && final(v)@.take(old(v)@.len() as int) == old(v)@
            && final(v)@.last().label@ == g@ && final(v)@.last().count == times,
        !added ==> final(v)@.len() == old(v)@.len() && (forall|j: int|
            0 <= j < final(v)@.len() && j != find_spec(old(v)@, g@) ==> final(v)@[j] == old(v)@[j]) && final(v)@[
            find_spec(old(v)@, g@)
        ].label == old(v)@[find_spec(old(v)@, g@)].label && final(v)@[find_spec(old(v)@, g@)].count
            == sat_add_u64(old(v)@[find_spec(old(v)@, g@)].count as int, times as int),
        distinct_labels(old(v)@) ==> distinct_labels(final(v)@),
    {
    let found = find_label(v, g);
    proof {
        lemma_find_spec_props(old(v)@, g@);
    }
    match found {
        Some(i) => {
            let oldc = v[i].count;
            let newc: u64 = if oldc <= u64::MAX - times {
                oldc + times
            } else {
                u64::MAX
            };
            let removed = v.remove(i);
            v.insert(i, CountedType { label: removed.label, count: newc });
            proof {
                let f = find_spec(old(v)@, g@);
                assert(v@[f].label@ == g@);
                assert forall|j: int| 0 <= j < f implies v@[j].label@ != g@ by {
                    assert(v@[j] == old(v)@[j]);
                }
                lemma_find_spec_first(v@, g@, f);
                assert forall|o: Seq<char>| o != g@ implies recorded_count(v@, o)
                    == recorded_count(old(v)@, o) by {
                    lemma_find_spec_props(v@, o);
                    lemma_find_spec_props(old(v)@, o);
                    let fo = find_spec(old(v)@, o);
                    if fo >= 0 {
                        assert(old(v)@[fo].label@ == o);
                        assert(fo != f);
                        assert(v@[fo] == old(v)@[fo]);
                        assert forall|j: int| 0 <= j < fo implies v@[j].label@ != o by {
                            if j != f {
                                assert(v@[j] == old(v)@[j]);
                            } else {
                                assert(v@[j].label@ == g@);
                            }
                        }
                        lemma_find_spec_first(v@, o, fo);
                    } else {
                        if find_spec(v@, o) >= 0 {
                            let fn_ = find_spec(v@, o);
                            if fn_ == f {
                                assert(v@[f].label@ == g@);
                            } else {
                                assert(v@[fn_] == old(v)@[fn_]);
                                assert(old(v)@[fn_].label@ != o);
                            }
                        }
                    }
                }
            }
            false
        },
        None => {
            let lab = String::from_str(g);
            v.push(CountedType { label: lab, count: times });
            proof {
                let n = old(v)@.len() as int;
                assert(v@.take(n) =~= old(v)@);
                assert(v@[n].label@ == g@);
                assert forall|j: int| 0 <= j < n implies v@[j].label@ != g@ by {
                    assert(v@[j] == old(v)@[j]);
                }
                lemma_find_spec_first(v@, g@, n);
                assert forall|o: Seq<char>| o != g@ implies recorded_count(v@, o)
                    == recorded_count(old(v)@, o) by {
                    lemma_find_spec_props(v@, o);
                    lemma_find_spec_props(old(v)@, o);
                    let fo = find_spec(old(v)@, o);
                    if fo >= 0 {
                        assert(old(v)@[fo].label@ == o);
                        assert(v@[fo] == old(v)@[fo]);
                        assert forall|j: int| 0 <= j < fo implies v@[j].label@ != o by {
                            assert(v@[j] == old(v)@[j]);
                        }
                        lemma_find_spec_first(v@, o, fo);
                    } else {
                        if find_spec(v@, o) >= 0 {
                            let fn_ = find_spec(v@, o);
                            if fn_ < n {
                                assert(v@[fn_] == old(v)@[fn_]);
                            } else {
                                assert(v@[fn_].label@ == g@);
                            }
                        }
                    }
                }
            }
            true
        },
    }
}

/// Accumulates type frequencies over one corpus pass, in first-seen
/// order.
pub struct VocabBuilder {
    items: Vec<CountedType>,
    n_tokens: u64,
}

impl VocabBuilder {
    /// The counted types, in first-seen order.
    pub closed spec fn spec_items(&self) -> Seq<CountedType> {
        self.items@
    }

    /// The number of tokens counted so far (saturating).
    pub closed spec fn spec_n_tokens(&self) -> u64 {
        self.n_tokens
    }

    /// The builder's bookkeeping holds: labels distinct, counts
    /// positive and no larger than the token total.
    pub open spec fn wf(&self) -> bool {
        &&& distinct_labels(self.spec_items())
        &&& forall|i: int|
            0 <= i < self.spec_items().len() ==> 1 <= (#[trigger] self.spec_items()[i]).count
                <= self.spec_n_tokens()
    }

    /// An empty builder.
    pub fn new() -> (r: VocabBuilder)
        ensures
            r.wf(),
            r.spec_items().len() == 0,
            r.spec_n_tokens() == 0,
    {
        VocabBuilder { items: Vec::new(), n_tokens: 0 }
    }

    /// The number of tokens counted so far (saturating).
    pub fn n_tokens(&self) -> (r: u64)
        ensures
            r == self.spec_n_tokens(),
    {
        self.n_tokens
    }

    /// The number of distinct types seen so far.
    pub fn n_types(&self) -> (r: usize)
        ensures
            r == self.spec_items().len(),
    {
        self.items.len()
    }

    /// Count one occurrence of `word`.
    pub fn count(&mut self, word: &str)
        requires
            old(self).wf(),
        ensures
            final(self).wf(),
            recorded_count(final(self).spec_items(), word@) == sat_add_u64(
                recorded_count(old(self).spec_items(), word@),
                1,
            ),
            forall|o: Seq<char>| o != word@ ==> recorded_count(final(self).spec_items(), o)
                == recorded_count(old(self).spec_items(), o),
            final(self).spec_n_tokens() == sat_add_u64(old(self).spec_n_tokens() as int, 1),
            find_spec(old(self).spec_items(), word@) >= 0 ==> final(self).spec_items().len() == old(
                self,
            ).spec_items().len(),
            find_spec(old(self).spec_items(), word@) < 0 ==> final(self).spec_items().len() == old(
                self,
            ).spec_items().len() + 1 && final(self).spec_items().take(
                old(self).spec_items().len() as int,
            ) == old(self).spec_items() && final(self).spec_items().last().label@ == word@,
    {
        let ghost olditems = self.items@;
        let _added = bump(&mut self.items, word, 1);
        self.n_tokens = if self.n_tokens < u64::MAX {
            self.n_tokens + 1
        } else {
            self.n_tokens
        };
        proof {
            let f = find_spec(olditems, word@);
            lemma_find_spec_props(olditems, word@);
            assert forall|i: int| 0 <= i < self.items@.len() implies 1 <= (
            #[trigger] self.items@[i]).count <= self.n_tokens by {
                if f >= 0 {
                    if i == f {
                    } else {
                        assert(self.items@[i] == olditems[i]);
                    }
                } else {
                    if i < olditems.len() {
                        assert(self.items@.take(olditems.len() as int)[i] == self.items@[i]);
                    }
                }
            }
        }
    }
}

impl VocabBuilder {
    /// Record `times` occurrences of a type at once — used when
    /// counting n-grams, whose frequency is the sum of the counts of
    /// the words they occur in.
    pub fn add_count(&mut self, label: &str, times: u64)
        requires
            old(self).wf(),
            times >= 1,
        ensures
            final(self).wf(),
            recorded_count(final(self).spec_items(), label@) == sat_add_u64(
                recorded_count(old(self).spec_items(), label@),
                times as int,
            ),
            forall|o: Seq<char>| o != label@ ==> recorded_count(final(self).spec_items(), o)
                == recorded_count(old(self).spec_items(), o),
            final(self).spec_n_tokens() == sat_add_u64(old(self).spec_n_tokens() as int, times as int),
    {
        let ghost olditems = self.items@;
        let ghost oldtok = self.n_tokens;
        let _added = bump(&mut self.items, label, times);
        self.n_tokens = if self.n_tokens <= u64::MAX - times {
            self.n_tokens + times
        } else {
            u64::MAX
        };
        proof {
            let f = find_spec(olditems, label@);
            lemma_find_spec_props(olditems, label@);
            assert forall|i: int| 0 <= i < self.items@.len() implies 1 <= (
            #[trigger] self.items@[i]).count <= self.n_tokens by {
                if f >= 0 {
                    if i == f {
                    } else {
                        assert(self.items@[i] == olditems[i]);
                    }
                } else {
                    if i < olditems.len() {
                        assert(self.items@.take(olditems.len() as int)[i] == self.items@[i]);
                    }
                }
            }
        }
    }

    /// Hand the counted types over, in first-seen order.
    pub fn into_items(self) -> (r: Vec<CountedType>)
        ensures
            r@ == self.spec_items(),
    {
        self.items
    }
}

/// A vocabulary entry: a counted type and the position at which it
/// was first seen, the tie-breaker for id assignment.
#[derive(Debug)]
pub struct VocabEntry {
    /// The counted type.
    pub ty: CountedType,
    /// First-seen position in the corpus pass.
    pub first_seen: usize,
}

/// `a` is ordered strictly before `b`: higher count, or equal count
/// and earlier first seen.
pub open spec fn entry_precedes(a: VocabEntry, b: VocabEntry) -> bool {
    a.ty.count > b.ty.count || (a.ty.count == b.ty.count && a.first_seen < b.first_seen)
}

/// Sorted by descending count, ties by first-seen order.
pub open spec fn sorted_entries(s: Seq<VocabEntry>) -> bool {
    forall|i: int, j: int| 0 <= i < j < s.len() ==> entry_precedes(s[i], s[j])
}

/// First-seen positions are pairwise distinct.
pub open spec fn distinct_first_seen(s: Seq<VocabEntry>) -> bool {
    forall|i: int, j: int|
        0 <= i < j < s.len() ==> (#[trigger] s[i]).first_seen != (#[trigger] s[j]).first_seen
}

/// `a` before `b`, as executable code decides it.
fn entry_precedes_exec(a: &VocabEntry, b: &VocabEntry) -> (r: bool)
    ensures
        r == entry_precedes(*a, *b),
{
    a.ty.count > b.ty.count || (a.ty.count == b.ty.count && a.first_seen < b.first_seen)
}

/// Sort entries by descending count, ties by first-seen order.
///
/// Selection sort: repeatedly extract the least element under the
/// strict total order `entry_precedes`.
fn sort_entries(src: Vec<VocabEntry>) -> (r: Vec<VocabEntry>)
    requires
        distinct_first_seen(src@),
    ensures
        r@.to_multiset() == src@.to_multiset(),
        sorted_entries(r@),
        distinct_first_seen(r@),
        r@.len() == src@.len(),
{
    let ghost orig = src@;
    let mut src = src;
    let mut out: Vec<VocabEntry> = Vec::new();
    proof {
        assert(out@.to_multiset().add(src@.to_multiset()) =~= orig.to_multiset());
    }
    while src.len() > 0
        invariant
            out@.to_multiset().add(src@.to_multiset()) == orig.to_multiset(),
            out@.len() + src@.len() == orig.len(),
            sorted_entries(out@),
            distinct_first_seen(out@),
            distinct_first_seen(src@),
            forall|i: int, j: int|
                0 <= i < out@.len() && 0 <= j < src@.len() ==> (#[trigger] out@[i]).first_seen != (
                #[trigger] src@[j]).first_seen,
            forall|i: int, j: int|
                0 <= i < out@.len() && 0 <= j < src@.len() ==> entry_precedes(out@[i], src@[j]),
        decreases src@.len(),
    {
        let mut best: usize = 0;
        let mut k: usize = 1;
        while k < src.len()
            invariant
                1 <= k <= src@.len(),
                best < k,
                distinct_first_seen(src@),
                forall|j: int| 0 <= j < k && j != best ==> entry_precedes(src@[best as int], src@[j]),
            decreases src@.len() - k,
        {
            if entry_precedes_exec(&src[k], &src[best]) {
                best = k;
                proof {
                    assert forall|j: int| 0 <= j < k + 1 && j != best implies entry_precedes(
                        src@[best as int],
                        src@[j],
                    ) by {
                        if j < k {
                            assert(src@[j].first_seen != src@[k as int].first_seen);
                        }
                    }
                }
            } else {
                proof {
                    assert(src@[k as int].first_seen != src@[best as int].first_seen);
                }
            }
            k = k + 1;
        }
        let ghost oldsrc = src@;
        let ghost oldout = out@;
        let e = src.remove(best);
        out.push(e);
        proof {
            assert(oldsrc.remove(best as int).to_multiset() == oldsrc.to_multiset().remove(
                oldsrc[best as int],
            ));
            assert(out@.to_multiset() == oldout.to_multiset().insert(e));
            assert(oldsrc.to_multiset().count(e) > 0) by {
                assert(oldsrc.contains(e));
            }
            assert(out@.to_multiset().add(src@.to_multiset()) =~= oldout.to_multiset().add(
                oldsrc.to_multiset(),
            ));
            assert forall|i: int, j: int|
                0 <= i < out@.len() && 0 <= j < src@.len() implies entry_precedes(
                out@[i],
                src@[j],
            ) by {
                let sj = if j < best as int {
                    j
                } else {
                    j + 1
                };
                assert(src@[j] == oldsrc[sj]);
                if i < oldout.len() {
                    assert(out@[i] == oldout[i]);
                } else {
                    assert(out@[i] == oldsrc[best as int]);
                    assert(entry_precedes(oldsrc[best as int], oldsrc[sj]));
                }
            }
            assert forall|i: int, j: int|
                0 <= i < out@.len() && 0 <= j < src@.len() implies (#[trigger] out@[i]).first_seen
                != (#[trigger] src@[j]).first_seen by {
                let sj = if j < best as int {
                    j
                } else {
                    j + 1
                };
                assert(src@[j] == oldsrc[sj]);
                if i < oldout.len() {
                    assert(out@[i] == oldout[i]);
                } else {
                    assert(out@[i] == oldsrc[best as int]);
                }
            }
            assert forall|i: int, j: int| 0 <= i < j < out@.len() implies entry_precedes(
                out@[i],
                out@[j],
            ) by {
                if j < oldout.len() {
                } else {
                    assert(out@[j] == oldsrc[best as int]);
                    assert(entry_precedes(oldout[i], oldsrc[best as int]));
                }
            }
            assert forall|i: int, j: int| 0 <= i < j < out@.len() implies (
            #[trigger] out@[i]).first_seen != (#[trigger] out@[j]).first_seen by {
                if j == oldout.len() {
                    assert(out@[j] == oldsrc[best as int]);
                }
            }
        }
    }
    proof {
        assert(src@.to_multiset() =~= Multiset::<VocabEntry>::empty());
        assert(out@.to_multiset() =~= orig.to_multiset());
        assert(out@.to_multiset().len() == orig.to_multiset().len());
    }
    out
}

/// Builder items tagged with their first-seen position.
pub open spec fn tagged(items: Seq<CountedType>) -> Seq<VocabEntry> {
    Seq::new(items.len(), |i: int| VocabEntry { ty: items[i], first_seen: i as usize })
}

/// The minimum-count predicate of a cutoff.
pub open spec fn meets_min(m: u64) -> spec_fn(VocabEntry) -> bool {
    |e: VocabEntry| e.ty.count >= m
}

/// The tagged builder items kept by a minimum-count cutoff.
pub open spec fn kept_min_count(items: Seq<CountedType>, m: u64) -> Seq<VocabEntry> {
    tagged(items).filter(meets_min(m))
}

/// An element-wise property carries over to any rearrangement.
proof fn lemma_multiset_transfer<A>(a: Seq<A>, b: Seq<A>, p: spec_fn(A) -> bool)
    requires
        a.to_multiset() == b.to_multiset(),
        forall|i: int| 0 <= i < a.len() ==> p(#[trigger] a[i]),
    ensures
        forall|i: int| 0 <= i < b.len() ==> p(#[trigger] b[i]),
{
    assert forall|i: int| 0 <= i < b.len() implies p(b[i]) by {
        assert(b.contains(b[i]));
        assert(b.to_multiset().count(b[i]) > 0);
        assert(a.to_multiset().count(b[i]) > 0);
        assert(a.contains(b[i]));
        let j = choose|j: int| 0 <= j < a.len() && a[j] == b[i];
        assert(p(a[j]));
    }
}

/// A finalized vocabulary: an id is an index into the entry table,
/// so ids are dense in `[0, n_types)` by construction.
pub struct Vocab {
    entries: Vec<VocabEntry>,
    discards: Vec<u64>,
    n_tokens: u64,
    threshold_ppb: u64,
}

impl Vocab {
    /// The entries, in id order.
    pub closed spec fn spec_entries(&self) -> Seq<VocabEntry> {
        self.entries@
    }

    /// The fixed-point discard probabilities, in id order.
    pub closed spec fn spec_discards(&self) -> Seq<u64> {
        self.discards@
    }

    /// The token total of the counting pass.
    pub closed spec fn spec_n_tokens(&self) -> u64 {
        self.n_tokens
    }

    /// The discard threshold, in parts per billion.
    pub closed spec fn spec_threshold_ppb(&self) -> u64 {
        self.threshold_ppb
    }

    /// Well-formedness: entries are sorted by descending frequency
    /// with first-seen tie-break, labels and first-seen positions are
    /// pairwise distinct, counts are positive and bounded by the
    /// token total, and every id's discard probability is the
    /// fixed-point subsampling probability of its frequency.
    pub open spec fn wf(&self) -> bool {
        &&& sorted_entries(self.spec_entries())
        &&& distinct_first_seen(self.spec_entries())
        &&& forall|i: int, j: int|
            0 <= i < j < self.spec_entries().len() ==> (#[trigger] self.spec_entries()[i]).ty.label@
                != (#[trigger] self.spec_entries()[j]).ty.label@
        &&& self.spec_discards().len() == self.spec_entries().len()
        &&& forall|i: int|
            0 <= i < self.spec_entries().len() ==> 1 <= (
            #[trigger] self.spec_entries()[i]).ty.count <= self.spec_n_tokens()
        &&& forall|i: int|
            0 <= i < self.spec_entries().len() ==> (#[trigger] self.spec_discards()[i])
                == discard_probability_spec(
                self.spec_entries()[i].ty.count as nat,
                self.spec_n_tokens() as nat,
                self.spec_threshold_ppb() as nat,
            )
        &&& self.spec_threshold_ppb() <= 1000000000
    }

    /// Finalize a vocabulary: prune with the cutoff, assign dense ids
    /// by descending frequency (ties by first-seen order), and attach
    /// discard probabilities. A corpus yielding no surviving type is
    /// a fatal configuration error.
    pub fn from_builder(builder: VocabBuilder, cutoff: Cutoff, threshold_ppb: u64) -> (r: Result<
        Vocab,
        ConfigError,
    >)
        requires
            builder.wf(),
            threshold_ppb <= 1000000000,
        ensures
            (match r {
                Ok(v) => {
                    &&& v.wf()
                    &&& v.spec_n_tokens() == builder.spec_n_tokens()
                    &&& v.spec_threshold_ppb() == threshold_ppb
                    &&& v.spec_entries().len() > 0
                    &&& (match cutoff {
                        Cutoff::MinCount(m) => v.spec_entries().to_multiset() == kept_min_count(
                            builder.spec_items(),
                            m,
                        ).to_multiset(),
                        Cutoff::TargetSize(k) => exists|full: Seq<VocabEntry>|
                            #![auto]
                            full.to_multiset() == tagged(builder.spec_items()).to_multiset()
                                && sorted_entries(full) && v.spec_entries() == full.take(
                                if (k as int) < full.len() {
                                    k as int
                                } else {
                                    full.len() as int
                                },
                            ),
                    })
                },
                Err(e) => {
                    &&& e == ConfigError::EmptyVocab
                    &&& (match cutoff {
                        Cutoff::MinCount(m) => kept_min_count(builder.spec_items(), m).len() == 0,
                        Cutoff::TargetSize(k) => k == 0 || builder.spec_items().len() == 0,
                    })
                },
            }),
    {
        let total = builder.n_tokens;
        let mut items = builder.items;
        let ghost items0 = items@;
        let n = items.len();
        let mut entries: Vec<VocabEntry> = Vec::new();
        let mut i: usize = 0;
        while items.len() > 0
            invariant
                entries@.len() == i,
                i + items@.len() == n,
                n == items0.len(),
                forall|j: int| 0 <= j < i ==> entries@[j] == tagged(items0)[j],
                forall|j: int| 0 <= j < items@.len() ==> items@[j] == items0[i + j],
            decreases items@.len(),
        {
            let e = items.remove(0);
            entries.push(VocabEntry { ty: e, first_seen: i });
            i = i + 1;
        }
        proof {
            assert(entries@ =~= tagged(items0));
            assert forall|a: int, b: int| 0 <= a < b < entries@.len() implies (
            #[trigger] entries@[a]).first_seen != (#[trigger] entries@[b]).first_seen by {}
        }
        let sorted: Vec<VocabEntry> = match cutoff {
            Cutoff::MinCount(m) => {
                let mut kept: Vec<VocabEntry> = Vec::new();
                let mut i2: usize = 0;
                while entries.len() > 0
                    invariant
                        i2 + entries@.len() == n,
                        n == items0.len(),
                        kept@ == tagged(items0).take(i2 as int).filter(meets_min(m)),
                        distinct_first_seen(kept@),
                        forall|j: int|
                            0 <= j < kept@.len() ==> (#[trigger] kept@[j]).first_seen < i2,
                        forall|j: int|
                            0 <= j < entries@.len() ==> entries@[j] == tagged(items0)[i2 + j],
                    decreases entries@.len(),
                {
                    let ghost oldkept = kept@;
                    let e = entries.remove(0);
                    proof {
                        let t = tagged(items0);
                        let pr = meets_min(m);
                        assert(e == t[i2 as int]);
                        assert(t.take(i2 + 1) =~= t.take(i2 as int) + seq![e]);
                        Seq::<VocabEntry>::filter_distributes_over_add(
                            t.take(i2 as int),
                            seq![e],
                            pr,
                        );
                        assert(seq![e].filter(pr) == if pr(e) {
                            seq![e]
                        } else {
                            Seq::<VocabEntry>::empty()
                        }) by {
                            reveal_with_fuel(Seq::filter, 2);
                            assert(seq![e].drop_last() =~= Seq::<VocabEntry>::empty());
                            assert(seq![e].last() == e);
                            assert(Seq::<VocabEntry>::empty().filter(pr) == Seq::<
                                VocabEntry,
                            >::empty());
                            assert(Seq::<VocabEntry>::empty().push(e) =~= seq![e]);
                        }
                        assert(pr(e) == (e.ty.count >= m));
                    }
                    if e.ty.count >= m {
                        kept.push(e);
                        proof {
                            assert(kept@ =~= oldkept + seq![e]);
                        }
                    } else {
                        proof {
                            assert(kept@ =~= oldkept + Seq::<VocabEntry>::empty());
                        }
                    }
                    i2 = i2 + 1;
                }
                proof {
                    assert(tagged(items0).take(n as int) =~= tagged(items0));
                    assert(kept@ == kept_min_count(items0, m));
                }
                sort_entries(kept)
            },
            Cutoff::TargetSize(k) => {
                let mut s = sort_entries(entries);
                let ghost full = s@;
                if k < s.len() {
                    s.truncate(k);
                }
                proof {
                    if (k as int) < full.len() {
                        assert(s@ == full.take(k as int));
                    } else {
                        assert(s@ =~= full.take(full.len() as int));
                    }
                    assert forall|a: int, b: int| 0 <= a < b < s@.len() implies entry_precedes(
                        s@[a],
                        s@[b],
                    ) by {
                        assert(s@[a] == full[a] && s@[b] == full[b]);
                    }
                    assert forall|a: int, b: int| 0 <= a < b < s@.len() implies (
                    #[trigger] s@[a]).first_seen != (#[trigger] s@[b]).first_seen by {
                        assert(s@[a] == full[a] && s@[b] == full[b]);
                    }
                    assert forall|a: int| 0 <= a < s@.len() implies tagged(items0).to_multiset().count(
                        #[trigger] s@[a],
                    ) > 0 by {
                        assert(s@[a] == full[a]);
                        assert(full.contains(full[a]));
                    }
                }
                s
            },
        };
        proof {
            let t = tagged(items0);
            assert forall|a: int| 0 <= a < t.len() implies 1 <= (#[trigger] t[a]).ty.count
                <= total && t[a].first_seen < items0.len() && t[a].ty == items0[
                t[a].first_seen as int
            ] by {
                assert(t[a].ty == items0[a]);
            }
            assert forall|a: int| 0 <= a < sorted@.len() implies 1 <= (
            #[trigger] sorted@[a]).ty.count <= total && sorted@[a].first_seen < items0.len()
                && sorted@[a].ty == items0[sorted@[a].first_seen as int] by {
                assert(t.contains(sorted@[a])) by {
                    match cutoff {
                        Cutoff::MinCount(m) => {
                            assert(sorted@.to_multiset().count(sorted@[a]) > 0) by {
                                assert(sorted@.contains(sorted@[a]));
                            }
                            assert(kept_min_count(items0, m).to_multiset().count(sorted@[a]) > 0);
                            assert(kept_min_count(items0, m).contains(sorted@[a]));
                            t.lemma_filter_contains_rev(meets_min(m), sorted@[a]);
                        },
                        Cutoff::TargetSize(k) => {
                            assert(t.to_multiset().count(sorted@[a]) > 0);
                        },
                    }
                }
                let j = choose|j: int| 0 <= j < t.len() && t[j] == sorted@[a];
                assert(t[j].ty == items0[j]);
            }
            assert forall|a: int, b: int| 0 <= a < b < sorted@.len() implies (
            #[trigger] sorted@[a]).ty.label@ != (#[trigger] sorted@[b]).ty.label@ by {
                let fa = sorted@[a].first_seen as int;
                let fb = sorted@[b].first_seen as int;
                assert(sorted@[a].ty == items0[fa]);
                assert(sorted@[b].ty == items0[fb]);
                assert(fa != fb);
                if fa < fb {
                    assert(items0[fa].label@ != items0[fb].label@);
                } else {
                    assert(items0[fb].label@ != items0[fa].label@);
                }
            }
        }
        if sorted.len() == 0 {
            return Err(ConfigError::EmptyVocab);
        }
        let mut discards: Vec<u64> = Vec::new();
        let mut d: usize = 0;
        while d < sorted.len()
            invariant
                d <= sorted@.len(),
                discards@.len() == d,
                threshold_ppb <= 1000000000,
                forall|a: int|
                    0 <= a < sorted@.len() ==> 1 <= (#[trigger] sorted@[a]).ty.count <= total,
                forall|a: int|
                    0 <= a < d ==> (#[trigger] discards@[a]) == discard_probability_spec(
                        sorted@[a].ty.count as nat,
                        total as nat,
                        threshold_ppb as nat,
                    ),
            decreases sorted@.len() - d,
        {
            let p = discard_probability(sorted[d].ty.count, total, threshold_ppb);
            discards.push(p);
            d = d + 1;
        }
        Ok(Vocab { entries: sorted, discards, n_tokens: total, threshold_ppb })
    }

    /// The number of types; ids are exactly `0 .. n_types`.
    pub fn n_types(&self) -> (r: usize)
        ensures
            r == self.spec_entries().len(),
    {
        self.entries.len()
    }

    /// The token total of the counting pass.
    pub fn n_tokens(&self) -> (r: u64)
        ensures
            r == self.spec_n_tokens(),
    {
        self.n_tokens
    }

    /// The surface form of an id.
    pub fn word(&self, id: usize) -> (r: &str)
        requires
            id < self.spec_entries().len(),
        ensures
            r@ == self.spec_entries()[id as int].ty.label@,
    {
        self.entries[id].ty.label.as_str()
    }

    /// The frequency of an id.
    pub fn count(&self, id: usize) -> (r: u64)
        requires
            id < self.spec_entries().len(),
        ensures
            r == self.spec_entries()[id as int].ty.count,
    {
        self.entries[id].ty.count
    }

    /// The first-seen position of an id.
    pub fn first_seen(&self, id: usize) -> (r: usize)
        requires
            id < self.spec_entries().len(),
        ensures
            r == self.spec_entries()[id as int].first_seen,
    {
        self.entries[id].first_seen
    }

    /// The scaled discard probability of an id.
    pub fn discard(&self, id: usize) -> (r: u64)
        requires
            id < self.spec_discards().len(),
        ensures
            r == self.spec_discards()[id as int],
    {
        self.discards[id]
    }

    /// The id of a surface form, when it survived the cutoff.
    pub fn idx(&self, word: &str) -> (r: Option<usize>)
        ensures
            (match r {
                Some(i) => i < self.spec_entries().len() && self.spec_entries()[i as int].ty.label@
                    == word@,
                None => forall|j: int|
                    0 <= j < self.spec_entries().len() ==> (
                    #[trigger] self.spec_entries()[j]).ty.label@ != word@,
            }),
    {
        let ws = String::from_str(word);
        let mut i: usize = 0;
        while i < self.entries.len()
            invariant
                i <= self.entries@.len(),
                ws@ == word@,
                forall|j: int| 0 <= j < i ==> (#[trigger] self.entries@[j]).ty.label@ != word@,
            decreases self.entries@.len() - i,
        {
            if self.entries[i].ty.label == ws {
                return Some(i);
            }
            i = i + 1;
        }
        None
    }
}

/// Under a minimum-count cutoff, every id's frequency reaches the
/// cutoff: ids are dense by construction, and no surviving type is
/// rarer than the configured minimum.
pub proof fn lemma_min_count_bound(entries: Seq<VocabEntry>, items: Seq<CountedType>, m: u64)
    requires
        entries.to_multiset() == kept_min_count(items, m).to_multiset(),
    ensures
        forall|i: int| 0 <= i < entries.len() ==> (#[trigger] entries[i]).ty.count >= m,
{
    let kept = kept_min_count(items, m);
    assert forall|i: int| 0 <= i < kept.len() implies (#[trigger] kept[i]).ty.count >= m by {
        assert(meets_min(m)(kept[i]));
    }
    lemma_multiset_transfer::<VocabEntry>(kept, entries, |e: VocabEntry| e.ty.count >= m);
}

/// Under a size-target cutoff the survivors are the top of the
/// ranking: every kept entry is ordered before every dropped one.
pub proof fn lemma_target_size_top_k(full: Seq<VocabEntry>, k: int)
    requires
        sorted_entries(full),
        0 <= k <= full.len(),
    ensures
        forall|i: int, j: int|
            0 <= i < k && k <= j < full.len() ==> entry_precedes(full.take(k)[i], full[j]),
{
    assert forall|i: int, j: int| 0 <= i < k && k <= j < full.len() implies entry_precedes(
        full.take(k)[i],
        full[j],
    ) by {
        assert(full.take(k)[i] == full[i]);
    }
}


/// A vocabulary built with the full discard threshold never discards
/// a token: every id's discard probability is zero.
pub proof fn lemma_full_threshold_vocab_never_discards(v: Vocab)
    requires
        v.wf(),
        v.spec_threshold_ppb() == 1000000000,
    ensures
        forall|i: int| 0 <= i < v.spec_discards().len() ==> (#[trigger] v.spec_discards()[i]) == 0,
{
    assert forall|i: int| 0 <= i < v.spec_discards().len() implies (
    #[trigger] v.spec_discards()[i]) == 0 by {
        crate::util::lemma_full_threshold_no_discard(
            v.spec_entries()[i].ty.count as nat,
            v.spec_n_tokens() as nat,
        );
    }
}

} // verus!
