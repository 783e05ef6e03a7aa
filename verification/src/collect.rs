//! Aggregation of matched addresses.
//!
//! An [`AddrCollection`] counts, per address, how often the address occurred
//! and how often each display-name variant accompanied it.  Collections from
//! different worker threads are merged at the end; merging is commutative and
//! associative, and the empty collection is its identity.
//!
//! The collection is represented by association lists with distinct keys; its
//! mathematical view is a [`Map`] from the address text to its statistics.

use vstd::prelude::*;

verus! {

/// One address extracted from a header field: the routing address and the
/// optional display name that accompanied it.
pub struct AddressRecord {
    pub addr: String,
    pub display_name: Option<String>,
}

/// The statistics a collection keeps for one address.
#[verifier::ext_equal]
pub struct AddrStats {
    pub occurrences: u64,
    pub name_variants: Map<Seq<char>, u64>,
}

/// `a + b`, capped at `u64::MAX`.
pub open spec fn sat_add(a: u64, b: u64) -> u64 {
    if a + b > u64::MAX {
        u64::MAX
    } else {
        (a + b) as u64
    }
}

fn sat_add_u64(a: u64, b: u64) -> (r: u64)
    ensures
        r == sat_add(a, b),
{
    if a > u64::MAX - b {
        u64::MAX
    } else {
        a + b
    }
}

/// The count stored for `k`, or zero if `k` is absent.
pub open spec fn count_of(m: Map<Seq<char>, u64>, k: Seq<char>) -> u64 {
    if m.contains_key(k) {
        m[k]
    } else {
        0
    }
}

/// Raises the count stored for `k` by `n` (saturating).
pub open spec fn bump_count(m: Map<Seq<char>, u64>, k: Seq<char>, n: u64) -> Map<Seq<char>, u64> {
    m.insert(k, sat_add(count_of(m, k), n))
}

/// The statistics of an address that was never seen.
pub open spec fn empty_stats() -> AddrStats {
    AddrStats { occurrences: 0, name_variants: Map::empty() }
}

/// The statistics stored for `k`, or the empty statistics if `k` is absent.
pub open spec fn stats_of(m: Map<Seq<char>, AddrStats>, k: Seq<char>) -> AddrStats {
    if m.contains_key(k) {
        m[k]
    } else {
        empty_stats()
    }
}

/// Pointwise saturating sum of two count maps.
pub open spec fn merge_counts(a: Map<Seq<char>, u64>, b: Map<Seq<char>, u64>) -> Map<
    Seq<char>,
    u64,
> {
    Map::new(
        |k: Seq<char>| a.contains_key(k) || b.contains_key(k),
        |k: Seq<char>| sat_add(count_of(a, k), count_of(b, k)),
    )
}

/// Combined statistics of one address seen by two collections.
pub open spec fn merge_stats(a: AddrStats, b: AddrStats) -> AddrStats {
    AddrStats {
        occurrences: sat_add(a.occurrences, b.occurrences),
        name_variants: merge_counts(a.name_variants, b.name_variants),
    }
}

/// What merging two collections yields, pointwise over all addresses.
pub open spec fn spec_merge(a: Map<Seq<char>, AddrStats>, b: Map<Seq<char>, AddrStats>) -> Map<
    Seq<char>,
    AddrStats,
> {
    Map::new(
        |k: Seq<char>| a.contains_key(k) || b.contains_key(k),
        |k: Seq<char>| merge_stats(stats_of(a, k), stats_of(b, k)),
    )
}

/// What recording one address does to a collection: its occurrence count
/// rises by one and, if a display name accompanied it, that variant's count
/// rises by one.
pub open spec fn spec_add_record(m: Map<Seq<char>, AddrStats>, rec: AddressRecord) -> Map<
    Seq<char>,
    AddrStats,
> {
    let s = stats_of(m, rec.addr@);
    m.insert(
        rec.addr@,
        AddrStats {
            occurrences: sat_add(s.occurrences, 1),
            name_variants: match rec.display_name {
                Some(n) => bump_count(s.name_variants, n@, 1),
                None => s.name_variants,
            },
        },
    )
}

/// Records a sequence of addresses in order.
pub open spec fn add_records(m: Map<Seq<char>, AddrStats>, recs: Seq<AddressRecord>) -> Map<
    Seq<char>,
    AddrStats,
>
    decreases recs.len(),
{
    if recs.len() == 0 {
        m
    } else {
        spec_add_record(add_records(m, recs.drop_last()), recs.last())
    }
}

/// Recording a concatenation records the first part, then the second.
pub proof fn lemma_add_records_concat(
    m: Map<Seq<char>, AddrStats>,
    a: Seq<AddressRecord>,
    b: Seq<AddressRecord>,
)
    ensures
        add_records(m, a + b) == add_records(add_records(m, a), b),
    decreases b.len(),
{
    if b.len() == 0 {
        assert(a + b =~= a);
    } else {
        lemma_add_records_concat(m, a, b.drop_last());
        assert((a + b).drop_last() =~= a + b.drop_last());
        assert((a + b).last() == b.last());
    }
}

/// Merging the empty collection, on either side, changes nothing.
///
/// This is the identity law for merging.
pub proof fn lemma_merge_identity(a: Map<Seq<char>, AddrStats>)
    ensures
        spec_merge(a, Map::empty()) == a,
        spec_merge(Map::empty(), a) == a,
{
    assert forall|k: Seq<char>| #[trigger] a.contains_key(k) implies merge_stats(
        stats_of(a, k),
        empty_stats(),
    ) == a[k] && merge_stats(empty_stats(), stats_of(a, k)) == a[k] by {
        assert(merge_counts(a[k].name_variants, Map::empty()) =~= a[k].name_variants);
        assert(merge_counts(Map::empty(), a[k].name_variants) =~= a[k].name_variants);
        assert(merge_stats(stats_of(a, k), empty_stats()) =~~= a[k]);
        assert(merge_stats(empty_stats(), stats_of(a, k)) =~~= a[k]);
    }
    assert(spec_merge(a, Map::empty()) =~= a);
    assert(spec_merge(Map::empty(), a) =~= a);
}

/// Merging is commutative.
pub proof fn lemma_merge_commutative(a: Map<Seq<char>, AddrStats>, b: Map<Seq<char>, AddrStats>)
    ensures
        spec_merge(a, b) == spec_merge(b, a),
{
    assert forall|k: Seq<char>|
        a.contains_key(k) || b.contains_key(k) implies #[trigger] merge_stats(
        stats_of(a, k),
        stats_of(b, k),
    ) == merge_stats(stats_of(b, k), stats_of(a, k)) by {
        assert(merge_counts(stats_of(a, k).name_variants, stats_of(b, k).name_variants)
            =~= merge_counts(stats_of(b, k).name_variants, stats_of(a, k).name_variants));
        assert(merge_stats(stats_of(a, k), stats_of(b, k)) =~~= merge_stats(
            stats_of(b, k),
            stats_of(a, k),
        ));
    }
    assert(spec_merge(a, b) =~= spec_merge(b, a));
}

/// Merging is associative.
pub proof fn lemma_merge_associative(
    a: Map<Seq<char>, AddrStats>,
    b: Map<Seq<char>, AddrStats>,
    c: Map<Seq<char>, AddrStats>,
)
    ensures
        spec_merge(spec_merge(a, b), c) == spec_merge(a, spec_merge(b, c)),
{
    assert forall|k: Seq<char>|
        a.contains_key(k) || b.contains_key(k) || c.contains_key(k) implies #[trigger] merge_stats(
        stats_of(spec_merge(a, b), k),
        stats_of(c, k),
    ) == merge_stats(stats_of(a, k), stats_of(spec_merge(b, c), k)) by {
        let sa = stats_of(a, k);
        let sb = stats_of(b, k);
        let sc = stats_of(c, k);
        assert(stats_of(spec_merge(a, b), k) == merge_stats(sa, sb) || stats_of(
            spec_merge(a, b),
            k,
        ) == sa && sb == empty_stats());
        lemma_stats_right_identity(sa);
        lemma_stats_right_identity(sc);
        lemma_stats_left_identity(sc);
        assert(merge_counts(
            merge_counts(sa.name_variants, sb.name_variants),
            sc.name_variants,
        ) =~= merge_counts(sa.name_variants, merge_counts(sb.name_variants, sc.name_variants)));
        assert(merge_stats(merge_stats(sa, sb), sc) =~~= merge_stats(sa, merge_stats(sb, sc)));
    }
    assert(spec_merge(spec_merge(a, b), c) =~= spec_merge(a, spec_merge(b, c)));
}

/// Merging the empty statistics on the right changes nothing.
proof fn lemma_stats_right_identity(s: AddrStats)
    ensures
        merge_stats(s, empty_stats()) == s,
{
    assert(merge_counts(s.name_variants, Map::empty()) =~= s.name_variants);
    assert(merge_stats(s, empty_stats()) =~~= s);
}

/// Merging the empty statistics on the left changes nothing.
proof fn lemma_stats_left_identity(s: AddrStats)
    ensures
        merge_stats(empty_stats(), s) == s,
{
    assert(merge_counts(Map::empty(), s.name_variants) =~= s.name_variants);
    assert(merge_stats(empty_stats(), s) =~~= s);
}

// ---------------------------------------------------------------------------
// Association lists with distinct keys, the executable representation.
// ---------------------------------------------------------------------------
/// The map an association list stands for; later entries would shadow
/// earlier ones, but the lists kept here never repeat a key.
pub open spec fn assoc_map<V>(entries: Seq<(String, V)>) -> Map<Seq<char>, V>
    decreases entries.len(),
{
    if entries.len() == 0 {
        Map::empty()
    } else {
        assoc_map(entries.drop_last()).insert(entries.last().0@, entries.last().1)
    }
}

/// No key text occurs twice.
pub open spec fn distinct_keys<V>(entries: Seq<(String, V)>) -> bool {
    forall|i: int, j: int|
        0 <= i < j < entries.len() ==> (#[trigger] entries[i]).0@ != (#[trigger] entries[j]).0@
}

proof fn lemma_assoc_absent<V>(entries: Seq<(String, V)>, k: Seq<char>)
    requires
        forall|i: int| 0 <= i < entries.len() ==> (#[trigger] entries[i]).0@ != k,
    ensures
        !assoc_map(entries).contains_key(k),
    decreases entries.len(),
{
    if entries.len() > 0 {
        lemma_assoc_absent(entries.drop_last(), k);
    }
}

proof fn lemma_assoc_lookup<V>(entries: Seq<(String, V)>, j: int)
    requires
        distinct_keys(entries),
        0 <= j < entries.len(),
    ensures
        assoc_map(entries).contains_key(entries[j].0@),
        assoc_map(entries)[entries[j].0@] == entries[j].1,
    decreases entries.len(),
{
    if j == entries.len() - 1 {
    } else {
        lemma_assoc_lookup(entries.drop_last(), j);
    }
}

proof fn lemma_assoc_update<V>(entries: Seq<(String, V)>, j: int, e: (String, V))
    requires
        distinct_keys(entries),
        0 <= j < entries.len(),
        e.0@ == entries[j].0@,
    ensures
        assoc_map(entries.update(j, e)) == assoc_map(entries).insert(e.0@, e.1),
        distinct_keys(entries.update(j, e)),
    decreases entries.len(),
{
    let updated = entries.update(j, e);
    assert forall|p: int, q: int| 0 <= p < q < updated.len() implies (#[trigger] updated[p]).0@ != (
    #[trigger] updated[q]).0@ by {
        assert(updated[p].0@ == entries[p].0@ && updated[q].0@ == entries[q].0@);
    }
    if j == entries.len() - 1 {
        assert(updated.drop_last() =~= entries.drop_last());
        assert(assoc_map(updated) == assoc_map(entries.drop_last()).insert(e.0@, e.1));
        assert(assoc_map(entries).insert(e.0@, e.1) =~= assoc_map(entries.drop_last()).insert(
            e.0@,
            e.1,
        ));
    } else {
        lemma_assoc_update(entries.drop_last(), j, e);
        assert(updated.drop_last() =~= entries.drop_last().update(j, e));
        assert(updated.last() == entries.last());
        // the two inserted keys differ, so the inserts commute
        assert(entries[j].0@ != entries.last().0@);
        assert(assoc_map(entries.drop_last()).insert(e.0@, e.1).insert(
            entries.last().0@,
            entries.last().1,
        ) =~= assoc_map(entries.drop_last()).insert(entries.last().0@, entries.last().1).insert(
            e.0@,
            e.1,
        ));
    }
}

/// Finds the entry whose key text equals `key`.
fn find_key<V>(entries: &Vec<(String, V)>, key: &String) -> (r: Option<usize>)
    ensures
        match r {
            Some(j) => j < entries@.len() && entries@[j as int].0@ == key@,
            None => forall|i: int| 0 <= i < entries@.len() ==> (#[trigger] entries@[i]).0@ != key@,
        },
{
    let mut i: usize = 0;
    let n = entries.len();
    while i < n
        invariant
            i <= n,
            n == entries@.len(),
            forall|t: int| 0 <= t < i ==> (#[trigger] entries@[t]).0@ != key@,
        decreases n - i,
    {
        if entries[i].0 == *key {
            return Some(i);
        }
        i = i + 1;
    }
    None
}

/// Raises the count recorded for `name` by `n`, inserting it if absent.
fn bump_name(variants: &mut Vec<(String, u64)>, name: String, n: u64)
    requires
        distinct_keys(old(variants)@),
    ensures
        distinct_keys(final(variants)@),
        assoc_map(final(variants)@) == bump_count(assoc_map(old(variants)@), name@, n),
{
    match find_key(variants, &name) {
        Some(j) => {
            let cur: u64 = variants[j].1;
            let newv = sat_add_u64(cur, n);
            proof {
                lemma_assoc_lookup(variants@, j as int);
            }
            let ghost pre = variants@;
            variants[j] = (name, newv);
            proof {
                lemma_assoc_update(pre, j as int, (variants@[j as int].0, newv));
            }
        },
        None => {
            proof {
                lemma_assoc_absent(variants@, name@);
            }
            let ghost pre = variants@;
            variants.push((name, n));
            proof {
                assert(variants@.drop_last() =~= pre);
                assert forall|p: int, q: int| 0 <= p < q < variants@.len() implies (
                #[trigger] variants@[p]).0@ != (#[trigger] variants@[q]).0@ by {
                    if q < variants@.len() - 1 {
                        assert(variants@[p] == pre[p] && variants@[q] == pre[q]);
                    } else {
                        assert(variants@[q].0@ == name@);
                        if assoc_map(pre).contains_key(variants@[p].0@) {
                        }
                        lemma_assoc_lookup(pre, p);
                    }
                }
            }
        },
    }
}

/// Everything the search collected for one address.
struct AddrData {
    occurrences: u64,
    name_variants: Vec<(String, u64)>,
}

/// The view of one stored entry.
spec fn data_view(d: AddrData) -> AddrStats {
    AddrStats { occurrences: d.occurrences, name_variants: assoc_map(d.name_variants@) }
}

/// The per-address occurrence and display-name statistics gathered by one
/// worker, merged across workers when the search finishes.
pub struct AddrCollection {
    addrs: Vec<(String, AddrData)>,
}

/// The view of a whole collection: entry views, keyed by the address text.
spec fn stats_map(entries: Seq<(String, AddrData)>) -> Map<Seq<char>, AddrStats>
    decreases entries.len(),
{
    if entries.len() == 0 {
        Map::empty()
    } else {
        stats_map(entries.drop_last()).insert(entries.last().0@, data_view(entries.last().1))
    }
}

proof fn lemma_stats_map_absent(entries: Seq<(String, AddrData)>, k: Seq<char>)
    requires
        forall|i: int| 0 <= i < entries.len() ==> (#[trigger] entries[i]).0@ != k,
    ensures
        !stats_map(entries).contains_key(k),
    decreases entries.len(),
{
    if entries.len() > 0 {
        lemma_stats_map_absent(entries.drop_last(), k);
    }
}

proof fn lemma_stats_map_lookup(entries: Seq<(String, AddrData)>, j: int)
    requires
        distinct_keys(entries),
        0 <= j < entries.len(),
    ensures
        stats_map(entries).contains_key(entries[j].0@),
        stats_map(entries)[entries[j].0@] == data_view(entries[j].1),
    decreases entries.len(),
{
    if j == entries.len() - 1 {
    } else {
        lemma_stats_map_lookup(entries.drop_last(), j);
    }
}

proof fn lemma_stats_map_update(entries: Seq<(String, AddrData)>, j: int, e: (String, AddrData))
    requires
        distinct_keys(entries),
        0 <= j < entries.len(),
        e.0@ == entries[j].0@,
    ensures
        stats_map(entries.update(j, e)) == stats_map(entries).insert(e.0@, data_view(e.1)),
        distinct_keys(entries.update(j, e)),
    decreases entries.len(),
{
    let updated = entries.update(j, e);
    assert forall|p: int, q: int| 0 <= p < q < updated.len() implies (#[trigger] updated[p]).0@ != (
    #[trigger] updated[q]).0@ by {
        assert(updated[p].0@ == entries[p].0@ && updated[q].0@ == entries[q].0@);
    }
    if j == entries.len() - 1 {
        assert(updated.drop_last() =~= entries.drop_last());
        assert(stats_map(entries).insert(e.0@, data_view(e.1)) =~= stats_map(
            entries.drop_last(),
        ).insert(e.0@, data_view(e.1)));
    } else {
        lemma_stats_map_update(entries.drop_last(), j, e);
        assert(updated.drop_last() =~= entries.drop_last().update(j, e));
        assert(updated.last() == entries.last());
        assert(entries[j].0@ != entries.last().0@);
        assert(stats_map(entries.drop_last()).insert(e.0@, data_view(e.1)).insert(
            entries.last().0@,
            data_view(entries.last().1),
        ) =~= stats_map(entries.drop_last()).insert(
            entries.last().0@,
            data_view(entries.last().1),
        ).insert(e.0@, data_view(e.1)));
    }
}

impl View for AddrCollection {
    type V = Map<Seq<char>, AddrStats>;

    closed spec fn view(&self) -> Map<Seq<char>, AddrStats> {
        stats_map(self.addrs@)
    }
}

impl AddrCollection {
    /// The representation keeps every key, at either level, at most once.
    pub closed spec fn wf(&self) -> bool {
        &&& distinct_keys(self.addrs@)
        &&& forall|i: int|
            0 <= i < self.addrs@.len() ==> distinct_keys(
                (#[trigger] self.addrs@[i]).1.name_variants@,
            )
    }

    pub fn new() -> (r: Self)
        ensures
            r.wf(),
            r@ == Map::<Seq<char>, AddrStats>::empty(),
    {
        AddrCollection { addrs: Vec::new() }
    }

    /// Folds one stored entry into the collection, combining it with what is
    /// already recorded under the same address.
    fn absorb_entry(&mut self, key: String, d: AddrData)
        requires
            old(self).wf(),
            distinct_keys(d.name_variants@),
        ensures
            final(self).wf(),
            final(self)@ == old(self)@.insert(
                key@,
                merge_stats(stats_of(old(self)@, key@), data_view(d)),
            ),
    {
        match find_key(&self.addrs, &key) {
            Some(j) => {
                let ghost orig = self.addrs@;
                proof {
                    lemma_stats_map_lookup(orig, j as int);
                }
                let mut entry: (String, AddrData) = (
                    String::new(),
                    AddrData { occurrences: 0, name_variants: Vec::new() },
                );
                let ghost dummy = entry;
                core::mem::swap(&mut entry, &mut self.addrs[j]);
                let (key0, data0) = entry;
                let AddrData { occurrences: occ0, name_variants: mut vars } = data0;
                let occ = sat_add_u64(occ0, d.occurrences);
                let AddrData { occurrences: _, name_variants: mut d_vars } = d;
                let ghost vars0 = vars@;
                let ghost d_vars0 = d_vars@;
                let ghost target = merge_counts(assoc_map(vars0), assoc_map(d_vars0));
                while d_vars.len() > 0
                    invariant
                        distinct_keys(vars@),
                        distinct_keys(d_vars@),
                        merge_counts(assoc_map(vars@), assoc_map(d_vars@)) == target,
                    decreases d_vars@.len(),
                {
                    let ghost d_vars_pre = d_vars@;
                    let ghost a_pre = assoc_map(vars@);
                    let (n, c) = d_vars.pop().unwrap();
                    proof {
                        assert(d_vars@ =~= d_vars_pre.drop_last());
                        assert(assoc_map(d_vars_pre) == assoc_map(d_vars@).insert(n@, c));
                        assert forall|i: int| 0 <= i < d_vars@.len() implies (
                        #[trigger] d_vars@[i]).0@ != n@ by {
                            assert(d_vars_pre[i] == d_vars@[i]);
                            assert(d_vars_pre[d_vars_pre.len() - 1].0@ == n@);
                        }
                        lemma_assoc_absent(d_vars@, n@);
                        lemma_counts_absorb(a_pre, assoc_map(d_vars@), n@, c);
                    }
                    bump_name(&mut vars, n, c);
                }
                proof {
                    assert(assoc_map(d_vars@) =~= Map::<Seq<char>, u64>::empty());
                    lemma_counts_right_identity(assoc_map(vars@));
                }
                self.addrs[j] = (key0, AddrData { occurrences: occ, name_variants: vars });
                proof {
                    assert(orig[j as int].0@ == key@);
                    assert(self.addrs@ =~= orig.update(j as int, self.addrs@[j as int]));
                    lemma_stats_map_update(orig, j as int, self.addrs@[j as int]);
                    assert(data_view(self.addrs@[j as int].1) =~~= merge_stats(
                        stats_of(old(self)@, key@),
                        data_view(d),
                    ));
                }
            },
            None => {
                proof {
                    lemma_stats_map_absent(self.addrs@, key@);
                    lemma_stats_left_identity(data_view(d));
                }
                let ghost pre = self.addrs@;
                self.addrs.push((key, d));
                proof {
                    assert(self.addrs@.drop_last() =~= pre);
                    assert forall|p: int, q: int| 0 <= p < q < self.addrs@.len() implies (
                    #[trigger] self.addrs@[p]).0@ != (#[trigger] self.addrs@[q]).0@ by {
                        if q < self.addrs@.len() - 1 {
                            assert(self.addrs@[p] == pre[p] && self.addrs@[q] == pre[q]);
                        } else {
                            assert(self.addrs@[q].0@ == key@);
                            assert(pre[p].0@ != key@);
                        }
                    }
                }
            },
        }
    }

    /// Records one matched address.
    pub fn add(&mut self, rec: AddressRecord)
        requires
            old(self).wf(),
        ensures
            final(self).wf(),
            final(self)@ == spec_add_record(old(self)@, rec),
    {
        let ghost rec0 = rec;
        let AddressRecord { addr, display_name } = rec;
        let mut vars: Vec<(String, u64)> = Vec::new();
        match display_name {
            Some(n) => {
                vars.push((n, 1));
            },
            None => {},
        }
        proof {
            match rec0.display_name {
                Some(n) => {
                    assert(vars@.len() == 1);
                    assert(vars@.drop_last() =~= Seq::<(String, u64)>::empty());
                    assert(assoc_map(Seq::<(String, u64)>::empty()) == Map::<
                        Seq<char>,
                        u64,
                    >::empty());
                    assert(assoc_map(vars@) =~= Map::<Seq<char>, u64>::empty().insert(n@, 1u64));
                },
                None => {
                    assert(assoc_map(vars@) =~= Map::<Seq<char>, u64>::empty());
                },
            }
            assert(distinct_keys(vars@));
        }
        let d = AddrData { occurrences: 1, name_variants: vars };
        self.absorb_entry(addr, d);
        proof {
            let s = stats_of(old(self)@, rec0.addr@);
            let dv = data_view(d);
            match rec0.display_name {
                Some(n) => {
                    assert(dv.name_variants =~= Map::<Seq<char>, u64>::empty().insert(n@, 1u64));
                    assert(merge_counts(s.name_variants, dv.name_variants) =~= bump_count(
                        s.name_variants,
                        n@,
                        1,
                    ));
                },
                None => {
                    assert(dv.name_variants =~= Map::<Seq<char>, u64>::empty());
                    lemma_counts_right_identity(s.name_variants);
                },
            }
            assert(merge_stats(s, dv) =~~= spec_add_record(old(self)@, rec0)[rec0.addr@]);
            assert(final(self)@ =~= spec_add_record(old(self)@, rec0));
        }
    }

    /// Merges another collection into this one; the other collection is
    /// consumed.  The result is the pointwise combination of the two.
    pub fn merge(&mut self, other: AddrCollection)
        requires
            old(self).wf(),
            other.wf(),
        ensures
            final(self).wf(),
            final(self)@ == spec_merge(old(self)@, other@),
    {
        let AddrCollection { addrs: mut rest } = other;
        let ghost goal = spec_merge(old(self)@, stats_map(rest@));
        while rest.len() > 0
            invariant
                self.wf(),
                distinct_keys(rest@),
                forall|i: int|
                    0 <= i < rest@.len() ==> distinct_keys((#[trigger] rest@[i]).1.name_variants@),
                spec_merge(self@, stats_map(rest@)) == goal,
            decreases rest@.len(),
        {
            let ghost rest_pre = rest@;
            let (k, d) = rest.pop().unwrap();
            proof {
                assert(rest@ =~= rest_pre.drop_last());
                lemma_stats_map_absent(rest@, k@);
                assert(stats_map(rest_pre) == stats_map(rest@).insert(k@, data_view(d)));
                lemma_merge_absorb(self@, stats_map(rest@), k@, data_view(d));
            }
            self.absorb_entry(k, d);
        }
        proof {
            lemma_merge_identity(self@);
            assert(stats_map(rest@) =~= Map::<Seq<char>, AddrStats>::empty());
        }
    }
}

/// `name` is a most frequent display-name variant, or the empty text when no
/// variant was ever recorded.
pub open spec fn best_name(variants: Map<Seq<char>, u64>, name: Seq<char>) -> bool {
    if variants.dom() == Set::<Seq<char>>::empty() {
        name == Seq::<char>::empty()
    } else {
        &&& variants.contains_key(name)
        &&& forall|k: Seq<char>| #[trigger] variants.contains_key(k) ==> variants[k]
            <= variants[name]
    }
}

/// One report line correctly describes one collected address: its occurrence
/// count and a most frequent display-name variant.
pub open spec fn line_ok(m: Map<Seq<char>, AddrStats>, e: (String, String, u64)) -> bool {
    &&& m.contains_key(e.0@)
    &&& e.2 == m[e.0@].occurrences
    &&& best_name(m[e.0@].name_variants, e.1@)
}

proof fn lemma_assoc_index_of<V>(entries: Seq<(String, V)>, k: Seq<char>)
    requires
        assoc_map(entries).contains_key(k),
    ensures
        exists|j: int|
            0 <= j < entries.len() && (#[trigger] entries[j]).0@ == k && entries[j].1 == assoc_map(
                entries,
            )[k],
    decreases entries.len(),
{
    if entries.len() > 0 {
        if entries.last().0@ == k {
            assert((entries[entries.len() - 1]).0@ == k && entries[entries.len() - 1].1
                == assoc_map(entries)[k]);
        } else {
            lemma_assoc_index_of(entries.drop_last(), k);
            let j = choose|j: int|
                0 <= j < entries.drop_last().len() && (#[trigger] entries.drop_last()[j]).0@ == k
                    && entries.drop_last()[j].1 == assoc_map(entries.drop_last())[k];
            assert((entries[j]).0@ == k && entries[j].1 == assoc_map(entries)[k]);
        }
    }
}

proof fn lemma_stats_map_index_of(entries: Seq<(String, AddrData)>, k: Seq<char>)
    requires
        stats_map(entries).contains_key(k),
    ensures
        exists|j: int| 0 <= j < entries.len() && (#[trigger] entries[j]).0@ == k,
    decreases entries.len(),
{
    if entries.len() > 0 {
        if entries.last().0@ == k {
            assert((entries[entries.len() - 1]).0@ == k);
        } else {
            lemma_stats_map_index_of(entries.drop_last(), k);
            let j = choose|j: int|
                0 <= j < entries.drop_last().len() && (#[trigger] entries.drop_last()[j]).0@ == k;
            assert((entries[j]).0@ == k);
        }
    }
}

/// Picks a name whose count is maximal, or the empty text if there is none.
fn best_variant(variants: &Vec<(String, u64)>) -> (r: String)
    requires
        distinct_keys(variants@),
    ensures
        best_name(assoc_map(variants@), r@),
{
    let ghost amap = assoc_map(variants@);
    if variants.len() == 0 {
        let r = String::new();
        proof {
            assert(amap.dom() =~= Set::<Seq<char>>::empty());
        }
        return r;
    }
    let mut bi: usize = 0;
    let mut j: usize = 1;
    let n = variants.len();
    while j < n
        invariant
            n == variants@.len(),
            bi < n,
            1 <= j <= n,
            forall|t: int| 0 <= t < j ==> (#[trigger] variants@[t]).1 <= variants@[bi as int].1,
        decreases n - j,
    {
        if variants[j].1 > variants[bi].1 {
            bi = j;
        }
        j = j + 1;
    }
    let r = variants[bi].0.clone();
    proof {
        lemma_assoc_lookup(variants@, bi as int);
        assert(amap.contains_key(r@));
        assert(amap.dom() != Set::<Seq<char>>::empty()) by {
            assert(amap.dom().contains(r@));
        }
        assert forall|k: Seq<char>| #[trigger] amap.contains_key(k) implies amap[k]
            <= amap[r@] by {
            lemma_assoc_index_of(variants@, k);
            let t = choose|t: int|
                0 <= t < variants@.len() && (#[trigger] variants@[t]).0@ == k && variants@[t].1
                    == amap[k];
            assert(variants@[t].1 <= variants@[bi as int].1);
        }
    }
    r
}

impl AddrCollection {
    /// The final report: one line per collected address, holding the address,
    /// a most frequent display-name variant (empty when no variant was ever
    /// seen) and the occurrence count, listed by falling occurrence count.
    pub fn report(&self) -> (r: Vec<(String, String, u64)>)
        requires
            self.wf(),
        ensures
            forall|i: int| 0 <= i < r@.len() ==> line_ok(self@, #[trigger] r@[i]),
            forall|i: int, j: int|
                0 <= i < j < r@.len() ==> (#[trigger] r@[i]).0@ != (#[trigger] r@[j]).0@,
            forall|i: int, j: int|
                0 <= i < j < r@.len() ==> (#[trigger] r@[i]).2 >= (#[trigger] r@[j]).2,
            forall|k: Seq<char>|
                self@.contains_key(k) ==> exists|i: int|
                    0 <= i < r@.len() && (#[trigger] r@[i]).0@ == k,
    {
        let mut rest: Vec<(String, String, u64)> = Vec::new();
        let mut i: usize = 0;
        let n = self.addrs.len();
        while i < n
            invariant
                self.wf(),
                n == self.addrs@.len(),
                i <= n,
                rest@.len() == i,
                forall|t: int|
                    0 <= t < i ==> (#[trigger] rest@[t]).0@ == self.addrs@[t].0@,
                forall|t: int| 0 <= t < i ==> line_ok(self@, #[trigger] rest@[t]),
            decreases n - i,
        {
            proof {
                lemma_stats_map_lookup(self.addrs@, i as int);
            }
            let name = best_variant(&self.addrs[i].1.name_variants);
            let key = self.addrs[i].0.clone();
            let cnt = self.addrs[i].1.occurrences;
            rest.push((key, name, cnt));
            i = i + 1;
        }
        proof {
            assert forall|k: Seq<char>| self@.contains_key(k) implies exists|t: int|
                0 <= t < rest@.len() && (#[trigger] rest@[t]).0@ == k by {
                lemma_stats_map_index_of(self.addrs@, k);
                let j = choose|j: int| 0 <= j < self.addrs@.len() && (#[trigger] self.addrs@[j]).0@
                    == k;
                assert(rest@[j].0@ == k);
            }
        }
        let mut out: Vec<(String, String, u64)> = Vec::new();
        while rest.len() > 0
            invariant
                self.wf(),
                forall|t: int| 0 <= t < out@.len() ==> line_ok(self@, #[trigger] out@[t]),
                forall|t: int| 0 <= t < rest@.len() ==> line_ok(self@, #[trigger] rest@[t]),
                forall|a: int, b: int|
                    0 <= a < b < out@.len() ==> (#[trigger] out@[a]).0@ != (#[trigger] out@[b]).0@,
                forall|a: int, b: int|
                    0 <= a < b < rest@.len() ==> (#[trigger] rest@[a]).0@ != (
                    #[trigger] rest@[b]).0@,
                forall|a: int, b: int|
                    0 <= a < out@.len() && 0 <= b < rest@.len() ==> (#[trigger] out@[a]).0@ != (
                    #[trigger] rest@[b]).0@,
                forall|a: int, b: int|
                    0 <= a < b < out@.len() ==> (#[trigger] out@[a]).2 >= (#[trigger] out@[b]).2,
                forall|a: int, b: int|
                    0 <= a < out@.len() && 0 <= b < rest@.len() ==> (#[trigger] out@[a]).2 >= (
                    #[trigger] rest@[b]).2,
                forall|k: Seq<char>|
                    self@.contains_key(k) ==> (exists|t: int|
                        0 <= t < out@.len() && (#[trigger] out@[t]).0@ == k) || (exists|t: int|
                        0 <= t < rest@.len() && (#[trigger] rest@[t]).0@ == k),
            decreases rest@.len(),
        {
            let mut bi: usize = 0;
            let mut j: usize = 1;
            let m = rest.len();
            while j < m
                invariant
                    m == rest@.len(),
                    bi < m,
                    1 <= j <= m,
                    forall|t: int| 0 <= t < j ==> (#[trigger] rest@[t]).2 <= rest@[bi as int].2,
                decreases m - j,
            {
                if rest[j].2 > rest[bi].2 {
                    bi = j;
                }
                j = j + 1;
            }
            let ghost rest_pre = rest@;
            let ghost out_pre = out@;
            let e = rest.remove(bi);
            out.push(e);
            proof {
                assert forall|t: int| 0 <= t < rest@.len() implies #[trigger] rest@[t]
                    == (if t < bi as int {
                    rest_pre[t]
                } else {
                    rest_pre[t + 1]
                }) by {
                    assert(rest@ == rest_pre.remove(bi as int));
                }
                assert forall|k: Seq<char>| self@.contains_key(k) implies (exists|t: int|
                    0 <= t < out@.len() && (#[trigger] out@[t]).0@ == k) || (exists|t: int|
                    0 <= t < rest@.len() && (#[trigger] rest@[t]).0@ == k) by {
                    if exists|t: int| 0 <= t < out_pre.len() && (#[trigger] out_pre[t]).0@ == k {
                        let t = choose|t: int|
                            0 <= t < out_pre.len() && (#[trigger] out_pre[t]).0@ == k;
                        assert(out@[t].0@ == k);
                    } else {
                        let t = choose|t: int|
                            0 <= t < rest_pre.len() && (#[trigger] rest_pre[t]).0@ == k;
                        if t == bi as int {
                            assert(out@[out@.len() - 1].0@ == k);
                        } else if t < bi as int {
                            assert(rest@[t].0@ == k);
                        } else {
                            assert(rest@[t - 1].0@ == k);
                        }
                    }
                }
            }
        }
        out
    }
}

/// Absorbing one key of `b` into `a` and removing it from `b` leaves the
/// merged result unchanged; `k` must be absent from `b` already (the entry
/// being absorbed was taken out of `b` beforehand).
proof fn lemma_merge_absorb(
    a: Map<Seq<char>, AddrStats>,
    b: Map<Seq<char>, AddrStats>,
    k: Seq<char>,
    d: AddrStats,
)
    requires
        !b.contains_key(k),
    ensures
        spec_merge(a.insert(k, merge_stats(stats_of(a, k), d)), b) == spec_merge(
            a,
            b.insert(k, d),
        ),
{
    let lhs = spec_merge(a.insert(k, merge_stats(stats_of(a, k), d)), b);
    let rhs = spec_merge(a, b.insert(k, d));
    assert forall|q: Seq<char>| lhs.contains_key(q) implies lhs[q] == rhs[q] by {
        if q == k {
            lemma_stats_right_identity(merge_stats(stats_of(a, k), d));
        }
    }
    assert(lhs =~= rhs);
}

/// Bumping `a` by one count taken out of `b` leaves the pointwise sum
/// unchanged; the count's key must be absent from the remaining `b`.
proof fn lemma_counts_absorb(a: Map<Seq<char>, u64>, b: Map<Seq<char>, u64>, k: Seq<char>, c: u64)
    requires
        !b.contains_key(k),
    ensures
        merge_counts(bump_count(a, k, c), b) == merge_counts(a, b.insert(k, c)),
{
    assert(merge_counts(bump_count(a, k, c), b) =~= merge_counts(a, b.insert(k, c)));
}

/// Summing with the empty count map changes nothing.
proof fn lemma_counts_right_identity(a: Map<Seq<char>, u64>)
    ensures
        merge_counts(a, Map::empty()) == a,
{
    assert(merge_counts(a, Map::empty()) =~= a);
}

} // verus!
