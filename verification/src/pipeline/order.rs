use vstd::prelude::*;

use crate::manager::event::lemma_filter_keeps_order;

verus! {

/// A boundary awaiting work, keyed by its depth and then its id.
pub type DepthEntry = (usize, u64);

/// Whether `a` comes strictly before `b`: shallower first, and by id among equal depths.
pub open spec fn entry_before(a: DepthEntry, b: DepthEntry) -> bool {
    a.0 < b.0 || (a.0 == b.0 && a.1 < b.1)
}

/// Whether the entries run strictly rootmost-first, with no entry repeated.
pub open spec fn rootmost_first(s: Seq<DepthEntry>) -> bool {
    forall|i: int, j: int| 0 <= i < j < s.len() ==> entry_before(#[trigger] s[i], #[trigger] s[j])
}

/// The ids of a run of entries, in order.
pub open spec fn entry_ids(s: Seq<DepthEntry>) -> Seq<u64> {
    s.map_values(|e: DepthEntry| e.1)
}

fn before(a: DepthEntry, b: DepthEntry) -> (r: bool)
    ensures
        r == entry_before(a, b),
{
    a.0 < b.0 || (a.0 == b.0 && a.1 < b.1)
}

/// Adds `entry` to a rootmost-first run at the place that keeps it rootmost-first, leaving the
/// run as it is when the entry is already there.
pub fn insert_rootmost_first(run: &mut Vec<DepthEntry>, entry: DepthEntry)
    requires
        rootmost_first(old(run)@),
    ensures
        rootmost_first(final(run)@),
        final(run)@.to_set() == old(run)@.to_set().insert(entry),
{
    let mut pos: usize = 0;
    while pos < run.len() && before(run[pos], entry)
        invariant
            pos <= run.len(),
            forall|k: int| 0 <= k < pos ==> entry_before(#[trigger] run@[k], entry),
        decreases run.len() - pos,
    {
        pos = pos + 1;
    }
    if pos < run.len() && run[pos].0 == entry.0 && run[pos].1 == entry.1 {
        assert(run@.contains(entry));
        assert(run@.to_set() =~= run@.to_set().insert(entry));
        return;
    }
    let ghost before_insert = run@;
    proof {
        assert forall|k: int| pos <= k < before_insert.len() implies entry_before(
            entry,
            #[trigger] before_insert[k],
        ) by {
            assert(!entry_before(before_insert[pos as int], entry));
            assert(before_insert[pos as int] != entry);
            if k > pos {
                assert(entry_before(before_insert[pos as int], before_insert[k]));
            }
        }
    }
    run.insert(pos, entry);
    proof {
        before_insert.insert_ensures(pos as int, entry);
        assert forall|i: int, j: int| 0 <= i < j < run@.len() implies entry_before(
            #[trigger] run@[i],
            #[trigger] run@[j],
        ) by {
            if j < pos {
            } else if j == pos {
            } else if i < pos {
                assert(run@[j] == before_insert[j - 1]);
                assert(entry_before(entry, before_insert[j - 1]));
            } else if i == pos {
            } else {
                assert(run@[i] == before_insert[i - 1]);
                assert(run@[j] == before_insert[j - 1]);
            }
        }
        assert forall|x: DepthEntry| run@.to_set().contains(x) == before_insert.to_set().insert(
            entry,
        ).contains(x) by {
            if run@.to_set().contains(x) {
                let i = choose|i: int| 0 <= i < run@.len() && run@[i] == x;
                if i < pos {
                    assert(before_insert[i] == x);
                } else if i > pos {
                    assert(before_insert[i - 1] == x);
                }
            }
            if before_insert.to_set().contains(x) {
                let i = choose|i: int| 0 <= i < before_insert.len() && before_insert[i] == x;
                if i < pos {
                    assert(run@[i] == x);
                } else {
                    assert(run@[i + 1] == x);
                }
            }
            if x == entry {
                assert(run@[pos as int] == x);
            }
        }
        assert(run@.to_set() =~= before_insert.to_set().insert(entry));
    }
}

/// The ids of a rootmost-first run, in order.
pub fn ids_of(run: &Vec<DepthEntry>) -> (ids: Vec<u64>)
    ensures
        ids@ == entry_ids(run@),
{
    let mut ids: Vec<u64> = Vec::new();
    let mut i: usize = 0;
    while i < run.len()
        invariant
            i <= run.len(),
            ids@ == entry_ids(run@.subrange(0, i as int)),
        decreases run.len() - i,
    {
        ids.push(run[i].1);
        i = i + 1;
        assert(entry_ids(run@.subrange(0, i as int)) =~= entry_ids(
            run@.subrange(0, i - 1 as int),
        ).push(run@[i - 1].1));
    }
    assert(run@.subrange(0, i as int) =~= run@);
    ids
}

/// Sorts `entries` rootmost-first, keeping one copy of each entry.
pub fn sort_rootmost_first(entries: &Vec<DepthEntry>) -> (run: Vec<DepthEntry>)
    ensures
        rootmost_first(run@),
        run@.to_set() == entries@.to_set(),
{
    let mut run: Vec<DepthEntry> = Vec::new();
    let mut i: usize = 0;
    while i < entries.len()
        invariant
            i <= entries.len(),
            rootmost_first(run@),
            run@.to_set() == entries@.subrange(0, i as int).to_set(),
        decreases entries.len() - i,
    {
        insert_rootmost_first(&mut run, entries[i]);
        proof {
            assert(entries@.subrange(0, i + 1 as int) =~= entries@.subrange(0, i as int).push(
                entries@[i as int],
            ));
            entries@.subrange(0, i as int).lemma_push_to_set_commute(entries@[i as int]);
            assert(entries@.subrange(0, i as int).push(entries@[i as int]).to_set() =~= entries@.subrange(
                0,
                i as int,
            ).to_set().insert(entries@[i as int]));
        }
        i = i + 1;
    }
    assert(entries@.subrange(0, i as int) =~= entries@);
    run
}

/// In a rootmost-first run whose depths are a function of the ids, no id is repeated.
pub proof fn lemma_rootmost_first_ids_distinct(run: Seq<DepthEntry>, depth: spec_fn(u64) -> usize)
    requires
        rootmost_first(run),
        forall|k: int| 0 <= k < run.len() ==> (#[trigger] run[k]).0 == depth(run[k].1),
    ensures
        entry_ids(run).no_duplicates(),
{
    assert forall|a: int, b: int| 0 <= a < b < entry_ids(run).len() implies entry_ids(run)[a]
        != entry_ids(run)[b] by {
        assert(entry_before(run[a], run[b]));
        assert(run[a].0 == depth(run[a].1));
        assert(run[b].0 == depth(run[b].1));
    }
}

/// Filtering a sequence without repeats keeps it without repeats.
pub proof fn lemma_filter_distinct<A>(s: Seq<A>, p: spec_fn(A) -> bool)
    requires
        s.no_duplicates(),
    ensures
        s.filter(p).no_duplicates(),
{
    let f = s.filter(p);
    assert forall|a: int, b: int| 0 <= a < f.len() && 0 <= b < f.len() && a != b implies f[a]
        != f[b] by {
        let (x, y) = if a < b { (a, b) } else { (b, a) };
        lemma_filter_keeps_order(s, p, x, y);
    }
}

/// An element is in a filtered sequence exactly when it is in the sequence and passes.
pub proof fn lemma_filter_membership<A>(s: Seq<A>, p: spec_fn(A) -> bool, x: A)
    ensures
        s.filter(p).contains(x) <==> s.contains(x) && p(x),
{
    s.filter_lemma(p);
    if s.filter(p).contains(x) {
        s.lemma_filter_contains_rev(p, x);
        let k = choose|k: int| 0 <= k < s.filter(p).len() && s.filter(p)[k] == x;
        assert(p(s.filter(p)[k]));
    }
    if s.contains(x) && p(x) {
        let k = choose|k: int| 0 <= k < s.len() && s[k] == x;
        s.lemma_filter_contains(p, k);
    }
}

/// Extending a prefix by one element extends its filter by that element when it passes.
pub proof fn lemma_filter_take_step<A>(s: Seq<A>, p: spec_fn(A) -> bool, i: int)
    requires
        0 <= i < s.len(),
    ensures
        s.take(i + 1).filter(p) == (if p(s[i]) {
            s.take(i).filter(p).push(s[i])
        } else {
            s.take(i).filter(p)
        }),
{
    assert(s.take(i + 1) =~= s.take(i).push(s[i]));
    s.take(i).lemma_filter_push(s[i], p);
}

} // verus!
