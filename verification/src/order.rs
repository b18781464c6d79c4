//! The order of the log: entries sorted by the text of their stamps.

use vstd::prelude::*;
use vstd::string::*;
use vstd::utf8::encode_utf8;

use crate::types::{dated_view, DatedEntry, EntryView};

verus! {

/// Dictionary order on byte strings.
pub open spec fn bytes_le(a: Seq<u8>, b: Seq<u8>) -> bool
    decreases a.len(),
{
    if a.len() == 0 {
        true
    } else if b.len() == 0 {
        false
    } else if a[0] != b[0] {
        a[0] < b[0]
    } else {
        bytes_le(a.skip(1), b.skip(1))
    }
}

/// The order of texts: that of their UTF-8 bytes.
pub open spec fn text_le(a: Seq<char>, b: Seq<char>) -> bool {
    bytes_le(encode_utf8(a), encode_utf8(b))
}

/// No entry is followed by one with a smaller stamp.
pub open spec fn sorted(log: Seq<EntryView>) -> bool {
    forall|i: int, j: int|
        0 <= i <= j < log.len() ==> text_le(
            #[trigger] log[i].timestamp,
            #[trigger] log[j].timestamp,
        )
}

/// The entries that carry the stamp `t`, in order.
pub open spec fn stamped(log: Seq<EntryView>, t: Seq<char>) -> Seq<EntryView> {
    log.filter(|e: EntryView| e.timestamp == t)
}

/// `after` holds the entries of `before` in ascending order of their stamps, and those with
/// one and the same stamp in the order that they had.
pub open spec fn stable_sort_of(before: Seq<EntryView>, after: Seq<EntryView>) -> bool {
    &&& sorted(after)
    &&& forall|t: Seq<char>| #[trigger] stamped(after, t) == stamped(before, t)
}

proof fn lemma_bytes_total(a: Seq<u8>, b: Seq<u8>)
    ensures
        bytes_le(a, b) || bytes_le(b, a),
    decreases a.len(),
{
    if a.len() > 0 && b.len() > 0 && a[0] == b[0] {
        lemma_bytes_total(a.skip(1), b.skip(1));
    }
}

proof fn lemma_bytes_transitive(a: Seq<u8>, b: Seq<u8>, c: Seq<u8>)
    requires
        bytes_le(a, b),
        bytes_le(b, c),
    ensures
        bytes_le(a, c),
    decreases a.len(),
{
    if a.len() > 0 && b.len() > 0 && c.len() > 0 && a[0] == b[0] && b[0] == c[0] {
        lemma_bytes_transitive(a.skip(1), b.skip(1), c.skip(1));
    }
}

proof fn lemma_bytes_antisymmetric(a: Seq<u8>, b: Seq<u8>)
    requires
        bytes_le(a, b),
        bytes_le(b, a),
    ensures
        a == b,
    decreases a.len(),
{
    if a.len() > 0 && b.len() > 0 {
        lemma_bytes_antisymmetric(a.skip(1), b.skip(1));
        assert(a =~= seq![a[0]] + a.skip(1));
        assert(b =~= seq![b[0]] + b.skip(1));
    } else {
        assert(a =~= b);
    }
}

/// The order of texts is a total order.
pub proof fn law_text_order(a: Seq<char>, b: Seq<char>, c: Seq<char>)
    ensures
        text_le(a, b) || text_le(b, a),
        text_le(a, b) && text_le(b, c) ==> text_le(a, c),
        text_le(a, b) && text_le(b, a) ==> a == b,
{
    let (x, y, z) = (encode_utf8(a), encode_utf8(b), encode_utf8(c));
    lemma_bytes_total(x, y);
    if bytes_le(x, y) && bytes_le(y, z) {
        lemma_bytes_transitive(x, y, z);
    }
    if bytes_le(x, y) && bytes_le(y, x) {
        lemma_bytes_antisymmetric(x, y);
        vstd::utf8::encode_utf8_decode_utf8(a);
        vstd::utf8::encode_utf8_decode_utf8(b);
    }
}

/// Compares two texts.
pub fn text_at_most(a: &str, b: &str) -> (le: bool)
    ensures
        le == text_le(a@, b@),
{
    let x = a.as_bytes();
    let y = b.as_bytes();
    let mut i: usize = 0;
    assert(x@.skip(0) =~= x@);
    assert(y@.skip(0) =~= y@);
    while i < x.len() && i < y.len() && x[i] == y[i]
        invariant
            i <= x@.len(),
            i <= y@.len(),
            bytes_le(x@, y@) == bytes_le(x@.skip(i as int), y@.skip(i as int)),
        decreases x@.len() - i,
    {
        assert(x@.skip(i as int).skip(1) =~= x@.skip(i + 1));
        assert(y@.skip(i as int).skip(1) =~= y@.skip(i + 1));
        i = i + 1;
    }
    i == x.len() || (i < y.len() && x[i] < y[i])
}

proof fn lemma_stamped_one(e: EntryView, t: Seq<char>)
    ensures
        stamped(seq![e], t) == if e.timestamp == t {
            seq![e]
        } else {
            Seq::<EntryView>::empty()
        },
{
    reveal_with_fuel(Seq::filter, 2);
    assert(seq![e].drop_last() =~= Seq::<EntryView>::empty());
    assert(seq![e].last() == e);
    assert(stamped(seq![e], t) =~= if e.timestamp == t {
        seq![e]
    } else {
        Seq::<EntryView>::empty()
    });
}

pub proof fn lemma_stamped_add(a: Seq<EntryView>, b: Seq<EntryView>, t: Seq<char>)
    ensures
        stamped(a + b, t) == stamped(a, t) + stamped(b, t),
{
    Seq::filter_distributes_over_add(a, b, |e: EntryView| e.timestamp == t);
}

proof fn lemma_stamped_none(a: Seq<EntryView>, t: Seq<char>)
    requires
        forall|i: int| 0 <= i < a.len() ==> (#[trigger] a[i]).timestamp != t,
    ensures
        stamped(a, t) == Seq::<EntryView>::empty(),
{
    a.lemma_all_neg_filter_empty(|e: EntryView| e.timestamp == t);
    assert(stamped(a, t) =~= Seq::<EntryView>::empty());
}

/// Putting an entry in front of a run, and into its sorted counterpart before the first
/// entry that is not smaller.
proof fn lemma_insert(before: Seq<EntryView>, after: Seq<EntryView>, e: EntryView, p: int)
    requires
        stable_sort_of(before, after),
        0 <= p <= after.len(),
        forall|i: int| 0 <= i < p ==> !text_le(e.timestamp, (#[trigger] after[i]).timestamp),
        p < after.len() ==> text_le(e.timestamp, after[p].timestamp),
    ensures
        stable_sort_of(seq![e] + before, after.insert(p, e)),
{
    let new = after.insert(p, e);
    assert(new =~= after.take(p) + (seq![e] + after.skip(p)));
    assert(after =~= after.take(p) + after.skip(p));
    assert forall|t: Seq<char>| #[trigger] stamped(new, t) == stamped(seq![e] + before, t) by {
        lemma_stamped_add(after.take(p), seq![e] + after.skip(p), t);
        lemma_stamped_add(seq![e], after.skip(p), t);
        lemma_stamped_add(after.take(p), after.skip(p), t);
        lemma_stamped_add(seq![e], before, t);
        lemma_stamped_one(e, t);
        assert(stamped(after, t) == stamped(before, t));
        if e.timestamp == t {
            assert forall|i: int| 0 <= i < after.take(p).len() implies (#[trigger] after.take(
                p,
            )[i]).timestamp != t by {
                assert(!text_le(e.timestamp, after[i].timestamp));
                law_text_order(t, t, t);
            }
            lemma_stamped_none(after.take(p), t);
        }
        assert(stamped(new, t) =~= stamped(seq![e] + before, t));
    }
    assert forall|i: int, j: int| 0 <= i <= j < new.len() implies text_le(
        #[trigger] new[i].timestamp,
        #[trigger] new[j].timestamp,
    ) by {
        if j == p {
            law_text_order(new[i].timestamp, e.timestamp, e.timestamp);
            if i < p {
                assert(new[i] == after[i]);
            }
        } else if i == p {
            assert(new[j] == after[j - 1]);
            assert(text_le(after[p].timestamp, after[j - 1].timestamp));
            law_text_order(e.timestamp, after[p].timestamp, new[j].timestamp);
        } else {
            let x = if i < p { i } else { i - 1 };
            let y = if j < p { j } else { j - 1 };
            assert(new[i] == after[x]);
            assert(new[j] == after[y]);
        }
    }
}

/// Sorts the log by the text of the stamps; the sort is stable.
pub fn sort_by_stamp(log: &mut Vec<DatedEntry>)
    ensures
        stable_sort_of(dated_view(old(log)@), dated_view(final(log)@)),
{
    let mut done: Vec<DatedEntry> = Vec::new();
    let ghost start = dated_view(log@);
    assert(start.skip(start.len() as int) =~= Seq::<EntryView>::empty());
    assert(dated_view(done@) =~= Seq::<EntryView>::empty());
    loop
        invariant
            log@.len() <= start.len(),
            dated_view(log@) == start.take(log@.len() as int),
            stable_sort_of(start.skip(log@.len() as int), dated_view(done@)),
        ensures
            stable_sort_of(start, dated_view(done@)),
        decreases log@.len(),
    {
        let ghost n = log@.len() as int;
        match log.pop() {
            None => {
                assert(start.skip(0) =~= start);
                break;
            },
            Some(entry) => {
                let mut p: usize = 0;
                while p < done.len() && !text_at_most(
                    &entry.entry.timestamp,
                    &done[p].entry.timestamp,
                )
                    invariant
                        p <= done@.len(),
                        forall|i: int|
                            0 <= i < p ==> !text_le(
                                entry@.timestamp,
                                (#[trigger] dated_view(done@)[i]).timestamp,
                            ),
                    decreases done@.len() - p,
                {
                    p = p + 1;
                }
                proof {
                    assert(start.take(n)[n - 1] == entry@);
                    assert(start.skip(n - 1) =~= seq![entry@] + start.skip(n));
                    assert(dated_view(log@) =~= start.take(n - 1));
                    lemma_insert(start.skip(n), dated_view(done@), entry@, p as int);
                    assert(dated_view(done@.insert(p as int, entry)) =~= dated_view(done@).insert(
                        p as int,
                        entry@,
                    ));
                }
                done.insert(p, entry);
            },
        }
    }
    *log = done;
}

/// An entry is in the sorted log exactly as often as in the unsorted one.
pub proof fn law_sort_permutes(before: Seq<EntryView>, after: Seq<EntryView>)
    requires
        stable_sort_of(before, after),
    ensures
        after.to_multiset() == before.to_multiset(),
{
    assert forall|e: EntryView|
        #[trigger] after.to_multiset().count(e) == before.to_multiset().count(e) by {
        lemma_stamped_count(after, e);
        lemma_stamped_count(before, e);
        assert(stamped(after, e.timestamp) == stamped(before, e.timestamp));
    }
    assert(after.to_multiset() =~= before.to_multiset());
}

proof fn lemma_stamped_count(log: Seq<EntryView>, e: EntryView)
    ensures
        log.to_multiset().count(e) == stamped(log, e.timestamp).to_multiset().count(e),
    decreases log.len(),
{
    broadcast use vstd::seq_lib::group_to_multiset_ensures;

    reveal(Seq::filter);
    if log.len() > 0 {
        lemma_stamped_count(log.drop_last(), e);
        assert(log =~= log.drop_last().push(log.last()));
    } else {
        assert(stamped(log, e.timestamp) =~= log);
    }
}

/// A log has one sorted counterpart only.
pub proof fn law_sort_is_unique(before: Seq<EntryView>, a: Seq<EntryView>, b: Seq<EntryView>)
    requires
        stable_sort_of(before, a),
        stable_sort_of(before, b),
    ensures
        a == b,
{
    assert forall|t: Seq<char>| #[trigger] stamped(a, t) == stamped(b, t) by {
        assert(stamped(b, t) == stamped(before, t));
    }
    lemma_same_sorted(a, b);
}

/// An entry's own stamp selects it.
proof fn lemma_stamped_contains(log: Seq<EntryView>, t: Seq<char>)
    requires
        stamped(log, t).len() > 0,
    ensures
        exists|i: int| 0 <= i < log.len() && (#[trigger] log[i]).timestamp == t,
{
    if forall|i: int| 0 <= i < log.len() ==> (#[trigger] log[i]).timestamp != t {
        lemma_stamped_none(log, t);
    }
}

proof fn lemma_stamped_last(log: Seq<EntryView>, t: Seq<char>)
    requires
        log.len() > 0,
    ensures
        log.last().timestamp == t ==> stamped(log, t) == stamped(log.drop_last(), t).push(
            log.last(),
        ),
        log.last().timestamp != t ==> stamped(log, t) == stamped(log.drop_last(), t),
{
    reveal(Seq::filter);
}

proof fn lemma_same_sorted(a: Seq<EntryView>, b: Seq<EntryView>)
    requires
        sorted(a),
        sorted(b),
        forall|t: Seq<char>| #[trigger] stamped(a, t) == stamped(b, t),
    ensures
        a == b,
    decreases a.len(),
{
    if a.len() == 0 {
        if b.len() > 0 {
            let t = b.last().timestamp;
            lemma_stamped_last(b, t);
            lemma_stamped_none(a, t);
            assert(stamped(a, t) == stamped(b, t));
        }
        assert(a =~= b);
    } else {
        let t = a.last().timestamp;
        lemma_stamped_last(a, t);
        assert(stamped(a, t) == stamped(b, t));
        lemma_stamped_contains(b, t);
        let i = choose|i: int| 0 <= i < b.len() && (#[trigger] b[i]).timestamp == t;
        let u = b.last().timestamp;
        assert(text_le(b[i].timestamp, b[b.len() - 1].timestamp));
        lemma_stamped_last(b, u);
        assert(stamped(a, u) == stamped(b, u));
        lemma_stamped_contains(a, u);
        let j = choose|j: int| 0 <= j < a.len() && (#[trigger] a[j]).timestamp == u;
        assert(text_le(a[j].timestamp, a[a.len() - 1].timestamp));
        law_text_order(t, u, t);
        assert(a.last() == stamped(a, t).last());
        assert(b.last() == stamped(b, t).last());
        let (c, d) = (a.drop_last(), b.drop_last());
        assert forall|v: Seq<char>| #[trigger] stamped(c, v) == stamped(d, v) by {
            lemma_stamped_last(a, v);
            lemma_stamped_last(b, v);
            assert(stamped(a, v) == stamped(b, v));
            if v == t {
                assert(stamped(c, v) =~= stamped(a, v).drop_last());
                assert(stamped(d, v) =~= stamped(b, v).drop_last());
            }
        }
        assert forall|x: int, y: int| 0 <= x <= y < c.len() implies text_le(
            #[trigger] c[x].timestamp,
            #[trigger] c[y].timestamp,
        ) by {
            assert(text_le(a[x].timestamp, a[y].timestamp));
        }
        assert forall|x: int, y: int| 0 <= x <= y < d.len() implies text_le(
            #[trigger] d[x].timestamp,
            #[trigger] d[y].timestamp,
        ) by {
            assert(text_le(b[x].timestamp, b[y].timestamp));
        }
        lemma_same_sorted(c, d);
        assert(a =~= c.push(a.last()));
        assert(b =~= d.push(b.last()));
    }
}

} // verus!
