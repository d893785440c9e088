//! What the store holds after a run of fragments has arrived, and why the
//! order of arrival does not matter.

use crate::assembler::raw_payload;
use crate::labels::FragmentView;
use crate::store::{upserted, TransferView};
use vstd::prelude::*;

verus! {

/// A fragment together with the time at which it arrives.
pub struct Arrival {
    pub fragment: FragmentView,
    pub at: u64,
}

/// The fragments of a run of arrivals, in the order of arrival.
pub open spec fn fragments_of(arrivals: Seq<Arrival>) -> Seq<FragmentView> {
    arrivals.map_values(|a: Arrival| a.fragment)
}

/// The table after the arrivals have been taken in one by one, each as
/// `upsert_fragment` takes it in.
pub open spec fn delivered(table: Map<Seq<char>, TransferView>, arrivals: Seq<Arrival>) -> Map<
    Seq<char>,
    TransferView,
>
    decreases arrivals.len(),
{
    if arrivals.len() == 0 {
        table
    } else {
        let last = arrivals.last();
        upserted(
            delivered(table, arrivals.drop_last()),
            last.fragment.id,
            last.fragment.sequence,
            last.fragment.text,
            last.at,
        )
    }
}

/// The fragments that the table holds for `id`; none if the id is unknown.
pub open spec fn known_fragments(table: Map<Seq<char>, TransferView>, id: Seq<char>) -> Map<
    u32,
    Seq<char>,
> {
    if table.contains_key(id) {
        table[id].fragments
    } else {
        Map::empty()
    }
}

/// No two of the fragments claim the same place in the same transfer with
/// different text.
pub open spec fn consistent(fragments: Seq<FragmentView>) -> bool {
    forall|i: int, j: int|
        0 <= i < fragments.len() && 0 <= j < fragments.len() && (#[trigger] fragments[i]).id == (
        #[trigger] fragments[j]).id && fragments[i].sequence == fragments[j].sequence
            ==> fragments[i].text == fragments[j].text
}

/// Fragment `i` belongs to transfer `id`.
pub open spec fn mentions(fragments: Seq<FragmentView>, i: int, id: Seq<char>) -> bool {
    0 <= i < fragments.len() && fragments[i].id == id
}

/// Fragment `i` belongs to transfer `id` and has sequence number `k`.
pub open spec fn carries(fragments: Seq<FragmentView>, i: int, id: Seq<char>, k: u32) -> bool {
    0 <= i < fragments.len() && fragments[i].id == id && fragments[i].sequence == k
}

/// The fragments of transfer `id` once `fragments` have been added to what
/// the table held: stated without regard to the order of `fragments`.
pub open spec fn gathered(
    table: Map<Seq<char>, TransferView>,
    fragments: Seq<FragmentView>,
    id: Seq<char>,
) -> Map<u32, Seq<char>> {
    Map::new(
        |k: u32|
            known_fragments(table, id).contains_key(k) || exists|i: int|
                carries(fragments, i, id, k),
        |k: u32|
            if exists|i: int| carries(fragments, i, id, k) {
                fragments[choose|i: int| carries(fragments, i, id, k)].text
            } else {
                known_fragments(table, id)[k]
            },
    )
}

/// A fragment that arrives for a sequence number that is already taken
/// replaces the earlier one, which leaves no trace but in the time last seen.
pub proof fn lemma_last_write_wins(
    table: Map<Seq<char>, TransferView>,
    id: Seq<char>,
    sequence: u32,
    earlier: Seq<char>,
    later: Seq<char>,
    then: u64,
    now: u64,
)
    ensures
        upserted(
            upserted(table, id, sequence, earlier, then),
            id,
            sequence,
            later,
            now,
        )[id].fragments[sequence] == later,
        upserted(upserted(table, id, sequence, earlier, then), id, sequence, later, now)
            == upserted(table, id, sequence, later, now),
{
    let once = upserted(table, id, sequence, earlier, then);
    let twice = upserted(once, id, sequence, later, now);
    let direct = upserted(table, id, sequence, later, now);
    assert(twice[id].fragments =~= direct[id].fragments);
    assert(twice =~= direct);
}

/// Consistent fragments stay consistent without the last of them.
proof fn lemma_consistent_prefix(fragments: Seq<FragmentView>)
    requires
        consistent(fragments),
        fragments.len() > 0,
    ensures
        consistent(fragments.drop_last()),
{
    let head = fragments.drop_last();
    assert forall|i: int, j: int|
        0 <= i < head.len() && 0 <= j < head.len() && (#[trigger] head[i]).id == (
        #[trigger] head[j]).id && head[i].sequence == head[j].sequence implies head[i].text
        == head[j].text by {
        assert(head[i] == fragments[i]);
        assert(head[j] == fragments[j]);
    }
}

/// After delivery a transfer exists exactly if it existed before or a
/// fragment named it, and it holds what [`gathered`] says, whatever the order
/// of arrival was.
pub proof fn lemma_delivered_gathers(
    table: Map<Seq<char>, TransferView>,
    arrivals: Seq<Arrival>,
    id: Seq<char>,
)
    requires
        consistent(fragments_of(arrivals)),
    ensures
        delivered(table, arrivals).contains_key(id) <==> table.contains_key(id) || exists|i: int|
            mentions(fragments_of(arrivals), i, id),
        known_fragments(delivered(table, arrivals), id) == gathered(
            table,
            fragments_of(arrivals),
            id,
        ),
    decreases arrivals.len(),
{
    let fragments = fragments_of(arrivals);
    if arrivals.len() == 0 {
        assert(known_fragments(table, id) =~= gathered(table, fragments, id));
    } else {
        let head = arrivals.drop_last();
        let earlier = fragments_of(head);
        let last = arrivals.last().fragment;
        let n = arrivals.len() - 1;
        assert(earlier =~= fragments.drop_last());
        assert(fragments[n] == last);
        lemma_consistent_prefix(fragments);
        lemma_delivered_gathers(table, head, id);
        let mid = delivered(table, head);
        let end = delivered(table, arrivals);
        assert forall|i: int| mentions(earlier, i, id) implies mentions(fragments, i, id) by {
            assert(earlier[i] == fragments[i]);
        }
        assert forall|i: int| mentions(fragments, i, id) && i != n implies mentions(
            earlier,
            i,
            id,
        ) by {
            assert(earlier[i] == fragments[i]);
        }
        if last.id == id {
            assert(mentions(fragments, n, id));
        }
        assert(end.contains_key(id) <==> table.contains_key(id) || exists|i: int|
            mentions(fragments, i, id));
        let got = known_fragments(end, id);
        let want = gathered(table, fragments, id);
        assert forall|k: u32| got.contains_key(k) <==> want.contains_key(k) by {
            if exists|i: int| carries(earlier, i, id, k) {
                let i = choose|i: int| carries(earlier, i, id, k);
                assert(earlier[i] == fragments[i]);
                assert(carries(fragments, i, id, k));
            }
            if exists|i: int| carries(fragments, i, id, k) {
                let i = choose|i: int| carries(fragments, i, id, k);
                if i != n {
                    assert(earlier[i] == fragments[i]);
                    assert(carries(earlier, i, id, k));
                }
            }
            if last.id == id && last.sequence == k {
                assert(carries(fragments, n, id, k));
            }
        }
        assert forall|k: u32| got.contains_key(k) implies got[k] == want[k] by {
            if exists|i: int| carries(fragments, i, id, k) {
                let i = choose|i: int| carries(fragments, i, id, k);
                if last.id == id && last.sequence == k {
                    assert(carries(fragments, n, id, k));
                    assert(fragments[i].text == fragments[n].text);
                } else {
                    assert(earlier[i] == fragments[i]);
                    assert(carries(earlier, i, id, k));
                    let j = choose|j: int| carries(earlier, j, id, k);
                    assert(earlier[j] == fragments[j]);
                    assert(fragments[i].text == fragments[j].text);
                }
            } else {
                if exists|i: int| carries(earlier, i, id, k) {
                    let i = choose|i: int| carries(earlier, i, id, k);
                    assert(earlier[i] == fragments[i]);
                    assert(carries(fragments, i, id, k));
                }
                if last.id == id && last.sequence == k {
                    assert(carries(fragments, n, id, k));
                }
            }
        }
        assert(got =~= want);
    }
}

/// Fragments that are the same up to order gather to the same transfer.
pub proof fn lemma_gathered_ignores_order(
    table: Map<Seq<char>, TransferView>,
    first: Seq<FragmentView>,
    second: Seq<FragmentView>,
    id: Seq<char>,
)
    requires
        first.to_multiset() == second.to_multiset(),
        consistent(first),
    ensures
        consistent(second),
        gathered(table, first, id) == gathered(table, second, id),
        (exists|i: int| mentions(first, i, id)) <==> (exists|i: int| mentions(second, i, id)),
{
    first.to_multiset_ensures();
    second.to_multiset_ensures();
    assert forall|i: int| 0 <= i < second.len() implies first.contains(#[trigger] second[i]) by {
        assert(second.contains(second[i]));
        assert(second.to_multiset().count(second[i]) > 0);
        assert(first.to_multiset().count(second[i]) > 0);
    }
    assert forall|i: int| 0 <= i < first.len() implies second.contains(#[trigger] first[i]) by {
        assert(first.contains(first[i]));
        assert(first.to_multiset().count(first[i]) > 0);
        assert(second.to_multiset().count(first[i]) > 0);
    }
    assert forall|i: int, j: int|
        0 <= i < second.len() && 0 <= j < second.len() && (#[trigger] second[i]).id == (
        #[trigger] second[j]).id && second[i].sequence == second[j].sequence implies second[i].text
        == second[j].text by {
        assert(first.contains(second[i]));
        assert(first.contains(second[j]));
        let a = choose|a: int| 0 <= a < first.len() && first[a] == second[i];
        let b = choose|b: int| 0 <= b < first.len() && first[b] == second[j];
        assert(first[a].text == first[b].text);
    }
    if exists|i: int| mentions(first, i, id) {
        let i = choose|i: int| mentions(first, i, id);
        assert(second.contains(first[i]));
        let j = choose|j: int| 0 <= j < second.len() && second[j] == first[i];
        assert(mentions(second, j, id));
    }
    if exists|i: int| mentions(second, i, id) {
        let i = choose|i: int| mentions(second, i, id);
        assert(first.contains(second[i]));
        let j = choose|j: int| 0 <= j < first.len() && first[j] == second[i];
        assert(mentions(first, j, id));
    }
    let one = gathered(table, first, id);
    let other = gathered(table, second, id);
    assert forall|k: u32| one.contains_key(k) <==> other.contains_key(k) by {
        if exists|i: int| carries(first, i, id, k) {
            let i = choose|i: int| carries(first, i, id, k);
            assert(second.contains(first[i]));
            let j = choose|j: int| 0 <= j < second.len() && second[j] == first[i];
            assert(carries(second, j, id, k));
        }
        if exists|i: int| carries(second, i, id, k) {
            let i = choose|i: int| carries(second, i, id, k);
            assert(first.contains(second[i]));
            let j = choose|j: int| 0 <= j < first.len() && first[j] == second[i];
            assert(carries(first, j, id, k));
        }
    }
    assert forall|k: u32| one.contains_key(k) implies one[k] == other[k] by {
        if exists|i: int| carries(first, i, id, k) {
            let i = choose|i: int| carries(first, i, id, k);
            assert(second.contains(first[i]));
            let j = choose|j: int| 0 <= j < second.len() && second[j] == first[i];
            assert(carries(second, j, id, k));
            let m = choose|m: int| carries(second, m, id, k);
            assert(first.contains(second[m]));
            let b = choose|b: int| 0 <= b < first.len() && first[b] == second[m];
            assert(first[i].text == first[b].text);
        } else if exists|i: int| carries(second, i, id, k) {
            let i = choose|i: int| carries(second, i, id, k);
            assert(first.contains(second[i]));
            let j = choose|j: int| 0 <= j < first.len() && first[j] == second[i];
            assert(carries(first, j, id, k));
        }
    }
    assert(one =~= other);
}

/// Order independence: two runs of arrivals that bring the same fragments,
/// in any order and at any times, leave every transfer with the same
/// fragments and so with the same joined payload. The fragments must not
/// hold two different texts for one place of one transfer.
pub proof fn lemma_order_independence(
    table: Map<Seq<char>, TransferView>,
    first: Seq<Arrival>,
    second: Seq<Arrival>,
    id: Seq<char>,
)
    requires
        fragments_of(first).to_multiset() == fragments_of(second).to_multiset(),
        consistent(fragments_of(first)),
    ensures
        delivered(table, first).contains_key(id) <==> delivered(table, second).contains_key(id),
        known_fragments(delivered(table, first), id) == known_fragments(
            delivered(table, second),
            id,
        ),
        raw_payload(known_fragments(delivered(table, first), id)) == raw_payload(
            known_fragments(delivered(table, second), id),
        ),
{
    lemma_gathered_ignores_order(table, fragments_of(first), fragments_of(second), id);
    lemma_delivered_gathers(table, first, id);
    lemma_delivered_gathers(table, second, id);
}

} // verus!
