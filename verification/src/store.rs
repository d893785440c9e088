//! The transfer store: the table of transfers that are still receiving
//! fragments.
//!
//! The table maps a transfer id to the fragments seen so far and to the time
//! of the last one. It is kept in ascending order of id, ids compared as UTF-8
//! byte strings, so that a drain hands transfers out in that order.

use crate::assembler::fragment_texts;
use std::collections::BTreeMap;
use vstd::prelude::*;
use vstd::utf8::{encode_utf8, encode_utf8_decode_utf8};

verus! {

/// One transfer in flight.
#[derive(Clone, Debug, PartialEq, Eq)]
pub struct Transfer {
    pub id: String,
    /// Fragment text by sequence number.
    pub fragments: BTreeMap<u32, String>,
    /// Time of the latest fragment, in milliseconds on the caller's
    /// monotonic clock.
    pub last_seen: u64,
}

/// A transfer as a mathematical value.
pub struct TransferView {
    pub id: Seq<char>,
    pub fragments: Map<u32, Seq<char>>,
    pub last_seen: u64,
}

impl View for Transfer {
    type V = TransferView;

    open spec fn view(&self) -> TransferView {
        TransferView {
            id: self.id@,
            fragments: fragment_texts(self.fragments@),
            last_seen: self.last_seen,
        }
    }
}

/// `a` and `b` agree on their first `k` bytes, and there `a` ends or holds the
/// smaller byte.
pub open spec fn diverges_at(a: Seq<u8>, b: Seq<u8>, k: int) -> bool {
    &&& 0 <= k <= a.len()
    &&& k < b.len()
    &&& forall|i: int| 0 <= i < k ==> a[i] == b[i]
    &&& (k == a.len() || a[k] < b[k])
}

/// Strict lexicographic order on byte strings.
pub open spec fn bytes_before(a: Seq<u8>, b: Seq<u8>) -> bool {
    exists|k: int| diverges_at(a, b, k)
}

/// The order in which the store keeps its transfers: ids compared by their
/// UTF-8 bytes.
pub open spec fn id_before(a: Seq<char>, b: Seq<char>) -> bool {
    bytes_before(encode_utf8(a), encode_utf8(b))
}

/// A byte string before another is not the same and not after it.
pub proof fn lemma_bytes_before_asymmetric(a: Seq<u8>, b: Seq<u8>)
    requires
        bytes_before(a, b),
    ensures
        !bytes_before(b, a),
        a != b,
{
    let k = choose|k: int| diverges_at(a, b, k);
    if bytes_before(b, a) {
        let m = choose|m: int| diverges_at(b, a, m);
        if k < m {
            assert(b[k] == a[k]);
        } else if m < k {
            assert(a[m] == b[m]);
        }
        assert(false);
    }
    if a == b {
        assert(diverges_at(b, a, k));
        assert(false);
    }
}

/// The order on byte strings is transitive.
pub proof fn lemma_bytes_before_transitive(a: Seq<u8>, b: Seq<u8>, c: Seq<u8>)
    requires
        bytes_before(a, b),
        bytes_before(b, c),
    ensures
        bytes_before(a, c),
{
    let k = choose|k: int| diverges_at(a, b, k);
    let m = choose|m: int| diverges_at(b, c, m);
    let n = if k <= m { k } else { m };
    assert forall|i: int| 0 <= i < n implies a[i] == c[i] by {
        assert(a[i] == b[i]);
        assert(b[i] == c[i]);
    }
    if k < m {
        assert(b[k] == c[k]);
    } else if m < k {
        assert(a[m] == b[m]);
    }
    assert(diverges_at(a, c, n));
}

/// Ids with the same UTF-8 bytes are the same id.
pub proof fn lemma_id_bytes_injective(a: Seq<char>, b: Seq<char>)
    requires
        encode_utf8(a) == encode_utf8(b),
    ensures
        a == b,
{
    encode_utf8_decode_utf8(a);
    encode_utf8_decode_utf8(b);
}

/// An id before another is not the same and not after it.
pub proof fn lemma_id_before_asymmetric(a: Seq<char>, b: Seq<char>)
    requires
        id_before(a, b),
    ensures
        !id_before(b, a),
        a != b,
{
    lemma_bytes_before_asymmetric(encode_utf8(a), encode_utf8(b));
}

/// The order on ids is transitive.
pub proof fn lemma_id_before_transitive(a: Seq<char>, b: Seq<char>, c: Seq<char>)
    requires
        id_before(a, b),
        id_before(b, c),
    ensures
        id_before(a, c),
{
    lemma_bytes_before_transitive(encode_utf8(a), encode_utf8(b), encode_utf8(c));
}

/// Two different ids stand one before the other.
pub proof fn lemma_total(a: Seq<char>, b: Seq<char>)
    requires
        a != b,
        !id_before(b, a),
    ensures
        id_before(a, b),
{
    let x = encode_utf8(a);
    let y = encode_utf8(b);
    if x == y {
        lemma_id_bytes_injective(a, b);
    }
    lemma_bytes_total(x, y, 0);
}

/// Two different byte strings that agree on their first `k` bytes stand one
/// before the other.
proof fn lemma_bytes_total(x: Seq<u8>, y: Seq<u8>, k: int)
    requires
        0 <= k <= x.len(),
        k <= y.len(),
        forall|i: int| 0 <= i < k ==> x[i] == y[i],
        x != y,
    ensures
        bytes_before(x, y) || bytes_before(y, x),
    decreases x.len() - k,
{
    if k == x.len() {
        if k == y.len() {
            assert(x =~= y);
        } else {
            assert(diverges_at(x, y, k));
        }
    } else if k == y.len() {
        assert(diverges_at(y, x, k));
    } else if x[k] < y[k] {
        assert(diverges_at(x, y, k));
    } else if y[k] < x[k] {
        assert(diverges_at(y, x, k));
    } else {
        lemma_bytes_total(x, y, k + 1);
    }
}

/// How two ids stand to each other in the store's order.
#[derive(Clone, Copy, Debug, PartialEq, Eq, Structural)]
pub enum IdOrder {
    Before,
    Same,
    After,
}

/// Compares two ids by their UTF-8 bytes.
pub fn order_ids(a: &str, b: &str) -> (res: IdOrder)
    ensures
        res == IdOrder::Before <==> id_before(a@, b@),
        res == IdOrder::Same <==> a@ == b@,
        res == IdOrder::After <==> id_before(b@, a@),
{
    let x = a.as_bytes();
    let y = b.as_bytes();
    let mut i: usize = 0;
    while i < x.len() && i < y.len() && x[i] == y[i]
        invariant
            i <= x.len(),
            i <= y.len(),
            forall|k: int| 0 <= k < i ==> x@[k] == y@[k],
        decreases x.len() - i,
    {
        i += 1;
    }
    let res = if i == x.len() {
        if i == y.len() {
            IdOrder::Same
        } else {
            IdOrder::Before
        }
    } else if i == y.len() {
        IdOrder::After
    } else if x[i] < y[i] {
        IdOrder::Before
    } else {
        IdOrder::After
    };
    proof {
        match res {
            IdOrder::Same => {
                assert(x@ =~= y@);
                lemma_id_bytes_injective(a@, b@);
            },
            IdOrder::Before => {
                assert(diverges_at(x@, y@, i as int));
                lemma_id_before_asymmetric(a@, b@);
            },
            IdOrder::After => {
                assert(diverges_at(y@, x@, i as int));
                lemma_id_before_asymmetric(b@, a@);
            },
        }
    }
    res
}

/// The transfers stand in strictly ascending order of id.
pub open spec fn ascending(transfers: Seq<TransferView>) -> bool {
    forall|i: int, j: int|
        0 <= i < j < transfers.len() ==> id_before(
            #[trigger] transfers[i].id,
            #[trigger] transfers[j].id,
        )
}

/// Position `i` of `transfers` holds the transfer `id`.
pub open spec fn holds_id(transfers: Seq<TransferView>, i: int, id: Seq<char>) -> bool {
    0 <= i < transfers.len() && transfers[i].id == id
}

/// The table that a sequence of transfers stands for: each transfer under its
/// own id.
pub open spec fn indexed(transfers: Seq<TransferView>) -> Map<Seq<char>, TransferView> {
    Map::new(
        |id: Seq<char>| exists|i: int| holds_id(transfers, i, id),
        |id: Seq<char>| transfers[choose|i: int| holds_id(transfers, i, id)],
    )
}

/// In an ascending sequence no id occurs twice.
pub proof fn lemma_ascending_distinct(transfers: Seq<TransferView>, i: int, j: int)
    requires
        ascending(transfers),
        0 <= i < transfers.len(),
        0 <= j < transfers.len(),
        transfers[i].id == transfers[j].id,
    ensures
        i == j,
{
    if i < j {
        lemma_id_before_asymmetric(transfers[i].id, transfers[j].id);
    } else if j < i {
        lemma_id_before_asymmetric(transfers[j].id, transfers[i].id);
    }
}

/// In an ascending sequence every transfer is found under its id.
pub proof fn lemma_indexed_at(transfers: Seq<TransferView>, i: int)
    requires
        ascending(transfers),
        0 <= i < transfers.len(),
    ensures
        indexed(transfers).contains_key(transfers[i].id),
        indexed(transfers)[transfers[i].id] == transfers[i],
{
    let id = transfers[i].id;
    assert(holds_id(transfers, i, id));
    let j = choose|j: int| holds_id(transfers, j, id);
    lemma_ascending_distinct(transfers, i, j);
}

/// What the table looks like once a fragment has been taken in: the transfer
/// `id` exists, holds `text` under `sequence` (whatever stood there before)
/// and was last seen at `now`; nothing else changes.
pub open spec fn upserted(
    table: Map<Seq<char>, TransferView>,
    id: Seq<char>,
    sequence: u32,
    text: Seq<char>,
    now: u64,
) -> Map<Seq<char>, TransferView> {
    let known = if table.contains_key(id) {
        table[id].fragments
    } else {
        Map::empty()
    };
    table.insert(id, TransferView { id, fragments: known.insert(sequence, text), last_seen: now })
}

/// Inserting a transfer in its place adds it to the table under its id,
/// which was not in the table before.
proof fn lemma_indexed_insert(transfers: Seq<TransferView>, at: int, t: TransferView)
    requires
        0 <= at <= transfers.len(),
        ascending(transfers),
        ascending(transfers.insert(at, t)),
    ensures
        indexed(transfers.insert(at, t)) == indexed(transfers).insert(t.id, t),
        !indexed(transfers).contains_key(t.id),
{
    let grown = transfers.insert(at, t);
    if indexed(transfers).contains_key(t.id) {
        let j = choose|j: int| holds_id(transfers, j, t.id);
        let j2 = if j < at { j } else { j + 1 };
        assert(grown[j2] == transfers[j]);
        lemma_ascending_distinct(grown, at, j2);
    }
    assert forall|id: Seq<char>|
        indexed(grown).contains_key(id) <==> indexed(transfers).insert(t.id, t).contains_key(
            id,
        ) by {
        if indexed(grown).contains_key(id) {
            let j = choose|j: int| holds_id(grown, j, id);
            if j < at {
                assert(holds_id(transfers, j, id));
            } else if j > at {
                assert(holds_id(transfers, j - 1, id));
            }
        }
        if indexed(transfers).contains_key(id) {
            let j = choose|j: int| holds_id(transfers, j, id);
            let j2 = if j < at { j } else { j + 1 };
            assert(holds_id(grown, j2, id));
        }
        if id == t.id {
            assert(holds_id(grown, at, id));
        }
    }
    assert forall|id: Seq<char>| indexed(grown).contains_key(id) implies indexed(grown)[id]
        == indexed(transfers).insert(t.id, t)[id] by {
        let j = choose|j: int| holds_id(grown, j, id);
        lemma_indexed_at(grown, j);
        if j < at {
            lemma_indexed_at(transfers, j);
        } else if j > at {
            lemma_indexed_at(transfers, j - 1);
        }
    }
    assert(indexed(grown) =~= indexed(transfers).insert(t.id, t));
}

/// Replacing a transfer by one of the same id replaces it in the table.
proof fn lemma_indexed_update(transfers: Seq<TransferView>, at: int, t: TransferView)
    requires
        0 <= at < transfers.len(),
        ascending(transfers),
        transfers[at].id == t.id,
    ensures
        ascending(transfers.update(at, t)),
        indexed(transfers.update(at, t)) == indexed(transfers).insert(t.id, t),
{
    let changed = transfers.update(at, t);
    assert forall|i: int, j: int| 0 <= i < j < changed.len() implies id_before(
        #[trigger] changed[i].id,
        #[trigger] changed[j].id,
    ) by {
        assert(changed[i].id == transfers[i].id);
        assert(changed[j].id == transfers[j].id);
    }
    assert forall|id: Seq<char>|
        indexed(changed).contains_key(id) <==> indexed(transfers).insert(t.id, t).contains_key(
            id,
        ) by {
        if indexed(changed).contains_key(id) {
            let j = choose|j: int| holds_id(changed, j, id);
            assert(holds_id(transfers, j, id));
        }
        if indexed(transfers).contains_key(id) {
            let j = choose|j: int| holds_id(transfers, j, id);
            assert(holds_id(changed, j, id));
        }
        if id == t.id {
            assert(holds_id(changed, at, id));
        }
    }
    assert forall|id: Seq<char>| indexed(changed).contains_key(id) implies indexed(changed)[id]
        == indexed(transfers).insert(t.id, t)[id] by {
        let j = choose|j: int| holds_id(changed, j, id);
        lemma_indexed_at(changed, j);
        if j != at {
            lemma_indexed_at(transfers, j);
        }
    }
    assert(indexed(changed) =~= indexed(transfers).insert(t.id, t));
}

/// The views of a sequence of transfers.
pub open spec fn transfer_views(transfers: Seq<Transfer>) -> Seq<TransferView> {
    transfers.map_values(|t: Transfer| t@)
}

/// A transfer last seen at `last_seen` has been idle for more than
/// `threshold` at time `now`. A clock reading before `last_seen` counts as no
/// idle time at all.
pub open spec fn is_idle(last_seen: u64, threshold: u64, now: u64) -> bool {
    now - last_seen > threshold
}

/// The transfers that are idle at `now`.
pub open spec fn idle(threshold: u64, now: u64) -> spec_fn(TransferView) -> bool {
    |t: TransferView| is_idle(t.last_seen, threshold, now)
}

/// The transfers that are not idle at `now`.
pub open spec fn active(threshold: u64, now: u64) -> spec_fn(TransferView) -> bool {
    |t: TransferView| !is_idle(t.last_seen, threshold, now)
}

/// The part of a table whose transfers satisfy `wanted`.
pub open spec fn selected(
    table: Map<Seq<char>, TransferView>,
    wanted: spec_fn(TransferView) -> bool,
) -> Map<Seq<char>, TransferView> {
    Map::new(|id: Seq<char>| table.contains_key(id) && wanted(table[id]), |id: Seq<char>| table[id])
}

/// Filtering one more transfer keeps it exactly if it is wanted.
proof fn lemma_filter_push(
    head: Seq<TransferView>,
    t: TransferView,
    wanted: spec_fn(TransferView) -> bool,
)
    ensures
        head.push(t).filter(wanted) == if wanted(t) {
            head.filter(wanted).push(t)
        } else {
            head.filter(wanted)
        },
{
    reveal(Seq::filter);
    assert(head.push(t).drop_last() =~= head);
}

/// Filtering keeps exactly the members that are wanted.
proof fn lemma_filter_members(transfers: Seq<TransferView>, wanted: spec_fn(TransferView) -> bool)
    ensures
        forall|t: TransferView|
            #[trigger] transfers.filter(wanted).contains(t) <==> transfers.contains(t) && wanted(t),
    decreases transfers.len(),
{
    reveal(Seq::filter);
    if transfers.len() > 0 {
        let head = transfers.drop_last();
        let last = transfers.last();
        lemma_filter_members(head, wanted);
        let found = transfers.filter(wanted);
        let inner = head.filter(wanted);
        assert(found == if wanted(last) {
            inner.push(last)
        } else {
            inner
        });
        assert forall|t: TransferView| #[trigger]
            found.contains(t) <==> transfers.contains(t) && wanted(t) by {
            if found.contains(t) {
                let k = choose|k: int| 0 <= k < found.len() && found[k] == t;
                if k < head.filter(wanted).len() {
                    assert(head.filter(wanted)[k] == t);
                    assert(head.filter(wanted).contains(t));
                    let j = choose|j: int| 0 <= j < head.len() && head[j] == t;
                    assert(transfers[j] == t);
                } else {
                    assert(t == last);
                    assert(transfers[transfers.len() - 1] == t);
                }
            }
            if transfers.contains(t) && wanted(t) {
                let j = choose|j: int| 0 <= j < transfers.len() && transfers[j] == t;
                if j < head.len() {
                    assert(head[j] == t);
                    assert(head.contains(t));
                    assert(inner.contains(t));
                    let k = choose|k: int| 0 <= k < inner.len() && inner[k] == t;
                    assert(found[k] == t);
                } else {
                    assert(found[found.len() - 1] == t);
                }
            }
        }
    }
}

/// Filtering keeps the order.
proof fn lemma_filter_ascending(transfers: Seq<TransferView>, wanted: spec_fn(TransferView) -> bool)
    requires
        ascending(transfers),
    ensures
        ascending(transfers.filter(wanted)),
    decreases transfers.len(),
{
    reveal(Seq::filter);
    if transfers.len() > 0 {
        let head = transfers.drop_last();
        let last = transfers.last();
        assert forall|i: int, j: int| 0 <= i < j < head.len() implies id_before(
            #[trigger] head[i].id,
            #[trigger] head[j].id,
        ) by {
            assert(head[i] == transfers[i]);
            assert(head[j] == transfers[j]);
        }
        lemma_filter_ascending(head, wanted);
        lemma_filter_members(head, wanted);
        let found = transfers.filter(wanted);
        let inner = head.filter(wanted);
        assert forall|i: int, j: int| 0 <= i < j < found.len() implies id_before(
            #[trigger] found[i].id,
            #[trigger] found[j].id,
        ) by {
            if j < inner.len() {
                assert(found[i] == inner[i]);
                assert(found[j] == inner[j]);
            } else {
                assert(found[j] == last);
                assert(found[i] == inner[i]);
                assert(inner.contains(inner[i]));
                let m = choose|m: int| 0 <= m < head.len() && head[m] == inner[i];
                assert(transfers[m] == inner[i]);
                assert(transfers[transfers.len() - 1] == last);
            }
        }
    }
}

/// The table of a filtered sequence is the selected part of the table.
proof fn lemma_filter_indexed(transfers: Seq<TransferView>, wanted: spec_fn(TransferView) -> bool)
    requires
        ascending(transfers),
    ensures
        ascending(transfers.filter(wanted)),
        indexed(transfers.filter(wanted)) == selected(indexed(transfers), wanted),
{
    lemma_filter_ascending(transfers, wanted);
    lemma_filter_members(transfers, wanted);
    let found = transfers.filter(wanted);
    let part = selected(indexed(transfers), wanted);
    assert forall|id: Seq<char>| indexed(found).contains_key(id) <==> part.contains_key(id) by {
        if indexed(found).contains_key(id) {
            let k = choose|k: int| holds_id(found, k, id);
            assert(found.contains(found[k]));
            let j = choose|j: int| 0 <= j < transfers.len() && transfers[j] == found[k];
            assert(holds_id(transfers, j, id));
            lemma_indexed_at(transfers, j);
        }
        if part.contains_key(id) {
            let j = choose|j: int| holds_id(transfers, j, id);
            lemma_indexed_at(transfers, j);
            assert(transfers.contains(transfers[j]));
            assert(found.contains(transfers[j]));
            let k = choose|k: int| 0 <= k < found.len() && found[k] == transfers[j];
            assert(holds_id(found, k, id));
        }
    }
    assert forall|id: Seq<char>| indexed(found).contains_key(id) implies indexed(found)[id]
        == part[id] by {
        let k = choose|k: int| holds_id(found, k, id);
        lemma_indexed_at(found, k);
        assert(found.contains(found[k]));
        let j = choose|j: int| 0 <= j < transfers.len() && transfers[j] == found[k];
        lemma_indexed_at(transfers, j);
    }
    assert(indexed(found) =~= part);
}

/// Where every transfer before position `at` precedes `id` and the one at
/// `at`, if any, follows it, the id is not in the table and belongs at `at`.
proof fn lemma_absent(transfers: Seq<TransferView>, at: int, t: TransferView)
    requires
        ascending(transfers),
        0 <= at <= transfers.len(),
        forall|j: int| 0 <= j < at ==> id_before(#[trigger] transfers[j].id, t.id),
        at < transfers.len() ==> id_before(t.id, transfers[at].id),
    ensures
        !indexed(transfers).contains_key(t.id),
        ascending(transfers.insert(at, t)),
{
    let grown = transfers.insert(at, t);
    assert forall|j: int| at <= j < transfers.len() implies id_before(
        t.id,
        #[trigger] transfers[j].id,
    ) by {
        if at < j {
            lemma_id_before_transitive(t.id, transfers[at].id, transfers[j].id);
        }
    }
    if indexed(transfers).contains_key(t.id) {
        let j = choose|j: int| holds_id(transfers, j, t.id);
        if j < at {
            lemma_id_before_asymmetric(transfers[j].id, t.id);
        } else {
            lemma_id_before_asymmetric(t.id, transfers[j].id);
        }
    }
    assert forall|i: int, j: int| 0 <= i < j < grown.len() implies id_before(
        #[trigger] grown[i].id,
        #[trigger] grown[j].id,
    ) by {
        let i0 = if i < at { i } else { i - 1 };
        let j0 = if j < at { j } else { j - 1 };
        if i != at {
            assert(grown[i] == transfers[i0]);
        }
        if j != at {
            assert(grown[j] == transfers[j0]);
        }
    }
}

/// An ascending sequence without its last transfer is ascending.
proof fn lemma_ascending_drop_last(transfers: Seq<TransferView>)
    requires
        ascending(transfers),
        transfers.len() > 0,
    ensures
        ascending(transfers.drop_last()),
        indexed(transfers) == indexed(transfers.drop_last()).insert(
            transfers.last().id,
            transfers.last(),
        ),
        !indexed(transfers.drop_last()).contains_key(transfers.last().id),
{
    let head = transfers.drop_last();
    assert forall|i: int, j: int| 0 <= i < j < head.len() implies id_before(
        #[trigger] head[i].id,
        #[trigger] head[j].id,
    ) by {
        assert(head[i] == transfers[i]);
        assert(head[j] == transfers[j]);
    }
    assert(head.insert(head.len() as int, transfers.last()) =~= transfers);
    lemma_indexed_insert(head, head.len() as int, transfers.last());
}

/// The table of an ascending sequence has one entry for each of its
/// transfers.
pub proof fn lemma_indexed_len(transfers: Seq<TransferView>)
    requires
        ascending(transfers),
    ensures
        indexed(transfers).dom().finite(),
        indexed(transfers).len() == transfers.len(),
    decreases transfers.len(),
{
    if transfers.len() == 0 {
        assert(indexed(transfers) =~= Map::<Seq<char>, TransferView>::empty());
    } else {
        lemma_ascending_drop_last(transfers);
        lemma_indexed_len(transfers.drop_last());
    }
}

/// The table determines the order: two ascending sequences that stand for the
/// same table are the same sequence.
pub proof fn lemma_table_determines_order(a: Seq<TransferView>, b: Seq<TransferView>)
    requires
        ascending(a),
        ascending(b),
        indexed(a) == indexed(b),
    ensures
        a == b,
    decreases a.len(),
{
    lemma_indexed_len(a);
    lemma_indexed_len(b);
    if a.len() == 0 {
        assert(a =~= b);
    } else {
        let n = a.len() - 1;
        lemma_indexed_at(a, n);
        lemma_indexed_at(b, n);
        if a[n].id != b[n].id {
            let j = choose|j: int| holds_id(b, j, a[n].id);
            let k = choose|k: int| holds_id(a, k, b[n].id);
            assert(id_before(b[j].id, b[n].id));
            assert(id_before(a[k].id, a[n].id));
            lemma_id_before_asymmetric(a[n].id, b[n].id);
        }
        assert(a[n] == b[n]);
        lemma_ascending_drop_last(a);
        lemma_ascending_drop_last(b);
        assert(indexed(a.drop_last()) =~= indexed(a).remove(a[n].id));
        assert(indexed(b.drop_last()) =~= indexed(b).remove(b[n].id));
        lemma_table_determines_order(a.drop_last(), b.drop_last());
        assert(a =~= a.drop_last().push(a[n]));
        assert(b =~= b.drop_last().push(b[n]));
    }
}

/// The table of transfers in flight.
pub struct TransferStore {
    entries: Vec<Transfer>,
}

impl View for TransferStore {
    type V = Map<Seq<char>, TransferView>;

    /// The table: transfer id to transfer.
    open spec fn view(&self) -> Map<Seq<char>, TransferView> {
        indexed(self.ordered())
    }
}

impl TransferStore {
    /// The transfers in the order in which the store keeps and drains them.
    pub closed spec fn ordered(&self) -> Seq<TransferView> {
        self.entries@.map_values(|t: Transfer| t@)
    }

    /// The store's invariant: its transfers are in strictly ascending order of
    /// id, so no id occurs twice. Every store satisfies it.
    #[verifier::type_invariant]
    pub open spec fn wf(&self) -> bool {
        ascending(self.ordered())
    }

    /// An empty store.
    pub fn new() -> (store: TransferStore)
        ensures
            store@ == Map::<Seq<char>, TransferView>::empty(),
            store.ordered() == Seq::<TransferView>::empty(),
    {
        let store = TransferStore { entries: Vec::new() };
        proof {
            assert(store.ordered() =~= Seq::<TransferView>::empty());
            assert(store@ =~= Map::<Seq<char>, TransferView>::empty());
        }
        store
    }

    /// Number of transfers in flight.
    pub fn len(&self) -> (n: usize)
        ensures
            n == self.ordered().len(),
            n == self@.len(),
    {
        proof {
            use_type_invariant(self);
            lemma_indexed_len(self.ordered());
        }
        self.entries.len()
    }

    /// First position whose id is not before `id`.
    fn position(&self, id: &str) -> (at: usize)
        ensures
            at <= self.ordered().len(),
            forall|j: int| 0 <= j < at ==> id_before(#[trigger] self.ordered()[j].id, id@),
            forall|j: int|
                at <= j < self.ordered().len() ==> !id_before(
                    #[trigger] self.ordered()[j].id,
                    id@,
                ),
    {
        proof {
            use_type_invariant(self);
        }
        let mut at: usize = 0;
        let mut searching = true;
        while searching && at < self.entries.len()
            invariant
                at <= self.entries.len(),
                forall|j: int| 0 <= j < at ==> id_before(#[trigger] self.ordered()[j].id, id@),
                !searching ==> at < self.entries.len() && !id_before(
                    self.ordered()[at as int].id,
                    id@,
                ),
            decreases self.entries.len() - at + if searching { 1int } else { 0int },
        {
            match order_ids(self.entries[at].id.as_str(), id) {
                IdOrder::Before => {
                    at += 1;
                },
                _ => {
                    searching = false;
                },
            }
        }
        proof {
            assert forall|j: int| at <= j < self.ordered().len() implies !id_before(
                #[trigger] self.ordered()[j].id,
                id@,
            ) by {
                if id_before(self.ordered()[j].id, id@) {
                    if at < j {
                        lemma_id_before_transitive(
                            self.ordered()[at as int].id,
                            self.ordered()[j].id,
                            id@,
                        );
                    }
                }
            }
        }
        at
    }

    /// Takes in one fragment: creates the transfer `id` if it is new, stores
    /// `text` under `sequence`, replacing what was there, and records `now` as
    /// the time the transfer was last seen.
    pub fn upsert_fragment(&mut self, id: String, sequence: u32, text: String, now: u64)
        ensures
            final(self)@ == upserted(old(self)@, id@, sequence, text@, now),
    {
        proof {
            use_type_invariant(&*self);
        }
        let at: usize = self.position(id.as_str());
        let ghost before = self.ordered();
        let known = at < self.entries.len() && order_ids(self.entries[at].id.as_str(), id.as_str())
            == IdOrder::Same;
        let mut entries: Vec<Transfer> = Vec::new();
        std::mem::swap(&mut self.entries, &mut entries);
        assert(transfer_views(entries@) == before);
        if known {
            let mut transfer = entries.remove(at);
            let ghost was = transfer@;
            transfer.fragments.insert(sequence, text);
            transfer.last_seen = now;
            let ghost is = transfer@;
            entries.insert(at, transfer);
            proof {
                assert(is.fragments =~= was.fragments.insert(sequence, text@));
                assert(transfer_views(entries@) =~= before.update(at as int, is));
                lemma_indexed_at(before, at as int);
                lemma_indexed_update(before, at as int, is);
            }
        } else {
            let mut fragments: BTreeMap<u32, String> = BTreeMap::new();
            fragments.insert(sequence, text);
            let transfer = Transfer { id, fragments, last_seen: now };
            let ghost is = transfer@;
            entries.insert(at, transfer);
            proof {
                assert(is.fragments =~= Map::<u32, Seq<char>>::empty().insert(sequence, text@));
                assert(transfer_views(entries@) =~= before.insert(at as int, is));
                if at < before.len() {
                    lemma_total(is.id, before[at as int].id);
                }
                lemma_absent(before, at as int, is);
                lemma_indexed_insert(before, at as int, is);
            }
        }
        self.entries = entries;
    }

    /// Whether no transfer is in flight.
    pub fn is_empty(&self) -> (res: bool)
        ensures
            res == (self.ordered().len() == 0),
            res == (self@.len() == 0),
    {
        proof {
            use_type_invariant(self);
            lemma_indexed_len(self.ordered());
        }
        self.entries.len() == 0
    }

    /// The transfer with the given id, if it is in flight.
    pub fn get(&self, id: &str) -> (res: Option<&Transfer>)
        ensures
            match res {
                Some(transfer) => self@.contains_key(id@) && transfer@ == self@[id@],
                None => !self@.contains_key(id@),
            },
    {
        proof {
            use_type_invariant(self);
        }
        let at: usize = self.position(id);
        if at < self.entries.len() && order_ids(self.entries[at].id.as_str(), id) == IdOrder::Same {
            proof {
                lemma_indexed_at(self.ordered(), at as int);
            }
            Some(&self.entries[at])
        } else {
            proof {
                let probe = TransferView { id: id@, fragments: Map::empty(), last_seen: 0 };
                if at < self.ordered().len() {
                    lemma_total(id@, self.ordered()[at as int].id);
                }
                lemma_absent(self.ordered(), at as int, probe);
            }
            None
        }
    }

    /// Whether a transfer with the given id is in flight.
    pub fn contains(&self, id: &str) -> (res: bool)
        ensures
            res == self@.contains_key(id@),
    {
        self.get(id).is_some()
    }

    /// Removes every transfer that has been idle for more than `threshold` at
    /// time `now` and hands them to the caller, in ascending order of id. The
    /// other transfers stay as they are.
    pub fn drain_idle(&mut self, threshold: u64, now: u64) -> (drained: Vec<Transfer>)
        ensures
            final(self).ordered() == old(self).ordered().filter(active(threshold, now)),
            transfer_views(drained@) == old(self).ordered().filter(idle(threshold, now)),
            final(self)@ == selected(old(self)@, active(threshold, now)),
            ascending(transfer_views(drained@)),
            indexed(transfer_views(drained@)) == selected(old(self)@, idle(threshold, now)),
    {
        proof {
            use_type_invariant(&*self);
        }
        let ghost before = self.ordered();
        let mut all: Vec<Transfer> = Vec::new();
        std::mem::swap(&mut self.entries, &mut all);
        let ghost items = all@;
        let mut kept: Vec<Transfer> = Vec::new();
        let mut drained: Vec<Transfer> = Vec::new();
        proof {
            reveal(Seq::filter);
            assert(transfer_views(items) =~= before);
            assert(before.take(0) =~= Seq::<TransferView>::empty());
            assert(transfer_views(kept@) =~= Seq::<TransferView>::empty());
            assert(transfer_views(drained@) =~= Seq::<TransferView>::empty());
        }
        for transfer in it: all
            invariant
                it.seq() == items,
                transfer_views(items) == before,
                transfer_views(kept@) == before.take(it.index()).filter(active(threshold, now)),
                transfer_views(drained@) == before.take(it.index()).filter(idle(threshold, now)),
        {
            proof {
                let seen = before.take(it.index());
                assert(before.take(it.index() + 1) =~= seen.push(transfer@));
                lemma_filter_push(seen, transfer@, active(threshold, now));
                lemma_filter_push(seen, transfer@, idle(threshold, now));
            }
            let ghost kept_before = kept@;
            let ghost drained_before = drained@;
            if now > transfer.last_seen && now - transfer.last_seen > threshold {
                drained.push(transfer);
                proof {
                    assert(transfer_views(drained@) =~= transfer_views(drained_before).push(
                        transfer@,
                    ));
                }
            } else {
                kept.push(transfer);
                proof {
                    assert(transfer_views(kept@) =~= transfer_views(kept_before).push(transfer@));
                }
            }
        }
        proof {
            assert(before.take(before.len() as int) =~= before);
            lemma_filter_indexed(before, active(threshold, now));
            lemma_filter_indexed(before, idle(threshold, now));
        }
        self.entries = kept;
        drained
    }
}

} // verus!
