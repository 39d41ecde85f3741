//! Sparse per-player input storage with hold-last reads, compaction and
//! confirmation labels.
//!
//! Each player's inputs form a sorted map from frame to serialized bytes.  A
//! read at a frame returns the value of the greatest key at or below it; the
//! read is `Confirmed` when a strictly later key proves the player did not
//! change input in between, `Unconfirmed` when the held value is only an
//! optimistic guess.

use vstd::prelude::*;

verus! {

use crate::Frame;
use crate::PlayerId;
use crate::SerializedInput;

/// Whether a held input value is authoritative or an optimistic guess.
#[derive(Clone, Debug, PartialEq, Eq)]
pub enum Confirmation<T> {
    Confirmed(T),
    Unconfirmed(T),
}

impl<T> Confirmation<T> {
    /// The held value, discarding the label.
    pub fn into_inner(self) -> (r: T)
        ensures
            r == self.inner_spec(),
    {
        match self {
            Confirmation::Confirmed(t) => t,
            Confirmation::Unconfirmed(t) => t,
        }
    }

    /// The held value as a spec value.
    pub open spec fn inner_spec(self) -> T {
        match self {
            Confirmation::Confirmed(t) => t,
            Confirmation::Unconfirmed(t) => t,
        }
    }

    /// Applies `f` to the held value, keeping the label.
    pub fn map<U, F: FnOnce(T) -> U>(self, f: F) -> (r: Confirmation<U>)
        requires
            f.requires((self.inner_spec(),)),
        ensures
            f.ensures((self.inner_spec(),), r.inner_spec()),
            r is Confirmed <==> self is Confirmed,
    {
        match self {
            Confirmation::Confirmed(t) => Confirmation::Confirmed(f(t)),
            Confirmation::Unconfirmed(t) => Confirmation::Unconfirmed(f(t)),
        }
    }

    /// Whether the label is `Confirmed`.
    pub fn is_confirmed(&self) -> (r: bool)
        ensures
            r == (*self is Confirmed),
    {
        match self {
            Confirmation::Confirmed(_) => true,
            Confirmation::Unconfirmed(_) => false,
        }
    }
}

/// Entries sorted strictly by frame, so each frame appears at most once.
pub open spec fn entries_sorted(es: Seq<(Frame, SerializedInput)>) -> bool {
    forall|i: int, j: int| 0 <= i < j < es.len() ==> (#[trigger] es[i]).0 < (#[trigger] es[j]).0
}

/// Whether some entry holds the exact frame `f`.
pub open spec fn has_key(es: Seq<(Frame, SerializedInput)>, f: int) -> bool {
    exists|i: int| 0 <= i < es.len() && (#[trigger] es[i]).0 == f
}

/// Whether some entry holds a frame strictly after `f`.
pub open spec fn has_later_key(es: Seq<(Frame, SerializedInput)>, f: int) -> bool {
    exists|i: int| 0 <= i < es.len() && (#[trigger] es[i]).0 > f
}

/// Turns any defined read into a confirmed one.
pub open spec fn confirm(r: Option<Confirmation<Seq<u8>>>) -> Option<Confirmation<Seq<u8>>> {
    match r {
        None => None,
        Some(c) => Some(Confirmation::Confirmed(c.inner_spec())),
    }
}

/// The hold-last read: the value of the greatest key at or below `f`, labelled
/// `Confirmed` exactly when a strictly later key exists.
pub open spec fn at_spec(es: Seq<(Frame, SerializedInput)>, f: int) -> Option<
    Confirmation<Seq<u8>>,
>
    decreases es.len(),
{
    if es.len() == 0 {
        None
    } else if es.last().0 <= f {
        Some(Confirmation::Unconfirmed(es.last().1@))
    } else {
        confirm(at_spec(es.drop_last(), f))
    }
}

/// Pins the recursive read down to the greatest index whose key is at or
/// below `f`.
pub proof fn lemma_at_spec_char(es: Seq<(Frame, SerializedInput)>, f: int, k: int)
    requires
        entries_sorted(es),
        0 <= k < es.len(),
        es[k].0 <= f,
        k + 1 < es.len() ==> es[k + 1].0 > f,
    ensures
        at_spec(es, f) == if k + 1 < es.len() {
            Some(Confirmation::Confirmed(es[k].1@))
        } else {
            Some(Confirmation::Unconfirmed(es[k].1@))
        },
    decreases es.len(),
{
    if es.last().0 <= f {
        assert(k == es.len() - 1);
    } else {
        lemma_at_spec_char(es.drop_last(), f, k);
    }
}

/// A read below every key is undefined.
pub proof fn lemma_at_spec_none(es: Seq<(Frame, SerializedInput)>, f: int)
    requires
        forall|i: int| 0 <= i < es.len() ==> (#[trigger] es[i]).0 > f,
    ensures
        at_spec(es, f) == None::<Confirmation<Seq<u8>>>,
    decreases es.len(),
{
    if es.len() > 0 {
        lemma_at_spec_none(es.drop_last(), f);
    }
}

/// Removing an entry whose value repeats its predecessor's preserves every
/// hold-last read, provided it is not the last entry.
pub proof fn lemma_remove_dup_preserves(es: Seq<(Frame, SerializedInput)>, i: int, f: int)
    requires
        entries_sorted(es),
        0 < i,
        i + 1 < es.len(),
        es[i].1@ == es[i - 1].1@,
    ensures
        at_spec(es.remove(i), f) == at_spec(es, f),
    decreases es.len(),
{
    let r = es.remove(i);
    let dl = es.drop_last();
    assert(r.len() == es.len() - 1);
    assert(forall|j: int| 0 <= j < i ==> r[j] == es[j]);
    assert(forall|j: int| i <= j < r.len() ==> r[j] == es[j + 1]);
    assert(r.last() == es.last());
    assert(entries_sorted(dl)) by {
        assert(forall|j: int| 0 <= j < dl.len() ==> dl[j] == es[j]);
    }
    if es.last().0 <= f {
        assert(at_spec(r, f) == Some(Confirmation::Unconfirmed(es.last().1@)));
    } else if i + 1 == es.len() - 1 {
        // The removed entry is just below the last: compare reads directly.
        let dd = dl.drop_last();
        assert(r.drop_last() =~= dd);
        assert(entries_sorted(dd)) by {
            assert(forall|j: int| 0 <= j < dd.len() ==> dd[j] == es[j]);
        }
        assert(dl.last() == es[i]);
        if es[i].0 <= f {
            lemma_at_spec_char(dl, f, i);
            assert(at_spec(es, f) == confirm(at_spec(dl, f)));
            assert(at_spec(es, f) == Some(Confirmation::Confirmed(es[i].1@)));
            lemma_at_spec_char(dd, f, i - 1);
            assert(at_spec(r, f) == confirm(at_spec(dd, f)));
            assert(at_spec(r, f) == Some(Confirmation::Confirmed(es[i - 1].1@)));
        } else {
            assert(at_spec(es, f) == confirm(at_spec(dl, f)));
            assert(at_spec(dl, f) == confirm(at_spec(dd, f)));
            assert(at_spec(r, f) == confirm(at_spec(dd, f)));
        }
    } else {
        assert(r.drop_last() =~= dl.remove(i));
        assert(dl[i] == es[i] && dl[i - 1] == es[i - 1]);
        lemma_remove_dup_preserves(dl, i, f);
        assert(at_spec(es, f) == confirm(at_spec(dl, f)));
        assert(at_spec(r, f) == confirm(at_spec(dl.remove(i), f)));
    }
}

/// Byte-wise equality of two serialized inputs.
pub fn bytes_eq(a: &Vec<u8>, b: &Vec<u8>) -> (r: bool)
    ensures
        r == (a@ == b@),
{
    if a.len() != b.len() {
        proof {
            assert(a@ != b@);
        }
        return false;
    }
    let mut i: usize = 0;
    while i < a.len()
        invariant
            i <= a@.len(),
            a@.len() == b@.len(),
            forall|j: int| 0 <= j < i ==> a@[j] == b@[j],
        decreases a@.len() - i,
    {
        if a[i] != b[i] {
            return false;
        }
        i += 1;
    }
    proof {
        assert(a@ =~= b@);
    }
    true
}

/// Sorted insertion that leaves the entries unchanged when the frame is
/// already present (first writer wins).
pub open spec fn insert_entry(
    es: Seq<(Frame, SerializedInput)>,
    f: Frame,
    v: SerializedInput,
) -> Seq<(Frame, SerializedInput)>
    decreases es.len(),
{
    if es.len() == 0 {
        seq![(f, v)]
    } else if es.last().0 < f {
        es.push((f, v))
    } else if es.last().0 == f {
        es
    } else {
        insert_entry(es.drop_last(), f, v).push(es.last())
    }
}

/// The result of merging a batch of remote entries, one sorted insertion per
/// batch element, existing values never overwritten.
pub open spec fn merge_entries(
    es: Seq<(Frame, SerializedInput)>,
    batch: Seq<(Frame, SerializedInput)>,
) -> Seq<(Frame, SerializedInput)>
    decreases batch.len(),
{
    if batch.len() == 0 {
        es
    } else {
        merge_entries(insert_entry(es, batch[0].0, batch[0].1), batch.skip(1))
    }
}

/// Pins `insert_entry` down to a positional insertion at `pos`, the number of
/// keys strictly below `f`.
pub proof fn lemma_insert_entry_char(
    es: Seq<(Frame, SerializedInput)>,
    f: Frame,
    v: SerializedInput,
    pos: int,
)
    requires
        entries_sorted(es),
        0 <= pos <= es.len(),
        forall|i: int| 0 <= i < pos ==> (#[trigger] es[i]).0 < f,
        forall|i: int| pos <= i < es.len() ==> (#[trigger] es[i]).0 >= f,
    ensures
        pos < es.len() && es[pos].0 == f ==> insert_entry(es, f, v) == es,
        !(pos < es.len() && es[pos].0 == f) ==> insert_entry(es, f, v) == es.insert(pos, (f, v)),
        has_key(es, f as int) == (pos < es.len() && es[pos].0 == f),
    decreases es.len(),
{
    if es.len() == 0 {
        assert(insert_entry(es, f, v) =~= es.insert(0, (f, v)));
        assert(!has_key(es, f as int));
    } else if es.last().0 < f {
        assert(pos == es.len());
        assert(insert_entry(es, f, v) =~= es.insert(pos, (f, v)));
        assert(!has_key(es, f as int));
    } else if es.last().0 == f {
        assert(es[es.len() - 1].0 == f);
        if pos < es.len() - 1 {
            assert(es[pos].0 >= f);
            assert(es[pos].0 < es[es.len() - 1].0);
            assert(false);
        }
        if pos == es.len() {
            assert(es[es.len() - 1].0 < f);
            assert(false);
        }
        assert(pos == es.len() - 1);
        assert(has_key(es, f as int));
    } else {
        let dl = es.drop_last();
        assert(pos <= dl.len());
        lemma_insert_entry_char(dl, f, v, pos);
        if pos < dl.len() && dl[pos].0 == f {
            assert(insert_entry(es, f, v) =~= es);
            assert(has_key(es, f as int));
        } else {
            assert(insert_entry(es, f, v) =~= es.insert(pos, (f, v)));
            if has_key(es, f as int) {
                let i = choose|i: int| 0 <= i < es.len() && (#[trigger] es[i]).0 == f;
                assert(i < es.len() - 1);
                assert(es[i].0 >= f ==> pos <= i);
                assert(false);
            }
        }
    }
}

/// Sorted insertion keeps the entries sorted and adds exactly the new key.
pub proof fn lemma_insert_entry_sorted(es: Seq<(Frame, SerializedInput)>, f: Frame, v: SerializedInput)
    requires
        entries_sorted(es),
    ensures
        entries_sorted(insert_entry(es, f, v)),
        has_key(insert_entry(es, f, v), f as int),
        forall|g: int| #[trigger] has_key(insert_entry(es, f, v), g) ==> g == f || has_key(es, g),
        forall|g: int| has_key(es, g) ==> #[trigger] has_key(insert_entry(es, f, v), g),
{
    let pos = lemma_key_position(es, f);
    lemma_insert_entry_char(es, f, v, pos);
    let r = insert_entry(es, f, v);
    if pos < es.len() && es[pos].0 == f {
        assert(has_key(r, f as int));
    } else {
        assert(r == es.insert(pos, (f, v)));
        assert(r[pos].0 == f);
        assert(has_key(r, f as int));
        assert forall|a: int, b: int| 0 <= a < b < r.len() implies (r[a]).0 < (r[b]).0 by {
            if a < pos && b > pos {
                assert(r[a] == es[a] && r[b] == es[b - 1]);
            } else if a == pos && b > pos {
                assert(r[b] == es[b - 1]);
            } else if a < pos && b == pos {
                assert(r[a] == es[a]);
            } else if b < pos {
                assert(r[a] == es[a] && r[b] == es[b]);
            } else {
                assert(r[a] == es[a - 1] && r[b] == es[b - 1]);
            }
        }
        assert forall|g: int| #[trigger] has_key(r, g) implies g == f || has_key(es, g) by {
            let i = choose|i: int| 0 <= i < r.len() && (#[trigger] r[i]).0 == g;
            if i < pos {
                assert(es[i].0 == g);
            } else if i > pos {
                assert(es[i - 1].0 == g);
            }
        }
        assert forall|g: int| has_key(es, g) implies #[trigger] has_key(r, g) by {
            let i = choose|i: int| 0 <= i < es.len() && (#[trigger] es[i]).0 == g;
            if i < pos {
                assert(r[i].0 == g);
            } else {
                assert(r[i + 1].0 == g);
            }
        }
    }
}

/// The number of keys strictly below `f` in a sorted sequence: every earlier
/// key is below `f`, every later key at or above it.
pub proof fn lemma_key_position(es: Seq<(Frame, SerializedInput)>, f: Frame) -> (pos: int)
    requires
        entries_sorted(es),
    ensures
        0 <= pos <= es.len(),
        forall|i: int| 0 <= i < pos ==> (#[trigger] es[i]).0 < f,
        forall|i: int| pos <= i < es.len() ==> (#[trigger] es[i]).0 >= f,
    decreases es.len(),
{
    if es.len() == 0 {
        0
    } else if es.last().0 < f {
        es.len() as int
    } else {
        let dl = es.drop_last();
        let pos = lemma_key_position(dl, f);
        assert forall|i: int| 0 <= i < pos implies (#[trigger] es[i]).0 < f by {
            assert(es[i] == dl[i]);
        }
        assert forall|i: int| pos <= i < es.len() implies (#[trigger] es[i]).0 >= f by {
            if i < es.len() - 1 {
                assert(es[i] == dl[i]);
            }
        }
        pos
    }
}

/// An exact byte-for-byte copy of a serialized blob.
pub fn clone_bytes(v: &Vec<u8>) -> (r: Vec<u8>)
    ensures
        r@ == v@,
{
    let r = v.clone();
    proof {
        assert forall|i: int| 0 <= i < v@.len() implies r@[i] == v@[i] by {
            assert(vstd::pervasive::cloned::<u8>(v[i], r[i]));
        }
        assert(r@ =~= v@);
    }
    r
}

/// Inserting a fresh key `f` makes the read at `f` return the new value, and
/// upgrades every earlier read to `Confirmed` without changing its value.
pub proof fn lemma_insert_at_effect(es: Seq<(Frame, SerializedInput)>, f: Frame, v: SerializedInput)
    requires
        entries_sorted(es),
        !has_key(es, f as int),
    ensures
        ({
            let r = insert_entry(es, f, v);
            &&& at_spec(r, f as int) == Some(
                if has_later_key(r, f as int) {
                    Confirmation::Confirmed(v@)
                } else {
                    Confirmation::Unconfirmed(v@)
                },
            )
            &&& forall|g: int| g < f ==> at_spec(r, g) == confirm(at_spec(es, g))
            &&& has_later_key(r, f as int) == has_later_key(es, f as int)
        }),
{
    let pos = lemma_key_position(es, f);
    lemma_insert_entry_char(es, f, v, pos);
    lemma_insert_entry_sorted(es, f, v);
    let r = insert_entry(es, f, v);
    assert(r == es.insert(pos, (f, v)));
    assert(r[pos] == (f, v));
    assert(forall|j: int| 0 <= j < pos ==> r[j] == es[j]);
    assert(forall|j: int| pos < j < r.len() ==> r[j] == es[j - 1]);
    // The read at `f` itself.
    lemma_at_spec_char(r, f as int, pos);
    assert(has_later_key(r, f as int) == (pos + 1 < r.len())) by {
        if pos + 1 < r.len() {
            assert(r[pos + 1].0 > f);
        } else if has_later_key(r, f as int) {
            let i = choose|i: int| 0 <= i < r.len() && (#[trigger] r[i]).0 > f;
            assert(i <= pos);
            assert(r[i].0 <= f);
        }
    }
    assert(has_later_key(es, f as int) == (pos < es.len())) by {
        if pos < es.len() {
            assert(es[pos].0 > f);
        } else if has_later_key(es, f as int) {
            let i = choose|i: int| 0 <= i < es.len() && (#[trigger] es[i]).0 > f;
            assert(es[i].0 < f);
        }
    }
    // Earlier reads.
    assert forall|g: int| g < f implies at_spec(r, g) == confirm(at_spec(es, g)) by {
        let gpos = lemma_key_position(es, ((g + 1) as nat) as Frame);
        if g < 0 {
            lemma_at_spec_none(es, g);
            lemma_at_spec_none(r, g);
        } else if gpos == 0 {
            // No key at or below g on either side.
            assert(forall|i: int| 0 <= i < es.len() ==> (#[trigger] es[i]).0 > g);
            assert forall|i: int| 0 <= i < r.len() implies (#[trigger] r[i]).0 > g by {
                if i < pos {
                } else if i == pos {
                } else {
                    assert(r[i] == es[i - 1]);
                }
            }
            lemma_at_spec_none(es, g);
            lemma_at_spec_none(r, g);
        } else {
            let k = gpos - 1;
            assert(es[k].0 <= g);
            lemma_at_spec_char(es, g, k);
            // In the inserted sequence the same index still answers the read.
            assert(k < pos);
            assert(r[k] == es[k]);
            assert(k + 1 < r.len());
            assert(r[k + 1].0 > g) by {
                if k + 1 < pos {
                    assert(r[k + 1] == es[k + 1]);
                } else if k + 1 == pos {
                } else {
                    assert(r[k + 1] == es[k]);
                }
            }
            lemma_at_spec_char(r, g, k);
        }
    }
}

/// One player's sparse input map plus its compaction cursor.
pub struct SparseInputs {
    entries: Vec<(Frame, SerializedInput)>,
    next_compact: Frame,
}

impl SparseInputs {
    /// Entries strictly sorted by frame.
    pub closed spec fn wf(self) -> bool {
        entries_sorted(self.entries@)
    }

    /// The stored entries, oldest first.
    pub closed spec fn entries_view(self) -> Seq<(Frame, SerializedInput)> {
        self.entries@
    }

    /// The compaction cursor: entries below it were already examined.
    pub closed spec fn cursor_spec(self) -> Frame {
        self.next_compact
    }

    /// An empty map.
    pub fn empty() -> (r: Self)
        ensures
            r.wf(),
            r.entries_view().len() == 0,
    {
        SparseInputs { entries: Vec::new(), next_compact: 0 }
    }

    /// The hold-last read at `frame` (see [`at_spec`]).
    pub fn at(&self, frame: Frame) -> (r: Option<Confirmation<SerializedInput>>)
        requires
            self.wf(),
        ensures
            r matches Some(c) ==> at_spec(self.entries_view(), frame as int) == Some(
                c.map_view(),
            ),
            r is None ==> at_spec(self.entries_view(), frame as int) is None,
    {
        let n = self.entries.len();
        let mut idx = n;
        while idx > 0 && self.entries[idx - 1].0 > frame
            invariant
                idx <= n,
                n == self.entries@.len(),
                self.wf(),
                forall|j: int| idx <= j < n ==> (#[trigger] self.entries@[j]).0 > frame,
            decreases idx,
        {
            idx -= 1;
        }
        if idx == 0 {
            proof {
                lemma_at_spec_none(self.entries@, frame as int);
            }
            return None;
        }
        proof {
            lemma_at_spec_char(self.entries@, frame as int, idx - 1);
        }
        let v = clone_bytes(&self.entries[idx - 1].1);
        if idx < n {
            Some(Confirmation::Confirmed(v))
        } else {
            Some(Confirmation::Unconfirmed(v))
        }
    }

    /// Stores `value` at `frame` unless the frame already has one: the first
    /// writer wins.
    pub fn insert_if_absent(&mut self, frame: Frame, value: SerializedInput) -> (r: bool)
        requires
            old(self).wf(),
        ensures
            final(self).wf(),
            final(self).entries_view() == insert_entry(old(self).entries_view(), frame, value),
            r == !has_key(old(self).entries_view(), frame as int),
            final(self).cursor_spec() == old(self).cursor_spec(),
    {
        let ghost orig = self.entries@;
        let n = self.entries.len();
        let mut pos: usize = 0;
        while pos < n && self.entries[pos].0 < frame
            invariant
                pos <= n,
                n == self.entries@.len(),
                self.entries@ == orig,
                forall|j: int| 0 <= j < pos ==> (#[trigger] self.entries@[j]).0 < frame,
            decreases n - pos,
        {
            pos += 1;
        }
        proof {
            assert forall|j: int| pos <= j < orig.len() implies (#[trigger] orig[j]).0 >= frame by {
                assert(orig[pos as int].0 >= frame);
            }
            lemma_insert_entry_char(orig, frame, value, pos as int);
            lemma_insert_entry_sorted(orig, frame, value);
        }
        if pos < n && self.entries[pos].0 == frame {
            false
        } else {
            self.entries.insert(pos, (frame, value));
            true
        }
    }
}

impl<T> Confirmation<T> {
    /// The same label over the view of the held value.
    pub open spec fn map_view(self) -> Confirmation<Seq<u8>>
        where T: View<V = Seq<u8>>,
    {
        match self {
            Confirmation::Confirmed(t) => Confirmation::Confirmed(t@),
            Confirmation::Unconfirmed(t) => Confirmation::Unconfirmed(t@),
        }
    }
}

/// Removing any entry keeps the order and introduces no new key.
pub proof fn lemma_remove_sorted(es: Seq<(Frame, SerializedInput)>, i: int)
    requires
        entries_sorted(es),
        0 <= i < es.len(),
    ensures
        entries_sorted(es.remove(i)),
        forall|g: int| #[trigger] has_key(es.remove(i), g) ==> has_key(es, g),
{
    let r = es.remove(i);
    assert(forall|j: int| 0 <= j < i ==> r[j] == es[j]);
    assert(forall|j: int| i <= j < r.len() ==> r[j] == es[j + 1]);
    assert forall|a: int, b: int| 0 <= a < b < r.len() implies (r[a]).0 < (r[b]).0 by {
        if a < i && b < i {
        } else if a < i {
            assert(r[b] == es[b + 1]);
        } else {
            assert(r[a] == es[a + 1] && r[b] == es[b + 1]);
        }
    }
    assert forall|g: int| #[trigger] has_key(r, g) implies has_key(es, g) by {
        let j = choose|j: int| 0 <= j < r.len() && (#[trigger] r[j]).0 == g;
        if j < i {
            assert(es[j].0 == g);
        } else {
            assert(es[j + 1].0 == g);
        }
    }
}

/// In a sorted sequence, a later key exists exactly when the last entry's key
/// is later.
pub proof fn lemma_later_iff_last(es: Seq<(Frame, SerializedInput)>, f: int)
    requires
        entries_sorted(es),
    ensures
        has_later_key(es, f) == (es.len() > 0 && es.last().0 > f),
{
    if es.len() > 0 && es.last().0 > f {
        assert(has_later_key(es, f));
    } else if has_later_key(es, f) {
        let i = choose|i: int| 0 <= i < es.len() && (#[trigger] es[i]).0 > f;
        assert(es[i].0 <= es[es.len() - 1].0);
    }
}

/// At a present key, the read is defined and is `Confirmed` exactly when a
/// later key exists.
pub proof fn lemma_at_key_tag(es: Seq<(Frame, SerializedInput)>, f: Frame)
    requires
        entries_sorted(es),
        has_key(es, f as int),
    ensures
        at_spec(es, f as int) is Some,
        (at_spec(es, f as int)->Some_0 is Confirmed) == has_later_key(es, f as int),
{
    let k = choose|k: int| 0 <= k < es.len() && (#[trigger] es[k]).0 == f;
    lemma_at_spec_char(es, f as int, k);
    if k + 1 < es.len() {
        assert(es[k + 1].0 > f);
        assert(has_later_key(es, f as int));
    } else if has_later_key(es, f as int) {
        let i = choose|i: int| 0 <= i < es.len() && (#[trigger] es[i]).0 > f;
        assert(i <= k);
        assert(es[i].0 <= es[k].0);
        assert(false);
    }
}

/// Pairwise equality of entry lists up to the bytes' views.
pub open spec fn entries_match(
    a: Seq<(Frame, SerializedInput)>,
    b: Seq<(Frame, SerializedInput)>,
) -> bool {
    &&& a.len() == b.len()
    &&& forall|j: int| 0 <= j < a.len() ==> (#[trigger] a[j]).0 == (#[trigger] b[j]).0 && a[j].1@
        == b[j].1@
}

impl SparseInputs {
    /// Whether an entry exists at exactly `frame`.
    pub fn contains_key(&self, frame: Frame) -> (r: bool)
        ensures
            r == has_key(self.entries_view(), frame as int),
    {
        let mut i: usize = 0;
        while i < self.entries.len()
            invariant
                i <= self.entries@.len(),
                forall|j: int| 0 <= j < i ==> (#[trigger] self.entries@[j]).0 != frame,
            decreases self.entries@.len() - i,
        {
            if self.entries[i].0 == frame {
                return true;
            }
            i += 1;
        }
        false
    }

    /// Removes entries whose value merely repeats their predecessor's,
    /// starting at the compaction cursor and never touching the newest entry.
    /// Every hold-last read is preserved.
    fn compact(&mut self)
        requires
            old(self).wf(),
        ensures
            final(self).wf(),
            forall|f: int| at_spec(final(self).entries_view(), f) == at_spec(
                old(self).entries_view(),
                f,
            ),
            final(self).entries_view().len() > 0 <==> old(self).entries_view().len() > 0,
            final(self).entries_view().len() > 0 ==> final(self).entries_view().last() == old(self).entries_view().last(),
            forall|g: int| #[trigger] has_key(final(self).entries_view(), g) ==> has_key(
                old(self).entries_view(),
                g,
            ),
            old(self).entries_view().len() > 0 ==> final(self).entries_view()[0] == old(
                self,
            ).entries_view()[0],
            final(self).cursor_spec() >= old(self).cursor_spec(),
    {
        let ghost orig = self.entries@;
        let mut j: usize = 0;
        // Entries before the cursor were examined by earlier runs.
        while j < self.entries.len() && self.entries[j].0 < self.next_compact
            invariant
                j <= self.entries@.len(),
                *self == *old(self),
                forall|k: int|
                    0 <= k < j ==> (#[trigger] self.entries@[k]).0 < self.next_compact,
            decreases self.entries@.len() - j,
        {
            j += 1;
        }
        let mut cur: Frame = self.next_compact;
        while self.entries.len() >= 2 && j < self.entries.len() - 1
            invariant
                self.wf(),
                j <= self.entries@.len(),
                forall|f: int| at_spec(self.entries@, f) == at_spec(orig, f),
                self.entries@.len() > 0 <==> orig.len() > 0,
                self.entries@.len() > 0 ==> self.entries@.last() == orig.last(),
                orig.len() > 0 ==> self.entries@[0] == orig[0],
                forall|g: int| #[trigger] has_key(self.entries@, g) ==> has_key(orig, g),
                cur >= old(self).cursor_spec(),
                self.next_compact == old(self).cursor_spec(),
                j < self.entries@.len() ==> (self.entries@[j as int]).0 + 1 >= cur,
            decreases self.entries@.len() - j,
        {
            let dup = j > 0 && bytes_eq(&self.entries[j - 1].1, &self.entries[j].1);
            proof {
                assert(self.entries@[j as int].0 < self.entries@[self.entries@.len() - 1].0);
            }
            let key = self.entries[j].0;
            cur = key + 1;
            if dup {
                let ghost before = self.entries@;
                proof {
                    lemma_remove_sorted(before, j as int);
                    assert forall|f: int| at_spec(before.remove(j as int), f) == at_spec(
                        orig,
                        f,
                    ) by {
                        lemma_remove_dup_preserves(before, j as int, f);
                    }
                    assert(before.remove(j as int).last() == before.last());
                    assert(before.remove(j as int)[j as int] == before[j as int + 1]);
                }
                self.entries.remove(j);
            } else {
                j += 1;
            }
        }
        self.next_compact = cur;
    }

    /// Compacts the map, then stores `data` at `frame` unless the frame is
    /// already taken.  On success the read at `frame` yields exactly the
    /// captured bytes, `Confirmed` exactly when a later input already exists,
    /// and every earlier read keeps its value.
    pub fn capture_into(&mut self, frame: Frame, data: SerializedInput) -> (r: bool)
        requires
            old(self).wf(),
        ensures
            final(self).wf(),
            r == !has_key(old(self).entries_view(), frame as int),
            !r ==> *final(self) == *old(self),
            r ==> has_key(final(self).entries_view(), frame as int),
            r ==> at_spec(final(self).entries_view(), frame as int) == Some(
                if has_later_key(old(self).entries_view(), frame as int) {
                    Confirmation::Confirmed(data@)
                } else {
                    Confirmation::Unconfirmed(data@)
                },
            ),
            r ==> forall|g: int| g < frame ==> at_spec(final(self).entries_view(), g) == confirm(
                at_spec(old(self).entries_view(), g),
            ),
            has_key(old(self).entries_view(), 0) ==> has_key(final(self).entries_view(), 0),
            final(self).cursor_spec() >= old(self).cursor_spec(),
    {
        if self.contains_key(frame) {
            return false;
        }
        let ghost orig = self.entries@;
        self.compact();
        let ghost comp = self.entries@;
        let inserted = self.insert_if_absent(frame, data);
        proof {
            assert(inserted);
            lemma_insert_at_effect(comp, frame, data);
            lemma_insert_entry_sorted(comp, frame, data);
            lemma_later_iff_last(comp, frame as int);
            lemma_later_iff_last(orig, frame as int);
            assert forall|g: int| g < frame implies at_spec(self.entries@, g) == confirm(
                at_spec(orig, g),
            ) by {
                assert(at_spec(comp, g) == at_spec(orig, g));
            }
        }
        true
    }
}

/// The per-player inputs read at one frame, or the result of mapping them.
#[derive(Debug)]
pub struct PlayerInputs<T = Confirmation<SerializedInput>> {
    map: Vec<(PlayerId, T)>,
}

impl<T> PlayerInputs<T> {
    /// The held entries as a sequence of (player, value) pairs.
    pub closed spec fn entries_view(self) -> Seq<(PlayerId, T)> {
        self.map@
    }

    /// An empty collection.
    pub fn empty() -> (r: Self)
        ensures
            r.entries_view().len() == 0,
    {
        PlayerInputs { map: Vec::new() }
    }

    /// Appends one player's value.
    pub fn push(&mut self, player: PlayerId, value: T)
        ensures
            final(self).entries_view() == old(self).entries_view().push((player, value)),
    {
        self.map.push((player, value));
    }

    /// The number of players present.
    pub fn len(&self) -> (r: usize)
        ensures
            r == self.entries_view().len(),
    {
        self.map.len()
    }

    /// The entries, in insertion order.
    pub fn iter(&self) -> (r: &Vec<(PlayerId, T)>)
        ensures
            r@ == self.entries_view(),
    {
        &self.map
    }

    /// The value recorded for `player`, if any.
    pub fn get(&self, player: &PlayerId) -> (r: Option<&T>)
        ensures
            r matches Some(v) ==> exists|i: int|
                0 <= i < self.entries_view().len() && #[trigger] self.entries_view()[i] == (
                *player,
                *v,
                ),
            r is None ==> forall|i: int|
                0 <= i < self.entries_view().len() ==> (#[trigger] self.entries_view()[i]).0
                    != *player,
    {
        let mut i: usize = 0;
        while i < self.map.len()
            invariant
                i <= self.map@.len(),
                forall|j: int| 0 <= j < i ==> (#[trigger] self.map@[j]).0 != *player,
            decreases self.map@.len() - i,
        {
            if self.map[i].0 == *player {
                proof {
                    assert(self.entries_view()[i as int] == (*player, self.map@[i as int].1));
                }
                return Some(&self.map[i].1);
            }
            i += 1;
        }
        None
    }

    /// Applies `f` to every value, keeping the players.
    pub fn map<U, F: FnMut(T) -> U>(self, f: F) -> (r: PlayerInputs<U>)
        requires
            forall|t: T| #[trigger] f.requires((t,)),
        ensures
            r.entries_view().len() == self.entries_view().len(),
            forall|i: int| 0 <= i < r.entries_view().len() ==> (#[trigger] r.entries_view()[i]).0
                == self.entries_view()[i].0,
    {
        let mut f = f;
        let mut out: Vec<(PlayerId, U)> = Vec::new();
        let mut rest = self.map;
        let ghost orig = rest@;
        while rest.len() > 0
            invariant
                out@.len() + rest@.len() == orig.len(),
                rest@ =~= orig.skip(out@.len() as int),
                forall|j: int| 0 <= j < out@.len() ==> (#[trigger] out@[j]).0 == orig[j].0,
                forall|t: T| #[trigger] f.requires((t,)),
            decreases rest@.len(),
        {
            proof {
                assert(orig.skip(out@.len() as int)[0] == orig[out@.len() as int]);
            }
            let (p, t) = rest.remove(0);
            let u = f(t);
            out.push((p, u));
            proof {
                assert(rest@ =~= orig.skip(out@.len() as int));
            }
        }
        PlayerInputs { map: out }
    }
}

/// Whether every entry is confirmed.
pub open spec fn all_confirmed<T>(es: Seq<(PlayerId, Confirmation<T>)>) -> bool {
    forall|i: int| 0 <= i < es.len() ==> (#[trigger] es[i]).1 is Confirmed
}

impl<T> PlayerInputs<Confirmation<T>> {
    /// Whether inputs are present for the local player and every remote one.
    ///
    /// The collection never holds more than `remote_count + 1` players.
    pub fn is_fully_populated(&self, remote_count: usize) -> (r: bool)
        requires
            remote_count < usize::MAX,
        ensures
            r == (self.entries_view().len() == remote_count + 1),
    {
        self.map.len() == remote_count + 1
    }

    /// Whether inputs are present for every player and all of them are
    /// authoritative.
    pub fn is_fully_confirmed(&self, remote_count: usize) -> (r: bool)
        requires
            remote_count < usize::MAX,
        ensures
            r == (self.entries_view().len() == remote_count + 1 && all_confirmed(
                self.entries_view(),
            )),
    {
        if self.map.len() != remote_count + 1 {
            return false;
        }
        let mut i: usize = 0;
        while i < self.map.len()
            invariant
                i <= self.map@.len(),
                forall|j: int| 0 <= j < i ==> (#[trigger] self.map@[j]).1 is Confirmed,
            decreases self.map@.len() - i,
        {
            if !self.map[i].1.is_confirmed() {
                return false;
            }
            i += 1;
        }
        true
    }

    /// Applies `f` inside every confirmation label.
    pub fn deep_map<U, F: FnMut(T) -> U>(self, f: F) -> (r: PlayerInputs<Confirmation<U>>)
        requires
            forall|t: T| #[trigger] f.requires((t,)),
        ensures
            r.entries_view().len() == self.entries_view().len(),
            forall|i: int| 0 <= i < r.entries_view().len() ==> (#[trigger] r.entries_view()[i]).0
                == self.entries_view()[i].0 && (r.entries_view()[i].1 is Confirmed
                <==> self.entries_view()[i].1 is Confirmed),
    {
        let mut f = f;
        let mut out: Vec<(PlayerId, Confirmation<U>)> = Vec::new();
        let mut rest = self.map;
        let ghost orig = rest@;
        while rest.len() > 0
            invariant
                out@.len() + rest@.len() == orig.len(),
                rest@ =~= orig.skip(out@.len() as int),
                forall|j: int| 0 <= j < out@.len() ==> (#[trigger] out@[j]).0 == orig[j].0 && (
                out@[j].1 is Confirmed <==> orig[j].1 is Confirmed),
                forall|t: T| #[trigger] f.requires((t,)),
            decreases rest@.len(),
        {
            proof {
                assert(orig.skip(out@.len() as int)[0] == orig[out@.len() as int]);
            }
            let (p, c) = rest.remove(0);
            let c2 = match c {
                Confirmation::Confirmed(t) => Confirmation::Confirmed(f(t)),
                Confirmation::Unconfirmed(t) => Confirmation::Unconfirmed(f(t)),
            };
            out.push((p, c2));
            proof {
                assert(rest@ =~= orig.skip(out@.len() as int));
            }
        }
        PlayerInputs { map: out }
    }
}

/// One player's contribution to an aggregate read: nothing when the read is
/// undefined, the labelled value otherwise.
pub open spec fn read_contribution(e: (PlayerId, SparseInputs), f: int) -> Seq<
    (PlayerId, Confirmation<Seq<u8>>),
> {
    match at_spec(e.1.entries_view(), f) {
        None => Seq::empty(),
        Some(c) => seq![(e.0, c)],
    }
}

/// The aggregate read at frame `f`: each player's hold-last value, in storage
/// order, skipping players whose read is undefined.
pub open spec fn at_frame_spec(s: Seq<(PlayerId, SparseInputs)>, f: int) -> Seq<
    (PlayerId, Confirmation<Seq<u8>>),
>
    decreases s.len(),
{
    if s.len() == 0 {
        Seq::empty()
    } else {
        at_frame_spec(s.drop_last(), f) + read_contribution(s.last(), f)
    }
}

/// The aggregate read depends only on each player's id and entries: two
/// storages that agree on those agree on every aggregate read.  In
/// particular, peers that have exchanged identical inputs confirm identical
/// (frame, inputs) pairs.
pub proof fn lemma_at_frame_deterministic(
    s1: Seq<(PlayerId, SparseInputs)>,
    s2: Seq<(PlayerId, SparseInputs)>,
    f: int,
)
    requires
        s1.len() == s2.len(),
        forall|i: int| 0 <= i < s1.len() ==> (#[trigger] s1[i]).0 == (#[trigger] s2[i]).0
            && s1[i].1.entries_view() == s2[i].1.entries_view(),
    ensures
        at_frame_spec(s1, f) == at_frame_spec(s2, f),
    decreases s1.len(),
{
    if s1.len() > 0 {
        lemma_at_frame_deterministic(s1.drop_last(), s2.drop_last(), f);
        assert(s1.last() == s1[s1.len() - 1] && s2.last() == s2[s2.len() - 1]);
        assert(at_spec(s1.last().1.entries_view(), f) == at_spec(s2.last().1.entries_view(), f));
    }
}

/// Every key of a batch is present after merging it.
pub proof fn lemma_merge_adds(
    es: Seq<(Frame, SerializedInput)>,
    batch: Seq<(Frame, SerializedInput)>,
)
    requires
        entries_sorted(es),
    ensures
        entries_sorted(merge_entries(es, batch)),
        forall|j: int| 0 <= j < batch.len() ==> has_key(
            merge_entries(es, batch),
            (#[trigger] batch[j]).0 as int,
        ),
        forall|g: int| has_key(es, g) ==> #[trigger] has_key(merge_entries(es, batch), g),
    decreases batch.len(),
{
    if batch.len() > 0 {
        let es1 = insert_entry(es, batch[0].0, batch[0].1);
        lemma_insert_entry_sorted(es, batch[0].0, batch[0].1);
        lemma_merge_adds(es1, batch.skip(1));
        assert forall|j: int| 0 <= j < batch.len() implies has_key(
            merge_entries(es, batch),
            (#[trigger] batch[j]).0 as int,
        ) by {
            if j == 0 {
                assert(has_key(es1, batch[0].0 as int));
            } else {
                assert(batch.skip(1)[j - 1] == batch[j]);
            }
        }
    }
}

/// Merging a batch whose keys are all present already changes nothing.
pub proof fn lemma_merge_noop(
    es: Seq<(Frame, SerializedInput)>,
    batch: Seq<(Frame, SerializedInput)>,
)
    requires
        entries_sorted(es),
        forall|j: int| 0 <= j < batch.len() ==> has_key(es, (#[trigger] batch[j]).0 as int),
    ensures
        merge_entries(es, batch) == es,
    decreases batch.len(),
{
    if batch.len() > 0 {
        let pos = lemma_key_position(es, batch[0].0);
        lemma_insert_entry_char(es, batch[0].0, batch[0].1, pos);
        assert(has_key(es, batch[0].0 as int));
        assert(insert_entry(es, batch[0].0, batch[0].1) == es);
        assert(forall|j: int| 0 <= j < batch.skip(1).len() ==> batch.skip(1)[j] == batch[j + 1]);
        lemma_merge_noop(es, batch.skip(1));
    }
}

/// First-writer-wins merging is idempotent: applying the same remote batch a
/// second time leaves the store unchanged.
pub proof fn lemma_merge_idempotent(
    es: Seq<(Frame, SerializedInput)>,
    batch: Seq<(Frame, SerializedInput)>,
)
    requires
        entries_sorted(es),
    ensures
        merge_entries(merge_entries(es, batch), batch) == merge_entries(es, batch),
{
    lemma_merge_adds(es, batch);
    lemma_merge_noop(merge_entries(es, batch), batch);
}

/// The per-player time series of every participant, keyed by player id.
pub struct InputStorage {
    inputs: Vec<(PlayerId, SparseInputs)>,
    default: SerializedInput,
}

impl InputStorage {
    /// Player ids unique, every per-player map sorted.
    pub closed spec fn wf(self) -> bool {
        &&& forall|i: int, j: int|
            0 <= i < j < self.inputs@.len() ==> (#[trigger] self.inputs@[i]).0 != (
            #[trigger] self.inputs@[j]).0
        &&& forall|i: int| 0 <= i < self.inputs@.len() ==> (#[trigger] self.inputs@[i]).1.wf()
    }

    /// The stored players and their entries.
    pub closed spec fn players_view(self) -> Seq<(PlayerId, SparseInputs)> {
        self.inputs@
    }

    /// The configured default input blob.
    pub closed spec fn default_view(self) -> Seq<u8> {
        self.default@
    }

    /// A store holding no players yet, with the given default input blob.
    pub fn with_default(default: SerializedInput) -> (r: Self)
        ensures
            r.wf(),
            r.players_view().len() == 0,
            r.default_view() == default@,
    {
        InputStorage { inputs: Vec::new(), default }
    }

    /// The index of `id` in the player list, if present.
    fn find_player(&self, id: PlayerId) -> (r: Option<usize>)
        ensures
            r matches Some(i) ==> i < self.players_view().len() && self.players_view()[
                i as int
            ].0 == id,
            r is None ==> forall|i: int|
                0 <= i < self.players_view().len() ==> (#[trigger] self.players_view()[i]).0 != id,
    {
        let mut i: usize = 0;
        while i < self.inputs.len()
            invariant
                i <= self.inputs@.len(),
                forall|j: int| 0 <= j < i ==> (#[trigger] self.inputs@[j]).0 != id,
            decreases self.inputs@.len() - i,
        {
            if self.inputs[i].0 == id {
                return Some(i);
            }
            i += 1;
        }
        None
    }

    /// The index of `id`, creating the player on first use with the default
    /// input blob seeded at frame 0.
    pub fn sparse_mut(&mut self, id: PlayerId) -> (r: usize)
        requires
            old(self).wf(),
        ensures
            final(self).wf(),
            final(self).default_view() == old(self).default_view(),
            r < final(self).players_view().len(),
            final(self).players_view()[r as int].0 == id,
            (exists|i: int|
                0 <= i < old(self).players_view().len() && (#[trigger] old(self).players_view()[
                    i
                ]).0 == id) ==> *final(self) == *old(self),
            !(exists|i: int|
                0 <= i < old(self).players_view().len() && (#[trigger] old(self).players_view()[
                    i
                ]).0 == id) ==> {
                &&& final(self).players_view() == old(self).players_view().push(
                    (id, final(self).players_view().last().1),
                )
                &&& final(self).players_view().last().1.entries_view() == seq![
                    (0u32, final(self).players_view().last().1.entries_view()[0].1),
                ]
                &&& final(self).players_view().last().1.entries_view()[0].1@ == old(self).default_view()
            },
    {
        if let Some(i) = self.find_player(id) {
            return i;
        }
        let mut fresh = SparseInputs::empty();
        let _ = fresh.insert_if_absent(0, clone_bytes(&self.default));
        proof {
            assert(insert_entry(Seq::<(Frame, SerializedInput)>::empty(), 0u32, fresh.entries_view()[0].1)
                =~= seq![(0u32, fresh.entries_view()[0].1)]);
            assert(fresh.entries_view() =~= seq![(0u32, fresh.entries_view()[0].1)]);
        }
        self.inputs.push((id, fresh));
        self.inputs.len() - 1
    }
}


/// The (player, labelled bytes) pairs held by an aggregate read, as views.
pub open spec fn pi_view(pi: PlayerInputs) -> Seq<(PlayerId, Confirmation<Seq<u8>>)> {
    pi.entries_view().map_values(|e: (PlayerId, Confirmation<SerializedInput>)| (e.0, e.1.map_view()))
}

impl InputStorage {
    /// Captures the local player's input for `frame`.  Frame 0 is reserved
    /// for the configured default and is rejected, as is a frame that was
    /// already captured; the first writer wins.
    pub fn capture_into(&mut self, frame: Frame, local_id: PlayerId, data: SerializedInput) -> (r:
        bool)
        requires
            old(self).wf(),
        ensures
            final(self).wf(),
            r == (frame != 0 && !exists|i: int|
                0 <= i < old(self).players_view().len() && (#[trigger] old(self).players_view()[
                    i
                ]).0 == local_id && has_key(
                old(self).players_view()[i].1.entries_view(),
                frame as int,
            )),
            !r ==> final(self).players_view() == old(self).players_view(),
            final(self).default_view() == old(self).default_view(),
            r ==> exists|i: int|
                {
                    &&& 0 <= i < final(self).players_view().len()
                    &&& (#[trigger] final(self).players_view()[i]).0 == local_id
                    &&& at_spec(final(self).players_view()[i].1.entries_view(), frame as int)
                        == Some(
                        if has_later_key(final(self).players_view()[i].1.entries_view(), frame as int) {
                            Confirmation::Confirmed(data@)
                        } else {
                            Confirmation::Unconfirmed(data@)
                        },
                    )
                },
            forall|j: int|
                0 <= j < old(self).players_view().len() && (#[trigger] old(self).players_view()[
                    j
                ]).0 != local_id ==> j < final(self).players_view().len() && final(self).players_view()[j] == old(self).players_view()[j],
            final(self).players_view().len() <= old(self).players_view().len() + 1,
            forall|j: int|
                0 <= j < final(self).players_view().len() ==> (#[trigger] final(self).players_view()[j]).0 == local_id || (j < old(self).players_view().len() && final(self).players_view()[j].0 == old(self).players_view()[j].0),
            (forall|j: int|
                0 <= j < old(self).players_view().len() && (#[trigger] old(self).players_view()[
                    j
                ]).0 == local_id ==> has_key(old(self).players_view()[j].1.entries_view(), 0))
                ==> (forall|j: int|
                0 <= j < final(self).players_view().len() && (#[trigger] final(self).players_view()[j]).0 == local_id ==> has_key(
                    final(self).players_view()[j].1.entries_view(),
                    0,
                )),
    {
        if frame == 0 {
            return false;
        }
        let idx = self.sparse_mut(local_id);
        let ghost mid = self.players_view();
        let (pid, mut sp) = self.inputs.remove(idx);
        let ghost before_entries = sp.entries_view();
        let captured = sp.capture_into(frame, data);
        self.inputs.insert(idx, (pid, sp));
        proof {
            assert(self.inputs@ =~= mid.update(idx as int, (pid, sp)));
            assert(forall|j: int|
                0 <= j < mid.len() && j != idx ==> self.inputs@[j] == mid[j]);
            if captured {
                lemma_at_key_tag(sp.entries_view(), frame);
                assert(self.players_view()[idx as int].0 == local_id);
                assert(self.players_view()[idx as int].1 == sp);
            } else {
                // The frame was already captured, so the player existed
                // before and nothing changed.
                assert(has_key(before_entries, frame as int));
                assert(exists|i: int|
                    0 <= i < old(self).players_view().len() && (#[trigger] old(self).players_view()[i]).0 == local_id) by {
                    if !(exists|i: int|
                        0 <= i < old(self).players_view().len() && (#[trigger] old(self).players_view()[i]).0 == local_id) {
                        assert(before_entries[0].0 == 0);
                        assert(before_entries.len() == 1);
                        let w = choose|w: int|
                            0 <= w < before_entries.len() && (#[trigger] before_entries[w]).0
                                == frame;
                        assert(false);
                    }
                }
                assert(mid == old(self).players_view());
                assert(self.inputs@ =~= mid);
            }
        }
        captured
    }

    /// The aggregate hold-last read at `frame`: one labelled value per player
    /// whose read is defined, `None` when there is none at all.
    pub fn at_frame(&self, frame: Frame) -> (r: Option<PlayerInputs>)
        requires
            self.wf(),
        ensures
            r is Some <==> at_frame_spec(self.players_view(), frame as int).len() > 0,
            r matches Some(pi) ==> pi_view(pi) == at_frame_spec(self.players_view(), frame as int),
    {
        let mut out = PlayerInputs::empty();
        let mut i: usize = 0;
        while i < self.inputs.len()
            invariant
                self.wf(),
                i <= self.inputs@.len(),
                pi_view(out) =~= at_frame_spec(self.players_view().take(i as int), frame as int),
            decreases self.inputs@.len() - i,
        {
            let ghost prefix = self.players_view().take(i as int);
            proof {
                assert(self.players_view().take(i as int + 1).drop_last() =~= prefix);
                assert(self.players_view().take(i as int + 1).last() == self.players_view()[
                    i as int
                ]);
            }
            match self.inputs[i].1.at(frame) {
                None => {}
                Some(c) => {
                    out.push(self.inputs[i].0, c);
                    proof {
                        assert(pi_view(out) =~= at_frame_spec(
                            self.players_view().take(i as int + 1),
                            frame as int,
                        ));
                    }
                }
            }
            i += 1;
        }
        proof {
            assert(self.players_view().take(self.players_view().len() as int) =~= self
                .players_view());
        }
        if out.len() == 0 {
            proof {
                assert(pi_view(out).len() == 0);
            }
            None
        } else {
            Some(out)
        }
    }

    /// The number of keys strictly below `f` in a sorted sequence.
    pub open spec fn count_below(es: Seq<(Frame, SerializedInput)>, f: int) -> int
        decreases es.len(),
    {
        if es.len() == 0 {
            0
        } else if es.last().0 < f {
            es.len() as int
        } else {
            Self::count_below(es.drop_last(), f)
        }
    }

    /// The local player's recent inputs, every entry at or after `frame`,
    /// oldest first: the retransmission window sent to a peer.
    pub fn player_since_frame(&mut self, player_id: PlayerId, frame: Frame) -> (r: Vec<
        (Frame, SerializedInput),
    >)
        requires
            old(self).wf(),
        ensures
            final(self).wf(),
            final(self).default_view() == old(self).default_view(),
            final(self).players_view().len() <= old(self).players_view().len() + 1,
            forall|j: int|
                0 <= j < old(self).players_view().len() ==> j < final(self).players_view().len() && #[trigger] final(self).players_view()[j] == old(self).players_view()[j],
            forall|j: int|
                0 <= j < final(self).players_view().len() ==> (#[trigger] final(self).players_view()[j]).0 == player_id || (j < old(self).players_view().len()
                    && final(self).players_view()[j].0 == old(self).players_view()[j].0),
            forall|j: int|
                old(self).players_view().len() <= j < final(self).players_view().len()
                    ==> has_key((#[trigger] final(self).players_view()[j]).1.entries_view(), 0),
            exists|i: int|
                {
                    &&& 0 <= i < final(self).players_view().len()
                    &&& (#[trigger] final(self).players_view()[i]).0 == player_id
                    &&& entries_match(
                        r@,
                        final(self).players_view()[i].1.entries_view().skip(
                            Self::count_below(
                                final(self).players_view()[i].1.entries_view(),
                                frame as int,
                            ),
                        ),
                    )
                },
    {
        let idx = self.sparse_mut(player_id);
        let entries = self.inputs[idx].1.entries_ref();
        let ghost es = entries@;
        proof {
            Self::lemma_count_below_char(es, frame as int);
        }
        let mut pos: usize = 0;
        while pos < entries.len() && entries[pos].0 < frame
            invariant
                pos <= es.len(),
                es == entries@,
                entries_sorted(es),
                forall|j: int| 0 <= j < pos ==> (#[trigger] es[j]).0 < frame,
            decreases es.len() - pos,
        {
            pos += 1;
        }
        proof {
            if pos < es.len() {
                assert forall|j: int| pos <= j < es.len() implies (#[trigger] es[j]).0
                    >= frame by {
                    assert(es[pos as int].0 >= frame);
                }
            }
            assert(pos as int == Self::count_below(es, frame as int)) by {
                Self::lemma_count_below_unique(es, frame as int, pos as int);
            }
        }
        let mut out: Vec<(Frame, SerializedInput)> = Vec::new();
        let mut i = pos;
        while i < entries.len()
            invariant
                pos <= i <= es.len(),
                es == entries@,
                entries_match(out@, es.subrange(pos as int, i as int)),
            decreases es.len() - i,
        {
            let e = (entries[i].0, clone_bytes(&entries[i].1));
            proof {
                assert(e.1@ == es[i as int].1@);
            }
            out.push(e);
            proof {
                assert(out@.last() == e);
                assert(entries_match(out@, es.subrange(pos as int, i as int + 1)));
            }
            i += 1;
        }
        proof {
            assert(es.subrange(pos as int, es.len() as int) =~= es.skip(pos as int));
        }
        out
    }

    /// Characterisation of `count_below` on a sorted sequence.
    proof fn lemma_count_below_char(es: Seq<(Frame, SerializedInput)>, f: int)
        requires
            entries_sorted(es),
        ensures
            0 <= Self::count_below(es, f) <= es.len(),
            forall|j: int| 0 <= j < Self::count_below(es, f) ==> (#[trigger] es[j]).0 < f,
            forall|j: int|
                Self::count_below(es, f) <= j < es.len() ==> (#[trigger] es[j]).0 >= f,
        decreases es.len(),
    {
        if es.len() > 0 && !(es.last().0 < f) {
            let dl = es.drop_last();
            assert(entries_sorted(dl)) by {
                assert(forall|j: int| 0 <= j < dl.len() ==> dl[j] == es[j]);
            }
            Self::lemma_count_below_char(dl, f);
            assert(forall|j: int| 0 <= j < dl.len() ==> dl[j] == es[j]);
        }
    }

    /// Any position splitting keys below `f` from keys at or above it is the
    /// count of keys below `f`.
    proof fn lemma_count_below_unique(es: Seq<(Frame, SerializedInput)>, f: int, pos: int)
        requires
            entries_sorted(es),
            0 <= pos <= es.len(),
            forall|j: int| 0 <= j < pos ==> (#[trigger] es[j]).0 < f,
            forall|j: int| pos <= j < es.len() ==> (#[trigger] es[j]).0 >= f,
        ensures
            pos == Self::count_below(es, f),
    {
        Self::lemma_count_below_char(es, f);
        let c = Self::count_below(es, f);
        if pos < c {
            assert(es[pos].0 < f);
        } else if c < pos {
            assert(es[c].0 < f);
        }
    }

    /// Merges a batch of one remote player's inputs: each entry is stored
    /// only if its frame has no value yet, so the first writer wins and
    /// re-delivery changes nothing.
    pub fn merge_remote(&mut self, player: PlayerId, batch: Vec<(Frame, SerializedInput)>)
        requires
            old(self).wf(),
        ensures
            final(self).wf(),
            batch@.len() == 0 ==> final(self).players_view() == old(self).players_view(),
            final(self).default_view() == old(self).default_view(),
            batch@.len() > 0 ==> exists|i: int|
                {
                    &&& 0 <= i < final(self).players_view().len()
                    &&& (#[trigger] final(self).players_view()[i]).0 == player
                    &&& final(self).players_view()[i].1.entries_view() == merge_entries(
                        if exists|j: int|
                            0 <= j < old(self).players_view().len() && (#[trigger] old(self).players_view()[j]).0 == player {
                            old(self).players_view()[choose|j: int|
                                0 <= j < old(self).players_view().len() && (#[trigger] old(self).players_view()[j]).0 == player].1.entries_view()
                        } else {
                            Seq::empty()
                        },
                        batch@,
                    )
                },
            forall|j: int|
                0 <= j < old(self).players_view().len() && (#[trigger] old(self).players_view()[
                    j
                ]).0 != player ==> j < final(self).players_view().len() && final(self).players_view()[j] == old(self).players_view()[j],
            final(self).players_view().len() <= old(self).players_view().len() + 1,
            forall|j: int|
                0 <= j < final(self).players_view().len() ==> (#[trigger] final(self).players_view()[j]).0 == player || (j < old(self).players_view().len() && final(self).players_view()[j].0 == old(self).players_view()[j].0),
    {
        if batch.len() == 0 {
            return;
        }
        let idx = match self.find_player(player) {
            Some(i) => i,
            None => {
                self.inputs.push((player, SparseInputs::empty()));
                self.inputs.len() - 1
            },
        };
        let ghost mid = self.players_view();
        let ghost base = mid[idx as int].1.entries_view();
        let (pid, mut sp) = self.inputs.remove(idx);
        let mut rest = batch;
        let ghost whole = rest@;
        proof {
            assert(whole.skip(0) =~= whole);
        }
        while rest.len() > 0
            invariant
                sp.wf(),
                rest@.len() <= whole.len(),
                rest@ =~= whole.skip(whole.len() - rest@.len()),
                merge_entries(base, whole) == merge_entries(
                    sp.entries_view(),
                    whole.skip(whole.len() - rest@.len()),
                ),
            decreases rest@.len(),
        {
            let ghost k = whole.len() - rest@.len();
            proof {
                assert(whole.skip(k)[0] == whole[k]);
                assert(whole.skip(k).skip(1) =~= whole.skip(k + 1));
            }
            let (f, v) = rest.remove(0);
            sp.insert_if_absent(f, v);
        }
        proof {
            assert(whole.skip(whole.len() as int).len() == 0);
            assert(merge_entries(base, whole) == sp.entries_view());
        }
        self.inputs.insert(idx, (pid, sp));
        proof {
            assert(self.inputs@ =~= mid.update(idx as int, (pid, sp)));
            assert(forall|j: int| 0 <= j < mid.len() && j != idx ==> self.inputs@[j] == mid[j]);
            assert(self.players_view()[idx as int].0 == player);
            if exists|j: int|
                0 <= j < old(self).players_view().len() && (#[trigger] old(self).players_view()[
                    j
                ]).0 == player {
                let j = choose|j: int|
                    0 <= j < old(self).players_view().len() && (#[trigger] old(self).players_view()[j]).0 == player;
                assert(j == idx);
                assert(base == old(self).players_view()[j].1.entries_view());
            } else {
                assert(base =~= Seq::<(Frame, SerializedInput)>::empty());
            }
        }
    }
}

impl SparseInputs {
    /// A reference to the stored entries, oldest first.
    pub fn entries_ref(&self) -> (r: &Vec<(Frame, SerializedInput)>)
        ensures
            r@ == self.entries_view(),
    {
        &self.entries
    }
}


/// A read at or after any present key is defined.
pub proof fn lemma_at_defined(es: Seq<(Frame, SerializedInput)>, k: int, f: int)
    requires
        entries_sorted(es),
        has_key(es, k),
        k <= f,
    ensures
        at_spec(es, f) is Some,
    decreases es.len(),
{
    let i = choose|i: int| 0 <= i < es.len() && (#[trigger] es[i]).0 == k;
    if es.last().0 <= f {
    } else {
        let dl = es.drop_last();
        assert(entries_sorted(dl)) by {
            assert(forall|j: int| 0 <= j < dl.len() ==> dl[j] == es[j]);
        }
        assert(i < es.len() - 1);
        assert(dl[i].0 == k);
        assert(has_key(dl, k));
        lemma_at_defined(dl, k, f);
    }
}

/// An aggregate read never reports more players than the store holds.
pub proof fn lemma_at_frame_len(s: Seq<(PlayerId, SparseInputs)>, f: int)
    ensures
        at_frame_spec(s, f).len() <= s.len(),
    decreases s.len(),
{
    if s.len() > 0 {
        lemma_at_frame_len(s.drop_last(), f);
    }
}

/// A player whose read is defined makes the aggregate read non-empty.
pub proof fn lemma_at_frame_nonempty(s: Seq<(PlayerId, SparseInputs)>, i: int, f: int)
    requires
        0 <= i < s.len(),
        at_spec(s[i].1.entries_view(), f) is Some,
    ensures
        at_frame_spec(s, f).len() > 0,
    decreases s.len(),
{
    if i == s.len() - 1 {
        assert(s.last() == s[i]);
    } else {
        assert(s.drop_last()[i] == s[i]);
        lemma_at_frame_nonempty(s.drop_last(), i, f);
    }
}

impl InputStorage {
    /// Whether the player already has an input stored at exactly `frame`.
    pub fn has_input(&self, id: PlayerId, frame: Frame) -> (r: bool)
        requires
            self.wf(),
        ensures
            r == exists|i: int|
                0 <= i < self.players_view().len() && (#[trigger] self.players_view()[i]).0 == id
                    && has_key(self.players_view()[i].1.entries_view(), frame as int),
    {
        match self.find_player(id) {
            None => false,
            Some(i) => {
                let r = self.inputs[i].1.contains_key(frame);
                proof {
                    if r {
                        assert(self.players_view()[i as int].0 == id);
                    } else {
                        assert forall|j: int|
                            0 <= j < self.players_view().len() && (#[trigger] self.players_view()[
                                j
                            ]).0 == id implies !has_key(
                            self.players_view()[j].1.entries_view(),
                            frame as int,
                        ) by {
                            if j != i {
                                assert(self.players_view()[j].0 != self.players_view()[
                                    i as int
                                ].0 || j == i);
                            }
                        }
                    }
                }
                r
            },
        }
    }
}

/// Exposes that a well-formed store keeps every player's entries sorted.
pub proof fn lemma_storage_player_sorted(st: InputStorage, i: int)
    requires
        st.wf(),
        0 <= i < st.players_view().len(),
    ensures
        entries_sorted(st.players_view()[i].1.entries_view()),
{
}

} // verus!
