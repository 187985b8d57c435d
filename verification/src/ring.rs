//! The clipboard history ring: ordering, deduplication, pinning, eviction.
//!
//! Pure data structure — no I/O, no clock. The newest entry is index 0.
//! Capacity applies to *unpinned* entries only: pinned entries survive any
//! amount of new traffic, which is the whole point of pinning.

use vstd::prelude::*;
use vstd::std_specs::slice::{axiom_spec_slice_iter, into_iter_elts};
use vstd::utf8::{decode_utf8, encode_utf8, valid_utf8};
use crate::numtext::{dec_chars, push_dec};
use crate::osc52::{find, find_spec};
use crate::text::{lowercase, to_lowercase, utf8_str};

verus! {

/// One clipboard capture.
#[derive(Debug, Clone, PartialEq, Eq)]
pub struct Entry {
    /// Stable identifier, monotonically increasing across the ring's life.
    pub id: u64,
    /// Capture time, milliseconds since the Unix epoch.
    pub at_ms: u64,
    /// Pinned entries are never evicted by capacity.
    pub pinned: bool,
    /// The raw clipboard bytes (not necessarily UTF-8).
    pub data: Vec<u8>,
}

/// An entry as a mathematical value.
pub struct EntryView {
    pub id: u64,
    pub at_ms: u64,
    pub pinned: bool,
    pub data: Seq<u8>,
}

impl View for Entry {
    type V = EntryView;

    open spec fn view(&self) -> EntryView {
        EntryView { id: self.id, at_ms: self.at_ms, pinned: self.pinned, data: self.data@ }
    }
}

/// The text that clipboard bytes encode, when they are valid UTF-8.
pub open spec fn entry_text(data: Seq<u8>) -> Option<Seq<char>> {
    if valid_utf8(data) {
        Some(decode_utf8(data))
    } else {
        None
    }
}

impl Entry {
    /// The entry's content as text, if it is valid UTF-8.
    pub fn text(&self) -> (r: Option<&str>)
        ensures
            match entry_text(self.data@) {
                Some(t) => r matches Some(s) && s@ == t,
                None => r is None,
            },
    {
        utf8_str(self.data.as_slice())
    }
}

// ------------------------------------------------------------------ model

/// Number of unpinned entries in `s`.
pub open spec fn unpinned_count(s: Seq<EntryView>) -> nat
    decreases s.len(),
{
    if s.len() == 0 {
        0
    } else {
        (if s[0].pinned { 0nat } else { 1nat }) + unpinned_count(s.skip(1))
    }
}

/// Number of pinned entries in `s`.
pub open spec fn pinned_count_of(s: Seq<EntryView>) -> nat
    decreases s.len(),
{
    if s.len() == 0 {
        0
    } else {
        (if s[0].pinned { 1nat } else { 0nat }) + pinned_count_of(s.skip(1))
    }
}

/// `s` with every pinned entry and the `k` newest unpinned entries kept, in
/// order; older unpinned entries are dropped.
pub open spec fn keep_newest(s: Seq<EntryView>, k: nat) -> Seq<EntryView>
    decreases s.len(),
{
    if s.len() == 0 {
        seq![]
    } else if s[0].pinned {
        seq![s[0]] + keep_newest(s.skip(1), k)
    } else if k > 0 {
        seq![s[0]] + keep_newest(s.skip(1), (k - 1) as nat)
    } else {
        keep_newest(s.skip(1), k)
    }
}

/// The pinned entries of `s`, in order.
pub open spec fn pinned_only(s: Seq<EntryView>) -> Seq<EntryView> {
    keep_newest(s, 0)
}

/// Index of the first entry holding exactly `data`.
pub open spec fn position_of(s: Seq<EntryView>, data: Seq<u8>) -> Option<int>
    decreases s.len(),
{
    if s.len() == 0 {
        None
    } else if s[0].data == data {
        Some(0)
    } else {
        match position_of(s.skip(1), data) {
            Some(k) => Some(k + 1),
            None => None,
        }
    }
}

/// The largest id in `s`, 0 when empty.
pub open spec fn max_id(s: Seq<EntryView>) -> nat
    decreases s.len(),
{
    if s.len() == 0 {
        0
    } else {
        let m = max_id(s.skip(1));
        if s[0].id > m {
            s[0].id as nat
        } else {
            m
        }
    }
}

/// `e` with its timestamp replaced.
pub open spec fn touched(e: EntryView, now_ms: u64) -> EntryView {
    EntryView { at_ms: now_ms, ..e }
}

/// `e` with its pin state replaced.
pub open spec fn with_pin(e: EntryView, pinned: bool) -> EntryView {
    EntryView { pinned, ..e }
}

/// The entry at `index` moved to the front with a fresh timestamp.
pub open spec fn promoted(s: Seq<EntryView>, index: int, now_ms: u64) -> Seq<EntryView> {
    seq![touched(s[index], now_ms)] + s.remove(index)
}

/// The ring after `push`: identical bytes already present are promoted;
/// otherwise a new unpinned entry with id `next_id` goes in front and the
/// capacity is applied.
pub open spec fn pushed(
    s: Seq<EntryView>,
    data: Seq<u8>,
    now_ms: u64,
    next_id: u64,
    capacity: nat,
) -> Seq<EntryView> {
    match position_of(s, data) {
        Some(p) => promoted(s, p, now_ms),
        None => keep_newest(
            seq![EntryView { id: next_id, at_ms: now_ms, pinned: false, data }] + s,
            capacity,
        ),
    }
}

/// The text `"y"` or `"ies"` that completes "entr…" for a count.
pub open spec fn plural_y_chars(n: nat) -> Seq<char> {
    if n == 1 {
        "y"@
    } else {
        "ies"@
    }
}

/// The error for an index past the end of a ring of `len` entries.
pub open spec fn no_entry_message(index: nat, len: nat) -> Seq<char> {
    "no entry "@ + dec_chars(index) + " (history has "@ + dec_chars(len) + " entr"@
        + plural_y_chars(len) + ")"@
}

/// Whether an entry is text whose lower-case form contains `needle_lower`
/// (compared as UTF-8 bytes, as `str::contains` does).
pub open spec fn text_matches(e: EntryView, needle_lower: Seq<char>) -> bool {
    valid_utf8(e.data) && find_spec(
        encode_utf8(lowercase(decode_utf8(e.data))),
        encode_utf8(needle_lower),
    ) is Some
}

/// Indices below `k` of entries matching `needle_lower`, in increasing order.
pub open spec fn matching_indices(s: Seq<EntryView>, needle_lower: Seq<char>, k: nat) -> Seq<usize>
    decreases k,
{
    if k == 0 {
        seq![]
    } else {
        let prev = matching_indices(s, needle_lower, (k - 1) as nat);
        if text_matches(s[k - 1], needle_lower) {
            prev.push((k - 1) as usize)
        } else {
            prev
        }
    }
}

// ------------------------------------------------------------------ lemmas

/// The indices that `matching_indices` lists among the first `k` entries lie
/// below `k` and strictly increase.
pub proof fn lemma_matching_indices_ordered(s: Seq<EntryView>, needle_lower: Seq<char>, k: nat)
    requires
        k <= s.len(),
        s.len() <= usize::MAX,
    ensures
        forall|a: int| 0 <= a < matching_indices(s, needle_lower, k).len()
            ==> #[trigger] matching_indices(s, needle_lower, k)[a] < k,
        forall|a: int, b: int| 0 <= a < b < matching_indices(s, needle_lower, k).len()
            ==> matching_indices(s, needle_lower, k)[a] < matching_indices(s, needle_lower, k)[b],
    decreases k,
{
    if k > 0 {
        let prev = matching_indices(s, needle_lower, (k - 1) as nat);
        lemma_matching_indices_ordered(s, needle_lower, (k - 1) as nat);
        if text_matches(s[k - 1], needle_lower) {
            let cur = prev.push((k - 1) as usize);
            assert(cur[prev.len() as int] == k - 1);
            assert forall|a: int, b: int| 0 <= a < b < cur.len() implies cur[a] < cur[b] by {
                if b < prev.len() {
                    assert(cur[a] == prev[a] && cur[b] == prev[b]);
                } else {
                    assert(cur[a] == prev[a]);
                }
            }
            assert forall|a: int| 0 <= a < cur.len() implies #[trigger] cur[a] < k by {
                if a < prev.len() {
                    assert(cur[a] == prev[a]);
                }
            }
        }
    }
}

/// Promotion is move-to-front: the chosen entry comes first, with the same
/// id, bytes and pin and the new timestamp; the entries that were before it
/// each move one place back, and those after it keep their places.
pub proof fn lemma_promote_moves_to_front(s: Seq<EntryView>, index: int, now_ms: u64)
    requires
        0 <= index < s.len(),
    ensures
        promoted(s, index, now_ms).len() == s.len(),
        promoted(s, index, now_ms)[0].id == s[index].id,
        promoted(s, index, now_ms)[0].data == s[index].data,
        promoted(s, index, now_ms)[0].pinned == s[index].pinned,
        promoted(s, index, now_ms)[0].at_ms == now_ms,
        forall|j: int| 0 < j <= index ==> #[trigger] promoted(s, index, now_ms)[j] == s[j - 1],
        forall|j: int| index < j < s.len() ==> #[trigger] promoted(s, index, now_ms)[j] == s[j],
{
}

/// The hits of a search are exactly the entries that match: index `i` below
/// `k` is listed if and only if entry `i` matches the needle.
pub proof fn lemma_search_hits(s: Seq<EntryView>, needle_lower: Seq<char>, k: nat, i: int)
    requires
        0 <= i < k,
        k <= s.len(),
        s.len() <= usize::MAX,
    ensures
        matching_indices(s, needle_lower, k).contains(i as usize) <==> text_matches(s[i], needle_lower),
    decreases k,
{
    let prev = matching_indices(s, needle_lower, (k - 1) as nat);
    lemma_matching_indices_ordered(s, needle_lower, (k - 1) as nat);
    if i < k - 1 {
        lemma_search_hits(s, needle_lower, (k - 1) as nat, i);
        if text_matches(s[k - 1], needle_lower) {
            let cur = prev.push((k - 1) as usize);
            if cur.contains(i as usize) {
                let a = choose|a: int| 0 <= a < cur.len() && cur[a] == i as usize;
                assert(a < prev.len());
                assert(prev[a] == i as usize);
            }
            if prev.contains(i as usize) {
                let a = choose|a: int| 0 <= a < prev.len() && prev[a] == i as usize;
                assert(cur[a] == i as usize);
            }
        }
    } else {
        if text_matches(s[k - 1], needle_lower) {
            let cur = prev.push((k - 1) as usize);
            assert(cur[prev.len() as int] == i as usize);
        } else {
            if prev.contains(i as usize) {
                let a = choose|a: int| 0 <= a < prev.len() && prev[a] == i as usize;
                assert(prev[a] < k - 1);
            }
        }
    }
}

/// Search reads an entry's bytes and nothing else: two rings whose entries
/// hold the same bytes, position by position, give the same hits for every
/// needle, whatever their ids, timestamps and pins.
pub proof fn lemma_search_reads_bytes_only(s1: Seq<EntryView>, s2: Seq<EntryView>, needle_lower: Seq<char>, k: nat)
    requires
        k <= s1.len(),
        s1.len() == s2.len(),
        forall|i: int| 0 <= i < s1.len() ==> #[trigger] s1[i].data == s2[i].data,
    ensures
        matching_indices(s1, needle_lower, k) == matching_indices(s2, needle_lower, k),
    decreases k,
{
    if k > 0 {
        lemma_search_reads_bytes_only(s1, s2, needle_lower, (k - 1) as nat);
        assert(s1[k - 1].data == s2[k - 1].data);
    }
}

/// Bytes that are not UTF-8 never match; text always matches the empty
/// needle and its own lower-cased form.
pub proof fn lemma_text_matches_basics(e: EntryView, needle_lower: Seq<char>)
    ensures
        !valid_utf8(e.data) ==> !text_matches(e, needle_lower),
        valid_utf8(e.data) ==> text_matches(e, seq![]),
        valid_utf8(e.data) ==> text_matches(e, lowercase(decode_utf8(e.data))),
{
    let h = encode_utf8(lowercase(decode_utf8(e.data)));
    assert(h.take(h.len() as int) =~= h);
    assert(encode_utf8(Seq::<char>::empty()) =~= Seq::<u8>::empty());
    assert(h.take(0) =~= Seq::<u8>::empty());
}

proof fn lemma_keep_newest_count(s: Seq<EntryView>, k: nat)
    ensures
        unpinned_count(keep_newest(s, k)) == if unpinned_count(s) < k {
            unpinned_count(s)
        } else {
            k
        },
        unpinned_count(keep_newest(s, k)) <= k,
        keep_newest(s, k).len() <= s.len(),
        pinned_count_of(keep_newest(s, k)) == pinned_count_of(s),
        forall|i: int| 0 <= i < keep_newest(s, k).len() ==> s.contains(#[trigger] keep_newest(s, k)[i]),
    decreases s.len(),
{
    if s.len() > 0 {
        let t = s.skip(1);
        let k2 = if !s[0].pinned && k > 0 { (k - 1) as nat } else { k };
        lemma_keep_newest_count(t, k2);
        let r = keep_newest(s, k);
        let rt = keep_newest(t, k2);
        if s[0].pinned || k > 0 {
            assert(r == seq![s[0]] + rt);
            assert((seq![s[0]] + rt).skip(1) =~= rt);
            assert forall|i: int| 0 <= i < r.len() implies s.contains(#[trigger] r[i]) by {
                if i == 0 {
                    assert(s[0] == r[0]);
                } else {
                    assert(r[i] == rt[i - 1]);
                    let j = choose|j: int| 0 <= j < t.len() && t[j] == rt[i - 1];
                    assert(s[j + 1] == t[j]);
                }
            }
        } else {
            assert forall|i: int| 0 <= i < r.len() implies s.contains(#[trigger] r[i]) by {
                let j = choose|j: int| 0 <= j < t.len() && t[j] == rt[i];
                assert(s[j + 1] == t[j]);
            }
        }
    }
}

/// Keeping the newest `k` unpinned entries changes nothing when there are
/// no more than `k` of them.
pub proof fn lemma_keep_newest_noop(s: Seq<EntryView>, k: nat)
    requires
        unpinned_count(s) <= k,
    ensures
        keep_newest(s, k) == s,
    decreases s.len(),
{
    if s.len() > 0 {
        let t = s.skip(1);
        let k2 = if !s[0].pinned { (k - 1) as nat } else { k };
        lemma_keep_newest_noop(t, k2);
        assert(s =~= seq![s[0]] + t);
    }
}

proof fn lemma_count_concat(a: Seq<EntryView>, b: Seq<EntryView>)
    ensures
        unpinned_count(a + b) == unpinned_count(a) + unpinned_count(b),
        pinned_count_of(a + b) == pinned_count_of(a) + pinned_count_of(b),
    decreases a.len(),
{
    if a.len() == 0 {
        assert(a + b =~= b);
    } else {
        assert((a + b).skip(1) =~= a.skip(1) + b);
        lemma_count_concat(a.skip(1), b);
    }
}

proof fn lemma_count_single(x: EntryView)
    ensures
        unpinned_count(seq![x]) == (if x.pinned { 0nat } else { 1nat }),
        pinned_count_of(seq![x]) == (if x.pinned { 1nat } else { 0nat }),
        max_id(seq![x]) == x.id,
{
    assert(seq![x].skip(1) =~= Seq::<EntryView>::empty());
    assert(unpinned_count(Seq::<EntryView>::empty()) == 0);
    assert(pinned_count_of(Seq::<EntryView>::empty()) == 0);
    assert(max_id(Seq::<EntryView>::empty()) == 0);
}

proof fn lemma_count_split(s: Seq<EntryView>, i: int)
    requires
        0 <= i < s.len(),
    ensures
        unpinned_count(s) == unpinned_count(s.remove(i)) + (if s[i].pinned { 0nat } else { 1nat }),
        pinned_count_of(s) == pinned_count_of(s.remove(i)) + (if s[i].pinned { 1nat } else { 0nat }),
{
    let a = s.take(i);
    let b = s.skip(i + 1);
    let m = seq![s[i]];
    assert(s =~= a + (m + b));
    assert(s.remove(i) =~= a + b);
    lemma_count_single(s[i]);
    lemma_count_concat(a, m + b);
    lemma_count_concat(m, b);
    lemma_count_concat(a, b);
}

proof fn lemma_count_bounds(s: Seq<EntryView>)
    ensures
        unpinned_count(s) + pinned_count_of(s) == s.len(),
    decreases s.len(),
{
    if s.len() > 0 {
        lemma_count_bounds(s.skip(1));
    }
}

proof fn lemma_position_of(s: Seq<EntryView>, data: Seq<u8>)
    ensures
        position_of(s, data) matches Some(p) ==> 0 <= p < s.len() && s[p].data == data
            && forall|j: int| 0 <= j < p ==> s[j].data != data,
        position_of(s, data) is None ==> forall|j: int| 0 <= j < s.len() ==> s[j].data != data,
    decreases s.len(),
{
    if s.len() > 0 && s[0].data != data {
        lemma_position_of(s.skip(1), data);
        assert forall|j: int| 1 <= j < s.len() implies s[j] == s.skip(1)[j - 1] by {}
    }
}

proof fn lemma_max_id(s: Seq<EntryView>)
    ensures
        forall|i: int| 0 <= i < s.len() ==> s[i].id <= max_id(s),
        s.len() == 0 ==> max_id(s) == 0,
        s.len() > 0 ==> exists|i: int| 0 <= i < s.len() && s[i].id == max_id(s),
    decreases s.len(),
{
    if s.len() > 0 {
        lemma_max_id(s.skip(1));
        assert forall|i: int| 1 <= i < s.len() implies s[i] == s.skip(1)[i - 1] by {}
        if max_id(s.skip(1)) >= s[0].id && s.len() > 1 {
            let j = choose|j: int| 0 <= j < s.skip(1).len() && s.skip(1)[j].id == max_id(s.skip(1));
            assert(s[j + 1].id == max_id(s));
        }
    }
}

proof fn lemma_max_of(s: Seq<EntryView>, bound: nat)
    requires
        forall|i: int| 0 <= i < s.len() ==> s[i].id < bound,
    ensures
        s.len() > 0 ==> max_id(s) < bound,
{
    lemma_max_id(s);
}

// ------------------------------------------------------------------ ring

/// History ring; index 0 is the newest entry.
#[derive(Debug)]
pub struct Ring {
    entries: Vec<Entry>,
    capacity: usize,
    next_id: u64,
}

impl View for Ring {
    type V = Seq<EntryView>;

    closed spec fn view(&self) -> Seq<EntryView> {
        self.entries@.map_values(|e: Entry| e@)
    }
}

impl Ring {
    /// The capacity: how many unpinned entries the ring keeps.
    pub closed spec fn cap(&self) -> nat {
        self.capacity as nat
    }

    /// The id the next new entry will get.
    pub closed spec fn next_id_spec(&self) -> nat {
        self.next_id as nat
    }

    /// The ring's invariant: a capacity of at least one, no more unpinned
    /// entries than the capacity, and every id below the next one.
    pub closed spec fn wf(&self) -> bool {
        &&& self.capacity >= 1
        &&& unpinned_count(self@) <= self.capacity
        &&& forall|i: int| 0 <= i < self@.len() ==> #[trigger] self@[i].id < self.next_id
    }

    pub fn new(capacity: usize) -> (r: Ring)
        ensures
            r.wf(),
            r@ == Seq::<EntryView>::empty(),
            r.cap() == if capacity >= 1 { capacity as nat } else { 1 },
            r.next_id_spec() == 1,
    {
        let r = Ring { entries: Vec::new(), capacity: if capacity >= 1 { capacity } else { 1 }, next_id: 1 };
        proof {
            assert(r@ =~= Seq::<EntryView>::empty());
        }
        r
    }

    /// Rebuild a ring from stored entries (newest first, as saved).
    pub fn from_entries(entries: Vec<Entry>, capacity: usize) -> (r: Ring)
        requires
            forall|i: int| 0 <= i < entries@.len() ==> #[trigger] entries@[i].id < u64::MAX,
        ensures
            r.wf(),
            r.cap() == if capacity >= 1 { capacity as nat } else { 1 },
            r@ == keep_newest(entries@.map_values(|e: Entry| e@), r.cap()),
            r.next_id_spec() == max_id(entries@.map_values(|e: Entry| e@)) + 1,
            distinct_ids(entries@.map_values(|e: Entry| e@)) ==> distinct_ids(r@),
    {
        let ghost s = entries@.map_values(|e: Entry| e@);
        let mut max: u64 = 0;
        let mut i: usize = 0;
        while i < entries.len()
            invariant
                i <= entries@.len(),
                s == entries@.map_values(|e: Entry| e@),
                forall|j: int| 0 <= j < entries@.len() ==> #[trigger] entries@[j].id < u64::MAX,
                max == if i == 0 { 0 } else { max_id(s.subrange(0, i as int)) },
                max < u64::MAX,
            decreases entries@.len() - i,
        {
            proof {
                lemma_max_to_prefix(s, i as int);
            }
            if entries[i].id > max {
                max = entries[i].id;
            }
            i = i + 1;
        }
        proof {
            assert(s.subrange(0, entries@.len() as int) =~= s);
        }
        let mut ring = Ring {
            entries,
            capacity: if capacity >= 1 { capacity } else { 1 },
            next_id: max + 1,
        };
        proof {
            lemma_max_id(s);
            assert(ring@ == s);
        }
        let ghost cap = ring.capacity as nat;
        ring.retain_newest(ring.capacity);
        proof {
            if distinct_ids(s) {
                lemma_keep_newest_distinct_ids(s, cap);
            }
            lemma_keep_newest_count(s, cap);
            assert forall|i: int| 0 <= i < ring@.len() implies #[trigger] ring@[i].id < ring.next_id by {
                let j = choose|j: int| 0 <= j < s.len() && s[j] == keep_newest(s, cap)[i];
            }
        }
        ring
    }

    /// Number of entries.
    pub fn len(&self) -> (n: usize)
        ensures
            n == self@.len(),
    {
        self.entries.len()
    }

    /// Whether the ring holds no entry.
    pub fn is_empty(&self) -> (b: bool)
        ensures
            b == (self@.len() == 0),
    {
        self.entries.len() == 0
    }

    /// The capacity for unpinned entries.
    pub fn capacity(&self) -> (c: usize)
        ensures
            c == self.cap(),
    {
        self.capacity
    }

    /// The id that the next new entry will get.
    pub fn next_id(&self) -> (n: u64)
        ensures
            n == self.next_id_spec(),
    {
        self.next_id
    }

    /// Number of pinned entries.
    pub fn pinned_count(&self) -> (n: usize)
        ensures
            n == pinned_count_of(self@),
    {
        let mut n: usize = 0;
        let mut i: usize = 0;
        proof {
            assert(self@.skip(0) =~= self@);
        }
        while i < self.entries.len()
            invariant
                i <= self@.len(),
                self@.len() == self.entries@.len(),
                n + pinned_count_of(self@.skip(i as int)) == pinned_count_of(self@),
                n <= i,
            decreases self@.len() - i,
        {
            proof {
                assert(self@.skip(i as int).skip(1) =~= self@.skip(i + 1));
                assert(self@.skip(i as int)[0] == self.entries@[i as int]@);
            }
            if self.entries[i].pinned {
                n = n + 1;
            }
            i = i + 1;
        }
        proof {
            assert(self@.skip(i as int) =~= Seq::<EntryView>::empty());
        }
        n
    }

    /// Iterate over the entries, newest first.
    pub fn iter(&self) -> (it: std::slice::Iter<'_, Entry>)
        ensures
            into_iter_elts(it).map_values(|e: Entry| e@) == self@,
    {
        let sl = self.entries.as_slice();
        let it = sl.iter();
        proof {
            axiom_spec_slice_iter(sl);
        }
        it
    }

    /// The entry at `index`, if there is one.
    pub fn get(&self, index: usize) -> (r: Option<&Entry>)
        ensures
            index < self@.len() ==> (r matches Some(e) && e@ == self@[index as int]),
            index >= self@.len() ==> r is None,
    {
        if index < self.entries.len() {
            Some(&self.entries[index])
        } else {
            None
        }
    }

    /// Drop unpinned entries beyond the `k` newest.
    fn retain_newest(&mut self, k: usize)
        ensures
            final(self)@ == keep_newest(old(self)@, k as nat),
            final(self).capacity == old(self).capacity,
            final(self).next_id == old(self).next_id,
    {
        let ghost s = self@;
        let mut i: usize = 0;
        let mut budget: usize = k;
        proof {
            assert(s.take(0) + s.skip(0) =~= s);
            assert(s.skip(0) =~= s);
            assert(self@.take(0) =~= Seq::<EntryView>::empty());
        }
        while i < self.entries.len()
            invariant
                i <= self@.len(),
                self@.len() == self.entries@.len(),
                self.capacity == old(self).capacity,
                self.next_id == old(self).next_id,
                keep_newest(s, k as nat) == self@.take(i as int) + keep_newest(self@.skip(i as int), budget as nat),
            decreases self@.len() - i,
        {
            let ghost cur = self@;
            let ghost rest = cur.skip(i as int);
            proof {
                assert(rest[0] == self.entries@[i as int]@);
                assert(rest.skip(1) =~= cur.skip(i + 1));
            }
            if self.entries[i].pinned || budget > 0 {
                if !self.entries[i].pinned {
                    budget = budget - 1;
                }
                proof {
                    assert(cur.take(i + 1) =~= cur.take(i as int) + seq![rest[0]]);
                }
                i = i + 1;
            } else {
                let _dropped = self.entries.remove(i);
                proof {
                    assert(self@ =~= cur.remove(i as int));
                    assert(self@.take(i as int) =~= cur.take(i as int));
                    assert(self@.skip(i as int) =~= rest.skip(1));
                }
            }
        }
        proof {
            assert(self@.take(i as int) =~= self@);
            assert(self@.skip(i as int) =~= Seq::<EntryView>::empty());
        }
    }

    fn find_data(&self, data: &Vec<u8>) -> (r: Option<usize>)
        ensures
            match r {
                Some(i) => position_of(self@, data@) == Some(i as int),
                None => position_of(self@, data@) is None,
            },
    {
        let mut i: usize = 0;
        proof {
            assert(self@.skip(0) =~= self@);
        }
        while i < self.entries.len()
            invariant
                i <= self@.len(),
                self@.len() == self.entries@.len(),
                position_of(self@, data@) == match position_of(self@.skip(i as int), data@) {
                    Some(k) => Some(k + i),
                    None => None,
                },
            decreases self@.len() - i,
        {
            let ghost rest = self@.skip(i as int);
            proof {
                assert(rest[0] == self.entries@[i as int]@);
                assert(rest.skip(1) =~= self@.skip(i + 1));
            }
            if same_bytes(&self.entries[i].data, data) {
                return Some(i);
            }
            i = i + 1;
        }
        None
    }

    /// Insert `data` at the front. If identical bytes already exist anywhere
    /// in the ring, that entry is *promoted* instead of duplicated — its id
    /// and pin state survive, its timestamp is refreshed. Returns the entry,
    /// now at index 0.
    pub fn push(&mut self, data: Vec<u8>, now_ms: u64) -> (r: &Entry)
        requires
            old(self).wf(),
            position_of(old(self)@, data@) is None ==> old(self).next_id_spec() < u64::MAX,
        ensures
            final(self).wf(),
            final(self).cap() == old(self).cap(),
            final(self)@ == pushed(old(self)@, data@, now_ms, old(self).next_id_spec() as u64, old(self).cap()),
            final(self).next_id_spec() == if position_of(old(self)@, data@) is Some {
                old(self).next_id_spec()
            } else {
                old(self).next_id_spec() + 1
            },
            final(self)@.len() > 0,
            r@ == final(self)@[0],
            distinct_ids(old(self)@) ==> distinct_ids(final(self)@),
            position_of(old(self)@, data@) matches Some(p) ==> {
                &&& final(self)@.len() == old(self)@.len()
                &&& final(self)@[0].id == old(self)@[p].id
                &&& final(self)@[0].data == data@
                &&& final(self)@[0].pinned == old(self)@[p].pinned
                &&& final(self)@[0].at_ms == now_ms
                &&& forall|j: int| 0 < j <= p ==> #[trigger] final(self)@[j] == old(self)@[j - 1]
                &&& forall|j: int| p < j < old(self)@.len() ==> #[trigger] final(self)@[j] == old(self)@[j]
            },
            forall|i: int| 0 <= i < old(self)@.len() && (#[trigger] old(self)@[i]).pinned ==> exists|j: int|
                0 <= j < final(self)@.len() && (#[trigger] final(self)@[j]).id == old(self)@[i].id
                    && final(self)@[j].data == old(self)@[i].data && final(self)@[j].pinned,
    {
        let ghost s = self@;
        proof {
            if distinct_ids(s) {
                lemma_push_distinct_ids(s, data@, now_ms, self.next_id, self.capacity as nat);
            }
            let after = pushed(s, data@, now_ms, self.next_id, self.capacity as nat);
            assert forall|i: int| 0 <= i < s.len() && (#[trigger] s[i]).pinned implies exists|j: int|
                0 <= j < after.len() && (#[trigger] after[j]).id == s[i].id && after[j].data == s[i].data
                    && after[j].pinned by {
                lemma_push_keeps_pinned(s, data@, now_ms, self.next_id, self.capacity as nat, i);
            }
        }
        let ghost d = data@;
        let ghost next = self.next_id;
        let ghost cap = self.capacity as nat;
        proof {
            lemma_position_of(s, data@);
            if let Some(p) = position_of(s, data@) {
                lemma_promote_moves_to_front(s, p, now_ms);
            }
        }
        match self.find_data(&data) {
            Some(pos) => {
                let mut entry = self.entries.remove(pos);
                entry.at_ms = now_ms;
                self.entries.insert(0, entry);
                proof {
                    assert(self@ =~= promoted(s, pos as int, now_ms));
                    assert(position_of(s, d) == Some(pos as int));
                    assert(self@ == pushed(s, d, now_ms, next, cap));
                    lemma_count_split(s, pos as int);
                    lemma_count_concat(seq![touched(s[pos as int], now_ms)], s.remove(pos as int));
                    lemma_count_single(touched(s[pos as int], now_ms));
                    assert forall|i: int| 0 <= i < self@.len() implies #[trigger] self@[i].id < self.next_id by {
                        if i == 0 {
                            assert(self@[0].id == s[pos as int].id);
                        } else if i <= pos {
                            assert(self@[i] == s[i - 1]);
                        } else {
                            assert(self@[i] == s[i]);
                        }
                    }
                }
            },
            None => {
                let entry = Entry { id: self.next_id, at_ms: now_ms, pinned: false, data };
                self.entries.insert(0, entry);
                self.next_id = self.next_id + 1;
                let ghost grown = self@;
                proof {
                    assert(grown =~= seq![entry@] + s);
                    assert(grown.skip(1) =~= s);
                    assert(grown[0] == entry@);
                }
                self.retain_newest(self.capacity);
                proof {
                    lemma_keep_newest_count(grown, self.capacity as nat);
                    lemma_count_concat(seq![entry@], s);
                    lemma_count_single(entry@);
                    assert(keep_newest(grown, self.capacity as nat) == seq![entry@] + keep_newest(s, (self.capacity - 1) as nat));
                    assert forall|i: int| 0 <= i < self@.len() implies #[trigger] self@[i].id < self.next_id by {
                        let j = choose|j: int| 0 <= j < grown.len() && grown[j] == keep_newest(grown, self.capacity as nat)[i];
                        if j > 0 {
                            assert(grown[j] == s[j - 1]);
                        }
                    }
                    assert(position_of(s, d) is None);
                    assert(grown == seq![EntryView { id: next, at_ms: now_ms, pinned: false, data: d }] + s);
                    assert(self@ == pushed(s, d, now_ms, next, cap));
                }
            },
        }
        &self.entries[0]
    }

    fn check(&self, index: usize) -> (r: Result<(), String>)
        ensures
            index < self@.len() ==> r is Ok,
            index >= self@.len() ==> (r matches Err(e) && e@ == no_entry_message(index as nat, self@.len())),
    {
        let n = self.entries.len();
        if index >= n {
            let mut msg = "no entry ".to_owned();
            push_dec(&mut msg, index as u64);
            msg.append(" (history has ");
            push_dec(&mut msg, n as u64);
            msg.append(" entr");
            if n == 1 {
                msg.append("y");
            } else {
                msg.append("ies");
            }
            msg.append(")");
            return Err(msg);
        }
        Ok(())
    }

    /// Move the entry at `index` to the front, refreshing its timestamp.
    pub fn promote(&mut self, index: usize, now_ms: u64) -> (r: Result<&Entry, String>)
        requires
            old(self).wf(),
        ensures
            final(self).wf(),
            final(self).cap() == old(self).cap(),
            final(self).next_id_spec() == old(self).next_id_spec(),
            index < old(self)@.len() ==> (final(self)@ == promoted(old(self)@, index as int, now_ms)
                && (r matches Ok(e) && e@ == final(self)@[0])),
            index < old(self)@.len() ==> {
                &&& final(self)@.len() == old(self)@.len()
                &&& final(self)@[0].id == old(self)@[index as int].id
                &&& final(self)@[0].data == old(self)@[index as int].data
                &&& final(self)@[0].pinned == old(self)@[index as int].pinned
                &&& final(self)@[0].at_ms == now_ms
                &&& forall|j: int| 0 < j <= index ==> #[trigger] final(self)@[j] == old(self)@[j - 1]
                &&& forall|j: int| index < j < old(self)@.len() ==> #[trigger] final(self)@[j] == old(self)@[j]
            },
            index >= old(self)@.len() ==> (final(self)@ == old(self)@
                && (r matches Err(m) && m@ == no_entry_message(index as nat, old(self)@.len()))),
            distinct_ids(old(self)@) ==> distinct_ids(final(self)@),
    {
        if let Err(e) = self.check(index) {
            return Err(e);
        }
        let ghost s = self@;
        proof {
            if distinct_ids(s) {
                lemma_promote_distinct_ids(s, index as int, now_ms);
            }
            lemma_promote_moves_to_front(s, index as int, now_ms);
        }
        let mut entry = self.entries.remove(index);
        entry.at_ms = now_ms;
        self.entries.insert(0, entry);
        proof {
            assert(self@ =~= promoted(s, index as int, now_ms));
            lemma_count_split(s, index as int);
            lemma_count_concat(seq![touched(s[index as int], now_ms)], s.remove(index as int));
            lemma_count_single(touched(s[index as int], now_ms));
            assert forall|i: int| 0 <= i < self@.len() implies #[trigger] self@[i].id < self.next_id by {
                if i == 0 {
                    assert(self@[0].id == s[index as int].id);
                } else if i <= index {
                    assert(self@[i] == s[i - 1]);
                } else {
                    assert(self@[i] == s[i]);
                }
            }
        }
        Ok(&self.entries[0])
    }

    /// Pin or unpin the entry at `index`.
    pub fn set_pinned(&mut self, index: usize, pinned: bool) -> (r: Result<(), String>)
        requires
            old(self).wf(),
        ensures
            final(self).wf(),
            final(self).cap() == old(self).cap(),
            final(self).next_id_spec() == old(self).next_id_spec(),
            index < old(self)@.len() ==> r is Ok && final(self)@ == ({
                let s = old(self)@.update(index as int, with_pin(old(self)@[index as int], pinned));
                if pinned {
                    s
                } else {
                    keep_newest(s, old(self).cap())
                }
            }),
            index >= old(self)@.len() ==> (final(self)@ == old(self)@
                && (r matches Err(m) && m@ == no_entry_message(index as nat, old(self)@.len()))),
            distinct_ids(old(self)@) ==> distinct_ids(final(self)@),
    {
        if let Err(e) = self.check(index) {
            return Err(e);
        }
        let ghost s = self@;
        proof {
            if distinct_ids(s) {
                lemma_set_pin_distinct_ids(s, index as int, pinned, self.capacity as nat);
            }
        }
        let mut entry = self.entries.remove(index);
        entry.pinned = pinned;
        self.entries.insert(index, entry);
        let ghost s2 = self@;
        proof {
            let u = s.update(index as int, with_pin(s[index as int], pinned));
            assert(s2 =~= u);
            lemma_count_split(s, index as int);
            lemma_count_split(u, index as int);
            assert(u.remove(index as int) =~= s.remove(index as int));
            assert forall|i: int| 0 <= i < s2.len() implies #[trigger] s2[i].id < self.next_id by {
                assert(s2[i].id == s[i].id);
            }
        }
        if !pinned {
            self.retain_newest(self.capacity);
            proof {
                lemma_keep_newest_count(s2, self.capacity as nat);
                assert forall|i: int| 0 <= i < self@.len() implies #[trigger] self@[i].id < self.next_id by {
                    let j = choose|j: int| 0 <= j < s2.len() && s2[j] == keep_newest(s2, self.capacity as nat)[i];
                }
            }
        }
        Ok(())
    }

    /// Remove and return the entry at `index`.
    pub fn remove(&mut self, index: usize) -> (r: Result<Entry, String>)
        requires
            old(self).wf(),
        ensures
            final(self).wf(),
            final(self).cap() == old(self).cap(),
            final(self).next_id_spec() == old(self).next_id_spec(),
            index < old(self)@.len() ==> (final(self)@ == old(self)@.remove(index as int)
                && (r matches Ok(e) && e@ == old(self)@[index as int])),
            index >= old(self)@.len() ==> (final(self)@ == old(self)@
                && (r matches Err(m) && m@ == no_entry_message(index as nat, old(self)@.len()))),
            distinct_ids(old(self)@) ==> distinct_ids(final(self)@),
    {
        if let Err(e) = self.check(index) {
            return Err(e);
        }
        let ghost s = self@;
        proof {
            if distinct_ids(s) {
                lemma_remove_distinct_ids(s, index as int);
            }
        }
        let entry = self.entries.remove(index);
        proof {
            assert(self@ =~= s.remove(index as int));
            lemma_count_split(s, index as int);
            assert forall|i: int| 0 <= i < self@.len() implies #[trigger] self@[i].id < self.next_id by {
                if i < index {
                    assert(self@[i] == s[i]);
                } else {
                    assert(self@[i] == s[i + 1]);
                }
            }
        }
        Ok(entry)
    }

    /// Remove unpinned entries (or everything with `all`). Returns the count.
    pub fn clear(&mut self, all: bool) -> (removed: usize)
        requires
            old(self).wf(),
        ensures
            final(self).wf(),
            final(self).cap() == old(self).cap(),
            final(self).next_id_spec() == old(self).next_id_spec(),
            final(self)@ == if all { Seq::<EntryView>::empty() } else { pinned_only(old(self)@) },
            removed == old(self)@.len() - final(self)@.len(),
            distinct_ids(old(self)@) ==> distinct_ids(final(self)@),
    {
        let before = self.entries.len();
        let ghost s = self@;
        proof {
            if distinct_ids(s) {
                lemma_keep_newest_distinct_ids(s, 0);
            }
        }
        if all {
            self.entries.clear();
            proof {
                assert(self@ =~= Seq::<EntryView>::empty());
            }
        } else {
            self.retain_newest(0);
            proof {
                lemma_keep_newest_count(s, 0);
                assert forall|i: int| 0 <= i < self@.len() implies #[trigger] self@[i].id < self.next_id by {
                    let j = choose|j: int| 0 <= j < s.len() && s[j] == keep_newest(s, 0)[i];
                }
            }
        }
        proof {
            lemma_keep_newest_count(s, 0);
        }
        before - self.entries.len()
    }

    /// Indices of text entries containing `needle`, case-insensitively.
    pub fn search(&self, needle: &str) -> (hits: Vec<usize>)
        ensures
            hits@ == matching_indices(self@, lowercase(needle@), self@.len()),
            forall|k: int| 0 <= k < hits@.len() ==> #[trigger] hits@[k] < self@.len(),
            forall|a: int, b: int| 0 <= a < b < hits@.len() ==> hits@[a] < hits@[b],
    {
        let count = self.entries.len();
        proof {
            assert(self@.len() == count);
            lemma_matching_indices_ordered(self@, lowercase(needle@), self@.len());
        }
        let low_needle = to_lowercase(needle);
        let mut hits: Vec<usize> = Vec::new();
        let mut i: usize = 0;
        while i < self.entries.len()
            invariant
                i <= self@.len(),
                self@.len() == self.entries@.len(),
                low_needle@ == lowercase(needle@),
                hits@ == matching_indices(self@, lowercase(needle@), i as nat),
            decreases self@.len() - i,
        {
            let hit = match self.entries[i].text() {
                None => false,
                Some(t) => {
                    let low = to_lowercase(t);
                    contains_text(low.as_str(), low_needle.as_str())
                },
            };
            proof {
                assert(self@[i as int] == self.entries@[i as int]@);
            }
            if hit {
                hits.push(i);
            }
            i = i + 1;
        }
        hits
    }
}

proof fn lemma_max_to_prefix(s: Seq<EntryView>, i: int)
    requires
        0 <= i < s.len(),
    ensures
        max_id(s.subrange(0, i + 1)) == if i == 0 {
            s[0].id as nat
        } else if s[i].id > max_id(s.subrange(0, i)) {
            s[i].id as nat
        } else {
            max_id(s.subrange(0, i))
        },
{
    lemma_max_concat(s.subrange(0, i), seq![s[i]]);
    assert(s.subrange(0, i + 1) =~= s.subrange(0, i) + seq![s[i]]);
    lemma_count_single(s[i]);
    if i == 0 {
        assert(s.subrange(0, 0) =~= Seq::<EntryView>::empty());
        assert(max_id(Seq::<EntryView>::empty()) == 0);
    }
}

proof fn lemma_max_concat(a: Seq<EntryView>, b: Seq<EntryView>)
    ensures
        max_id(a + b) == if max_id(a) > max_id(b) { max_id(a) } else { max_id(b) },
    decreases a.len(),
{
    if a.len() == 0 {
        assert(a + b =~= b);
    } else {
        assert((a + b).skip(1) =~= a.skip(1) + b);
        lemma_max_concat(a.skip(1), b);
    }
}

/// Whether `needle` occurs in `haystack` (as `str::contains` tests, on the
/// UTF-8 bytes); the empty needle occurs everywhere.
pub fn contains_text(haystack: &str, needle: &str) -> (r: bool)
    ensures
        r == (find_spec(encode_utf8(haystack@), encode_utf8(needle@)) is Some),
{
    let hb = haystack.as_bytes();
    let nb = needle.as_bytes();
    if nb.len() == 0 {
        proof {
            assert(hb@.take(0) =~= nb@);
        }
        true
    } else {
        find(hb, nb).is_some()
    }
}

/// Byte-for-byte equality of two buffers.
fn same_bytes(a: &Vec<u8>, b: &Vec<u8>) -> (r: bool)
    ensures
        r == (a@ == b@),
{
    if a.len() != b.len() {
        return false;
    }
    let mut i: usize = 0;
    while i < a.len()
        invariant
            i <= a@.len(),
            a@.len() == b@.len(),
            forall|j: int| 0 <= j < i ==> a@[j] == b@[j],
        decreases a@.len() - i,
    {
        if a[i] != b[i] {
            return false;
        }
        i = i + 1;
    }
    proof {
        assert(a@ =~= b@);
    }
    true
}

// ------------------------------------------------------------------ laws

/// No two entries of `s` hold the same bytes.
pub open spec fn distinct_data(s: Seq<EntryView>) -> bool {
    forall|i: int, j: int| 0 <= i < j < s.len() ==> #[trigger] s[i].data != #[trigger] s[j].data
}

proof fn lemma_keep_newest_pinned(s: Seq<EntryView>, k: nat, i: int)
    requires
        0 <= i < s.len(),
        s[i].pinned,
    ensures
        keep_newest(s, k).contains(s[i]),
    decreases s.len(),
{
    let t = s.skip(1);
    let k2 = if !s[0].pinned && k > 0 { (k - 1) as nat } else { k };
    let r = keep_newest(s, k);
    if i == 0 {
        assert(r[0] == s[0]);
    } else {
        assert(t[i - 1] == s[i]);
        lemma_keep_newest_pinned(t, k2, i - 1);
        let j = choose|j: int| 0 <= j < keep_newest(t, k2).len() && keep_newest(t, k2)[j] == s[i];
        if s[0].pinned || k > 0 {
            assert(r[j + 1] == keep_newest(t, k2)[j]);
        } else {
            assert(r[j] == keep_newest(t, k2)[j]);
        }
    }
}

proof fn lemma_keep_newest_distinct(s: Seq<EntryView>, k: nat)
    requires
        distinct_data(s),
    ensures
        distinct_data(keep_newest(s, k)),
    decreases s.len(),
{
    if s.len() > 0 {
        let t = s.skip(1);
        let k2 = if !s[0].pinned && k > 0 { (k - 1) as nat } else { k };
        assert forall|i: int, j: int| 0 <= i < j < t.len() implies #[trigger] t[i].data != #[trigger] t[j].data by {
            assert(t[i] == s[i + 1] && t[j] == s[j + 1]);
        }
        lemma_keep_newest_distinct(t, k2);
        lemma_keep_newest_count(t, k2);
        let rt = keep_newest(t, k2);
        let r = keep_newest(s, k);
        if s[0].pinned || k > 0 {
            assert forall|i: int, j: int| 0 <= i < j < r.len() implies #[trigger] r[i].data != #[trigger] r[j].data by {
                assert(r[j] == rt[j - 1]);
                if i == 0 {
                    let m = choose|m: int| 0 <= m < t.len() && t[m] == rt[j - 1];
                    assert(s[m + 1] == t[m]);
                } else {
                    assert(r[i] == rt[i - 1]);
                }
            }
        }
    }
}

proof fn lemma_unpinned_none(s: Seq<EntryView>, i: int)
    requires
        unpinned_count(s) == 0,
        0 <= i < s.len(),
    ensures
        s[i].pinned,
    decreases s.len(),
{
    if i > 0 {
        assert(s.skip(1)[i - 1] == s[i]);
        lemma_unpinned_none(s.skip(1), i - 1);
    }
}

/// No two entries of `s` share an id.
pub open spec fn distinct_ids(s: Seq<EntryView>) -> bool {
    forall|i: int, j: int| 0 <= i < j < s.len() ==> #[trigger] s[i].id != #[trigger] s[j].id
}

/// Dropping unpinned entries keeps ids distinct.
pub proof fn lemma_keep_newest_distinct_ids(s: Seq<EntryView>, k: nat)
    requires
        distinct_ids(s),
    ensures
        distinct_ids(keep_newest(s, k)),
    decreases s.len(),
{
    if s.len() > 0 {
        let t = s.skip(1);
        let k2 = if !s[0].pinned && k > 0 { (k - 1) as nat } else { k };
        assert forall|i: int, j: int| 0 <= i < j < t.len() implies #[trigger] t[i].id != #[trigger] t[j].id by {
            assert(t[i] == s[i + 1] && t[j] == s[j + 1]);
        }
        lemma_keep_newest_distinct_ids(t, k2);
        lemma_keep_newest_count(t, k2);
        let rt = keep_newest(t, k2);
        let r = keep_newest(s, k);
        if s[0].pinned || k > 0 {
            assert forall|i: int, j: int| 0 <= i < j < r.len() implies #[trigger] r[i].id != #[trigger] r[j].id by {
                assert(r[j] == rt[j - 1]);
                if i == 0 {
                    let m = choose|m: int| 0 <= m < t.len() && t[m] == rt[j - 1];
                    assert(s[m + 1] == t[m]);
                } else {
                    assert(r[i] == rt[i - 1]);
                }
            }
        }
    }
}

/// Removing one entry keeps ids distinct.
pub proof fn lemma_remove_distinct_ids(s: Seq<EntryView>, index: int)
    requires
        distinct_ids(s),
        0 <= index < s.len(),
    ensures
        distinct_ids(s.remove(index)),
{
    let r = s.remove(index);
    assert forall|i: int, j: int| 0 <= i < j < r.len() implies #[trigger] r[i].id != #[trigger] r[j].id by {
        let si = if i < index { i } else { i + 1 };
        let sj = if j < index { j } else { j + 1 };
        assert(r[i] == s[si] && r[j] == s[sj]);
    }
}

/// Moving an entry to the front keeps ids distinct.
pub proof fn lemma_promote_distinct_ids(s: Seq<EntryView>, index: int, now_ms: u64)
    requires
        distinct_ids(s),
        0 <= index < s.len(),
    ensures
        distinct_ids(promoted(s, index, now_ms)),
{
    let r = promoted(s, index, now_ms);
    assert forall|i: int, j: int| 0 <= i < j < r.len() implies #[trigger] r[i].id != #[trigger] r[j].id by {
        let si = if i == 0 { index } else if i - 1 < index { i - 1 } else { i };
        let sj = if j - 1 < index { j - 1 } else { j };
        assert(r[i].id == s[si].id);
        assert(r[j].id == s[sj].id);
    }
}

/// Ids stay pairwise distinct across a push: a promotion keeps every id, and
/// a new entry takes an id above all ids in the ring.
pub proof fn lemma_push_distinct_ids(s: Seq<EntryView>, data: Seq<u8>, now_ms: u64, next_id: u64, capacity: nat)
    requires
        distinct_ids(s),
        forall|i: int| 0 <= i < s.len() ==> #[trigger] s[i].id < next_id,
    ensures
        distinct_ids(pushed(s, data, now_ms, next_id, capacity)),
{
    lemma_position_of(s, data);
    match position_of(s, data) {
        Some(p) => lemma_promote_distinct_ids(s, p, now_ms),
        None => {
            let e = EntryView { id: next_id, at_ms: now_ms, pinned: false, data };
            let g = seq![e] + s;
            assert forall|i: int, j: int| 0 <= i < j < g.len() implies #[trigger] g[i].id != #[trigger] g[j].id by {
                assert(g[j] == s[j - 1]);
                if i > 0 {
                    assert(g[i] == s[i - 1]);
                }
            }
            lemma_keep_newest_distinct_ids(g, capacity);
        },
    }
}

/// Changing a pin state (and re-applying the capacity) keeps ids distinct.
pub proof fn lemma_set_pin_distinct_ids(s: Seq<EntryView>, index: int, pinned: bool, capacity: nat)
    requires
        distinct_ids(s),
        0 <= index < s.len(),
    ensures
        distinct_ids(s.update(index, with_pin(s[index], pinned))),
        distinct_ids(keep_newest(s.update(index, with_pin(s[index], pinned)), capacity)),
{
    let u = s.update(index, with_pin(s[index], pinned));
    assert forall|i: int, j: int| 0 <= i < j < u.len() implies #[trigger] u[i].id != #[trigger] u[j].id by {
        assert(u[i].id == s[i].id && u[j].id == s[j].id);
    }
    lemma_keep_newest_distinct_ids(u, capacity);
}

/// Capacity bounds the unpinned population of every well-formed ring.
pub proof fn lemma_capacity_bound(r: &Ring)
    requires
        r.wf(),
    ensures
        r.cap() >= 1,
        unpinned_count(r@) <= r.cap(),
        forall|i: int| 0 <= i < r@.len() ==> #[trigger] r@[i].id < r.next_id_spec(),
{
}

/// After a push the newest entry, index 0, holds the pushed bytes with the
/// push's timestamp.
pub proof fn lemma_push_front(s: Seq<EntryView>, data: Seq<u8>, now_ms: u64, next_id: u64, capacity: nat)
    requires
        capacity >= 1,
    ensures
        pushed(s, data, now_ms, next_id, capacity).len() > 0,
        pushed(s, data, now_ms, next_id, capacity)[0].data == data,
        pushed(s, data, now_ms, next_id, capacity)[0].at_ms == now_ms,
{
    lemma_position_of(s, data);
}

/// A push never creates a duplicate: a ring without repeated contents keeps
/// that property.
pub proof fn lemma_push_no_duplicate(s: Seq<EntryView>, data: Seq<u8>, now_ms: u64, next_id: u64, capacity: nat)
    requires
        capacity >= 1,
        distinct_data(s),
    ensures
        distinct_data(pushed(s, data, now_ms, next_id, capacity)),
{
    lemma_position_of(s, data);
    let r = pushed(s, data, now_ms, next_id, capacity);
    match position_of(s, data) {
        Some(p) => {
            let rest = s.remove(p);
            assert forall|i: int, j: int| 0 <= i < j < r.len() implies #[trigger] r[i].data != #[trigger] r[j].data by {
                let si = if i == 0 { p } else if i - 1 < p { i - 1 } else { i };
                let sj = if j - 1 < p { j - 1 } else { j };
                assert(r[i].data == s[si].data);
                assert(r[j].data == s[sj].data);
                assert(si != sj);
                if si < sj {
                    assert(s[si].data != s[sj].data);
                } else {
                    assert(s[sj].data != s[si].data);
                }
            }
        },
        None => {
            let g = seq![EntryView { id: next_id, at_ms: now_ms, pinned: false, data }] + s;
            assert forall|i: int, j: int| 0 <= i < j < g.len() implies #[trigger] g[i].data != #[trigger] g[j].data by {
                assert(g[j] == s[j - 1]);
                if i > 0 {
                    assert(g[i] == s[i - 1]);
                }
            }
            lemma_keep_newest_distinct(g, capacity);
        },
    }
}

/// Pinned entries survive any push: each one is still present afterwards
/// with the same id, bytes and pin (only a promoted entry's timestamp moves).
pub proof fn lemma_push_keeps_pinned(s: Seq<EntryView>, data: Seq<u8>, now_ms: u64, next_id: u64, capacity: nat, i: int)
    requires
        0 <= i < s.len(),
        s[i].pinned,
    ensures
        exists|j: int| 0 <= j < pushed(s, data, now_ms, next_id, capacity).len()
            && #[trigger] pushed(s, data, now_ms, next_id, capacity)[j].id == s[i].id
            && pushed(s, data, now_ms, next_id, capacity)[j].data == s[i].data
            && pushed(s, data, now_ms, next_id, capacity)[j].pinned,
{
    lemma_position_of(s, data);
    let r = pushed(s, data, now_ms, next_id, capacity);
    let j: int = match position_of(s, data) {
        Some(p) => {
            if i == p {
                0
            } else if i < p {
                assert(r[i + 1] == s[i]);
                i + 1
            } else {
                assert(r[i] == s[i]);
                i
            }
        },
        None => {
            let g = seq![EntryView { id: next_id, at_ms: now_ms, pinned: false, data }] + s;
            assert(g[i + 1] == s[i]);
            lemma_keep_newest_pinned(g, capacity, i + 1);
            let j = choose|j: int| 0 <= j < r.len() && r[j] == g[i + 1];
            j
        },
    };
    assert(0 <= j < r.len() && r[j].id == s[i].id && r[j].data == s[i].data && r[j].pinned);
}

/// A push of new bytes gives them the next id, above every id in the ring.
pub proof fn lemma_push_fresh_id(s: Seq<EntryView>, data: Seq<u8>, now_ms: u64, next_id: u64, capacity: nat)
    requires
        capacity >= 1,
        position_of(s, data) is None,
        forall|i: int| 0 <= i < s.len() ==> #[trigger] s[i].id < next_id,
    ensures
        pushed(s, data, now_ms, next_id, capacity)[0].id == next_id,
        forall|j: int| 0 < j < pushed(s, data, now_ms, next_id, capacity).len()
            ==> #[trigger] pushed(s, data, now_ms, next_id, capacity)[j].id < next_id,
{
    let g = seq![EntryView { id: next_id, at_ms: now_ms, pinned: false, data }] + s;
    let r = pushed(s, data, now_ms, next_id, capacity);
    assert(g.skip(1) =~= s);
    lemma_keep_newest_count(s, (capacity - 1) as nat);
    let rt = keep_newest(s, (capacity - 1) as nat);
    assert forall|j: int| 0 < j < r.len() implies #[trigger] r[j].id < next_id by {
        assert(r[j] == rt[j - 1]);
        let m = choose|m: int| 0 <= m < s.len() && s[m] == rt[j - 1];
    }
}

/// `clear` without `--all` keeps exactly the pinned entries.
pub proof fn lemma_clear_keeps_exactly_pinned(s: Seq<EntryView>, e: EntryView)
    ensures
        pinned_only(s).contains(e) <==> (s.contains(e) && e.pinned),
{
    lemma_keep_newest_count(s, 0);
    if pinned_only(s).contains(e) {
        let j = choose|j: int| 0 <= j < pinned_only(s).len() && pinned_only(s)[j] == e;
        lemma_unpinned_none(pinned_only(s), j);
    }
    if s.contains(e) && e.pinned {
        let i = choose|i: int| 0 <= i < s.len() && s[i] == e;
        lemma_keep_newest_pinned(s, 0, i);
    }
}

} // verus!
