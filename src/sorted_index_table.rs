//! The sorted secondary index: fixed-capacity fragments of slots, each slot
//! an `(active, target, value)` triple, with the range of each fragment's
//! active values kept in its header.
//!
//! The fragments are held in memory; whoever owns the index files stores
//! each fragment with [`SortedIndexFiles::fragment_bytes`].
use vstd::prelude::*;
use vstd::multiset::Multiset;
use core::cmp::Ordering;
use crate::binary::{u32_le, u32_of_le, u64_be, u64_of_be};
use crate::index_value::{
    push_all, push_u64_be,
    compared, lemma_rank_lt_irreflexive, lemma_rank_lt_total, lemma_rank_lt_transitive, rank_lt,
    BinarySizeable, IndexError, IndexValue,
};

verus! {

broadcast use vstd::multiset::group_multiset_axioms;

/// One slot of an index fragment.
pub struct FenseIndex<T> {
    pub active: bool,
    pub target: u64,
    pub value: T,
}

/// What a slot holds, with its value seen through its rank.
pub open spec fn slot_view<T: IndexValue>(s: FenseIndex<T>) -> (bool, u64, Seq<int>) {
    (s.active, s.target, s.value.rank())
}

pub open spec fn slots_view<T: IndexValue>(s: Seq<FenseIndex<T>>) -> Seq<(bool, u64, Seq<int>)> {
    s.map_values(|x: FenseIndex<T>| slot_view(x))
}

impl<T: IndexValue> FenseIndex<T> {
    /// An inactive slot.
    pub fn new(target: u64, value: T) -> (r: Self)
        ensures
            !r.active,
            r.target == target,
            r.value == value,
    {
        Self { active: false, target, value }
    }

    /// The bytes before the value: the active flag and the target.
    pub fn get_prefix_binary_size() -> (r: usize)
        ensures
            r == 9,
    {
        1 + 8
    }

    pub fn get_binary_size(&self) -> (r: usize)
        requires
            9 + self.value.binary_size() <= usize::MAX,
        ensures
            r == 9 + self.value.binary_size(),
    {
        let prefix_size: usize = 1 + 8;  // (active bool) + (target u64)
        prefix_size + self.value.get_binary_size()
    }
}

/// The header of a fragment.
pub struct SortedIndexTableFragmentHeader<T> {
    pub records_count: u32,
    pub max_records_count: u32,
    pub shift_threshold: u32,
    pub min_value: T,
    pub max_value: T,
}

impl<T> SortedIndexTableFragmentHeader<T> {
    /// Three `u32` fields, then the two range values.
    pub fn get_binary_size(value_binary_size: usize) -> (r: usize)
        requires
            12 + 2 * value_binary_size <= usize::MAX,
        ensures
            r == 12 + 2 * value_binary_size,
    {
        4 + 4 + 4 + value_binary_size + value_binary_size
    }
}

/// The sizes of one slot: the bytes before the value, and in all.
pub struct ValueDefaultSizeInfo {
    pub prefix_size: usize,
    pub total_size: usize,
}

/// One fragment: its header and its slots.
pub struct Fragment<T> {
    pub header: SortedIndexTableFragmentHeader<T>,
    pub slots: Vec<FenseIndex<T>>,
}

/// Where a new index entry goes.
#[derive(PartialEq, Eq, Debug, Clone, Copy)]
pub enum FileNumberAssignment {
    /// Into that fragment, after its last entry.
    Specific(usize),
    /// Into a new fragment.
    NextAvailable,
    /// Into that fragment, once the entries above the new value have moved
    /// to a new fragment.
    Split(usize),
}

/// `a < b` among index values.
fn value_lt<T: IndexValue>(a: &T, b: &T) -> (r: bool)
    ensures
        r == rank_lt(a.rank(), b.rank()),
{
    match a.compare(b) {
        Ordering::Less => true,
        _ => false,
    }
}

/// `a` and `b` stand at the same place in the order.
fn value_eq<T: IndexValue>(a: &T, b: &T) -> (r: bool)
    ensures
        r == (a.rank() == b.rank()),
{
    match a.compare(b) {
        Ordering::Equal => true,
        _ => false,
    }
}

/// The header's new range after `v` is written: `v` replaces a bound that it
/// passes, or that still holds the default value.
pub open spec fn widened_min(min: Seq<int>, default: Seq<int>, v: Seq<int>) -> Seq<int> {
    if rank_lt(v, min) || default == min {
        v
    } else {
        min
    }
}

pub open spec fn widened_max(max: Seq<int>, default: Seq<int>, v: Seq<int>) -> Seq<int> {
    if rank_lt(max, v) || default == max {
        v
    } else {
        max
    }
}

/// The choice of fragment for a new value, given the headers of the open
/// fragments (records count, max records count, min rank, max rank): the
/// first fragment that is full with the value strictly inside its range is
/// split; otherwise the first fragment that is empty, or not full, or has the
/// value strictly inside its range takes it; otherwise a new fragment does.
pub open spec fn choose_fragment(
    headers: Seq<(u32, u32, Seq<int>, Seq<int>)>,
    default: Seq<int>,
    v: Seq<int>,
    i: int,
) -> FileNumberAssignment
    decreases headers.len() - i,
{
    if i >= headers.len() || i < 0 {
        FileNumberAssignment::NextAvailable
    } else {
        let (count, max_count, min, max) = headers[i];
        let in_range = rank_lt(min, v) && rank_lt(v, max);
        if count >= max_count && in_range {
            FileNumberAssignment::Split(i as usize)
        } else if min == default && max == default {
            FileNumberAssignment::Specific(i as usize)
        } else if count < max_count {
            FileNumberAssignment::Specific(i as usize)
        } else if in_range {
            FileNumberAssignment::Specific(i as usize)
        } else {
            choose_fragment(headers, default, v, i + 1)
        }
    }
}

/// The active slots of `s`, in order.
pub open spec fn active_only(s: Seq<(bool, u64, Seq<int>)>) -> Seq<(bool, u64, Seq<int>)>
    decreases s.len(),
{
    if s.len() == 0 {
        Seq::empty()
    } else if s.last().0 {
        active_only(s.drop_last()).push(s.last())
    } else {
        active_only(s.drop_last())
    }
}

/// The active slots of `s` from `offset` on, in order.
pub open spec fn active_from(s: Seq<(bool, u64, Seq<int>)>, offset: int) -> Seq<
    (bool, u64, Seq<int>),
> {
    if offset >= s.len() {
        Seq::empty()
    } else {
        active_only(s.subrange(offset, s.len() as int))
    }
}

proof fn lemma_fits(x: int, sw: int, max: int)
    requires
        sw > 0,
        x >= 0,
        0 <= max <= x / sw,
    ensures
        max * sw <= x,
{
    vstd::arithmetic::div_mod::lemma_fundamental_div_mod(x, sw);
    vstd::arithmetic::div_mod::lemma_mod_pos_bound(x, sw);
    assert(max * sw <= (x / sw) * sw) by (nonlinear_arith)
        requires
            max <= x / sw,
            sw > 0,
    ;
    assert((x / sw) * sw == sw * (x / sw)) by (nonlinear_arith);
}

proof fn lemma_fits_iff(x: int, sw: int, max: int)
    requires
        sw > 0,
        x >= 0,
        max >= 0,
        x / sw < max,
    ensures
        x < max * sw,
{
    vstd::arithmetic::div_mod::lemma_fundamental_div_mod(x, sw);
    vstd::arithmetic::div_mod::lemma_mod_pos_bound(x, sw);
    assert(sw * (x / sw) + sw <= max * sw) by (nonlinear_arith)
        requires
            x / sw + 1 <= max,
            sw > 0,
    ;
}

proof fn lemma_empty_multiset<A>(s: Seq<A>)
    requires
        s.len() == 0,
    ensures
        s.to_multiset() =~= Multiset::<A>::empty(),
{
    vstd::seq_lib::to_multiset_len(s);
    vstd::multiset::lemma_multiset_empty_len(s.to_multiset());
}

proof fn lemma_active_from_active(s: Seq<(bool, u64, Seq<int>)>, offset: int)
    requires
        0 <= offset,
    ensures
        forall|i: int| 0 <= i < active_from(s, offset).len() ==> (#[trigger] active_from(s, offset)[i]).0,
        active_from(s, offset).len() <= s.len(),
{
    if offset < s.len() {
        lemma_active_only_active(s.subrange(offset, s.len() as int));
    }
}

proof fn lemma_active_only_active(s: Seq<(bool, u64, Seq<int>)>)
    ensures
        forall|i: int| 0 <= i < active_only(s).len() ==> (#[trigger] active_only(s)[i]).0,
        active_only(s).len() <= s.len(),
    decreases s.len(),
{
    if s.len() > 0 {
        lemma_active_only_active(s.drop_last());
    }
}

proof fn lemma_active_only_push(s: Seq<(bool, u64, Seq<int>)>, x: (bool, u64, Seq<int>))
    ensures
        active_only(s.push(x)) == if x.0 {
            active_only(s).push(x)
        } else {
            active_only(s)
        },
{
    assert(s.push(x).drop_last() =~= s);
}

/// The order of slots: by value, then by target.
pub open spec fn slot_le(a: (bool, u64, Seq<int>), b: (bool, u64, Seq<int>)) -> bool {
    rank_lt(a.2, b.2) || (a.2 == b.2 && a.1 <= b.1)
}

/// `s` is in ascending order of value, then target.
pub open spec fn sorted_slots(s: Seq<(bool, u64, Seq<int>)>) -> bool {
    forall|i: int, j: int| 0 <= i < j < s.len() ==> slot_le(#[trigger] s[i], #[trigger] s[j])
}

proof fn lemma_slot_le_total(a: (bool, u64, Seq<int>), b: (bool, u64, Seq<int>))
    ensures
        slot_le(a, b) || slot_le(b, a),
{
    lemma_rank_lt_total(a.2, b.2);
}

proof fn lemma_slot_le_transitive(
    a: (bool, u64, Seq<int>),
    b: (bool, u64, Seq<int>),
    c: (bool, u64, Seq<int>),
)
    requires
        slot_le(a, b),
        slot_le(b, c),
    ensures
        slot_le(a, c),
{
    if rank_lt(a.2, b.2) && rank_lt(b.2, c.2) {
        lemma_rank_lt_transitive(a.2, b.2, c.2);
    }
}

/// `a` comes no later than `b` in the order of slots.
fn slot_le_exec<T: IndexValue>(a: &FenseIndex<T>, b: &FenseIndex<T>) -> (r: bool)
    ensures
        r == slot_le(slot_view(*a), slot_view(*b)),
{
    match a.value.compare(&b.value) {
        Ordering::Less => true,
        Ordering::Greater => false,
        Ordering::Equal => a.target <= b.target,
    }
}

/// Inserts `x` into ascending `v` after every slot that does not come
/// after it.
fn insert_sorted<T: IndexValue>(v: &mut Vec<FenseIndex<T>>, x: FenseIndex<T>)
    requires
        sorted_slots(slots_view(old(v)@)),
    ensures
        sorted_slots(slots_view(final(v)@)),
        slots_view(final(v)@).to_multiset() == slots_view(old(v)@).to_multiset().insert(
            slot_view(x),
        ),
{
    let ghost s = slots_view(v@);
    let mut j: usize = 0;
    while j < v.len() && slot_le_exec(&v[j], &x)
        invariant
            s == slots_view(v@),
            s.len() == v@.len(),
            j <= v@.len(),
            sorted_slots(s),
            forall|k: int| 0 <= k < j ==> slot_le(#[trigger] s[k], slot_view(x)),
        decreases v.len() - j,
    {
        j = j + 1;
    }
    let ghost xv = slot_view(x);
    proof {
        if j < s.len() {
            lemma_slot_le_total(s[j as int], xv);
        }
    }
    v.insert(j, x);
    proof {
        let t = slots_view(v@);
        assert(t =~= s.insert(j as int, xv));
        assert forall|a: int, b: int| 0 <= a < b < t.len() implies slot_le(
            #[trigger] t[a],
            #[trigger] t[b],
        ) by {
            if b < j {
            } else if a < j && b == j {
            } else if a < j && b > j {
                assert(t[b] == s[b - 1]);
                if j < s.len() {
                    lemma_slot_le_transitive(t[a], xv, s[j as int]);
                    if b - 1 > j {
                        lemma_slot_le_transitive(t[a], s[j as int], s[b - 1]);
                    }
                }
            } else if a == j {
                assert(t[b] == s[b - 1]);
                if b - 1 > j {
                    lemma_slot_le_transitive(xv, s[j as int], s[b - 1]);
                }
            } else {
                assert(t[a] == s[a - 1]);
                assert(t[b] == s[b - 1]);
            }
        }
        vstd::seq_lib::to_multiset_insert(s, j as int, xv);
    }
}

proof fn lemma_slots_bytes_none<T: IndexValue>(s: Seq<FenseIndex<T>>, i: int, size: nat)
    requires
        0 <= i < s.len(),
        s[i].value.slot_value(size) is None,
    ensures
        slots_bytes(s, size) is None,
    decreases s.len(),
{
    if i < s.len() - 1 {
        lemma_slots_bytes_none(s.drop_last(), i, size);
    }
}

proof fn lemma_choose_bounds(
    headers: Seq<(u32, u32, Seq<int>, Seq<int>)>,
    default: Seq<int>,
    v: Seq<int>,
    i: int,
)
    requires
        0 <= i,
        headers.len() <= usize::MAX,
    ensures
        match choose_fragment(headers, default, v, i) {
            FileNumberAssignment::Specific(n) => i <= n < headers.len() && (headers[n as int].0
                < headers[n as int].1 || (headers[n as int].2 == default && headers[n as int].3
                == default)),
            FileNumberAssignment::Split(n) => i <= n < headers.len() && headers[n as int].0
                >= headers[n as int].1 && rank_lt(headers[n as int].2, v) && rank_lt(
                v,
                headers[n as int].3,
            ),
            FileNumberAssignment::NextAvailable => true,
        },
    decreases headers.len() - i,
{
    if i < headers.len() {
        lemma_choose_bounds(headers, default, v, i + 1);
    }
}

/// A fragment header on disk: three little-endian `u32`s (max records count,
/// records count, shift threshold), then the two range values.
pub open spec fn header_bytes(
    records_count: u32,
    max_records_count: u32,
    shift_threshold: u32,
    min: Seq<u8>,
    max: Seq<u8>,
) -> Seq<u8> {
    u32_le(max_records_count) + u32_le(records_count) + u32_le(shift_threshold) + min + max
}

/// A slot on disk: the active flag (one byte), the target (big-endian
/// `u64`), then the value.
pub open spec fn slot_bytes(active: bool, target: u64, value: Seq<u8>) -> Seq<u8> {
    seq![if active { 1u8 } else { 0u8 }] + u64_be(target) + value
}

/// The slots of a fragment on disk, if every value can be written.
pub open spec fn slots_bytes<T: IndexValue>(s: Seq<FenseIndex<T>>, size: nat) -> Option<Seq<u8>>
    decreases s.len(),
{
    if s.len() == 0 {
        Some(Seq::empty())
    } else {
        match (slots_bytes(s.drop_last(), size), s.last().value.slot_value(size)) {
            (Some(a), Some(v)) => Some(a + slot_bytes(s.last().active, s.last().target, v)),
            _ => None,
        }
    }
}

/// A fragment on disk, if every value can be written.
pub open spec fn fragment_image<T: IndexValue>(f: Fragment<T>, size: nat) -> Option<Seq<u8>> {
    match (
        f.header.min_value.slot_value(size),
        f.header.max_value.slot_value(size),
        slots_bytes(f.slots@, size),
    ) {
        (Some(min), Some(max), Some(body)) => Some(
            header_bytes(
                f.header.records_count,
                f.header.max_records_count,
                f.header.shift_threshold,
                min,
                max,
            ) + body,
        ),
        _ => None,
    }
}

/// Appends the four little-endian bytes of `v`.
fn push_u32_le(out: &mut Vec<u8>, v: u32)
    ensures
        final(out)@ == old(out)@ + u32_le(v),
{
    out.push(v as u8);
    out.push((v >> 8u32) as u8);
    out.push((v >> 16u32) as u8);
    out.push((v >> 24u32) as u8);
    assert(final(out)@ =~= old(out)@ + u32_le(v));
}

/// A copy of `len` bytes of `b` from `start` on.
fn copy_range(b: &[u8], start: usize, len: usize) -> (r: Vec<u8>)
    requires
        start + len <= b@.len(),
    ensures
        r@ == b@.subrange(start as int, start + len),
{
    let mut v: Vec<u8> = Vec::with_capacity(len);
    let blen = b.len();
    let mut i: usize = 0;
    while i < len
        invariant
            blen == b@.len(),
            start + len <= b@.len(),
            i <= len,
            v@ == b@.subrange(start as int, start + i),
        decreases len - i,
    {
        v.push(b[start + i]);
        i = i + 1;
        assert(v@ =~= b@.subrange(start as int, start + i));
    }
    v
}

/// The little-endian `u32` at `pos`.
fn read_u32_le_at(b: &[u8], pos: usize) -> (r: u32)
    requires
        pos + 4 <= b@.len(),
    ensures
        r == u32_of_le(b@.subrange(pos as int, b@.len() as int)),
{
    (b[pos] as u32) | ((b[pos + 1] as u32) << 8u32) | ((b[pos + 2] as u32) << 16u32) | ((b[pos
        + 3] as u32) << 24u32)
}

/// The slots of `s` below `count` are active, the others inactive.
pub open spec fn packed(s: Seq<(bool, u64, Seq<int>)>, count: nat) -> bool {
    &&& count <= s.len()
    &&& forall|k: int| 0 <= k < s.len() ==> ((#[trigger] s[k]).0 <==> k < count)
}

proof fn lemma_packed_active_only(s: Seq<(bool, u64, Seq<int>)>, count: nat)
    requires
        packed(s, count),
    ensures
        active_only(s) == s.subrange(0, count as int),
    decreases s.len(),
{
    if s.len() > 0 {
        let t = s.drop_last();
        if count == s.len() {
            assert(packed(t, (count - 1) as nat)) by {
                assert forall|k: int| 0 <= k < t.len() implies ((#[trigger] t[k]).0 <==> k < count - 1) by {
                    assert(t[k] == s[k]);
                }
            }
            lemma_packed_active_only(t, (count - 1) as nat);
            assert(s.last().0);
            assert(s.subrange(0, count as int) =~= t.subrange(0, count - 1).push(s.last()));
        } else {
            assert(packed(t, count)) by {
                assert forall|k: int| 0 <= k < t.len() implies ((#[trigger] t[k]).0 <==> k < count) by {
                    assert(t[k] == s[k]);
                }
            }
            lemma_packed_active_only(t, count);
            assert(!s.last().0);
            assert(s.subrange(0, count as int) =~= t.subrange(0, count as int));
        }
    } else {
        assert(s.subrange(0, 0) =~= s);
    }
}

proof fn lemma_active_only_contains(s: Seq<(bool, u64, Seq<int>)>, k: int)
    requires
        0 <= k < s.len(),
        s[k].0,
    ensures
        active_only(s).contains(s[k]),
    decreases s.len(),
{
    if k == s.len() - 1 {
        assert(active_only(s).last() == s[k]);
    } else {
        lemma_active_only_contains(s.drop_last(), k);
        let i = choose|i: int| 0 <= i < active_only(s.drop_last()).len() && active_only(s.drop_last())[i] == s[k];
        if s.last().0 {
            assert(active_only(s)[i] == s[k]);
        }
    }
}

proof fn lemma_active_only_clear(
    s: Seq<(bool, u64, Seq<int>)>,
    k: int,
    y: (bool, u64, Seq<int>),
)
    requires
        0 <= k < s.len(),
        s[k].0,
        !y.0,
    ensures
        active_only(s.update(k, y)).to_multiset() == active_only(s).to_multiset().remove(s[k]),
    decreases s.len(),
{
    let t = s.update(k, y);
    if k == s.len() - 1 {
        assert(t.drop_last() =~= s.drop_last());
        vstd::seq_lib::to_multiset_build(active_only(s.drop_last()), s[k]);
    } else {
        lemma_active_only_clear(s.drop_last(), k, y);
        assert(t.drop_last() =~= s.drop_last().update(k, y));
        assert(t.last() == s.last());
        if s.last().0 {
            vstd::seq_lib::to_multiset_build(active_only(s.drop_last()), s.last());
            vstd::seq_lib::to_multiset_build(active_only(t.drop_last()), s.last());
            lemma_active_only_contains(s.drop_last(), k);
            vstd::seq_lib::to_multiset_contains(active_only(s.drop_last()), s[k]);
            assert(active_only(t).to_multiset() =~= active_only(s).to_multiset().remove(s[k]));
        }
    }
}

/// Fragments `0..n` of `f` and `g` agree.
pub open spec fn agree_below<T: IndexValue>(f: &SortedIndexFiles<T>, g: &SortedIndexFiles<T>, n: int, skip: int) -> bool {
    &&& n <= f.fragments@.len()
    &&& n <= g.fragments@.len()
    &&& forall|i: int| 0 <= i < n && i != skip ==> #[trigger] f.fragments@[i] == g.fragments@[i]
}

proof fn lemma_entries_agree<T: IndexValue>(f: &SortedIndexFiles<T>, g: &SortedIndexFiles<T>, n: int)
    requires
        agree_below(f, g, n, -1),
    ensures
        f.entries_upto(n) == g.entries_upto(n),
    decreases n,
{
    if n > 0 {
        lemma_entries_agree(f, g, n - 1);
        assert(f.fragments@[n - 1] == g.fragments@[n - 1]);
        assert(f.headers()[n - 1] == g.headers()[n - 1]);
        assert(f.slots(n - 1) == g.slots(n - 1));
    }
}

proof fn lemma_entries_swap<T: IndexValue>(
    f: &SortedIndexFiles<T>,
    g: &SortedIndexFiles<T>,
    num: int,
    n: int,
)
    requires
        0 <= num < n,
        agree_below(f, g, n, num),
    ensures
        f.entries_upto(n).add(g.fragment_entries(num)) == g.entries_upto(n).add(
            f.fragment_entries(num),
        ),
    decreases n,
{
    if n == num + 1 {
        lemma_entries_agree(f, g, num);
        assert(f.entries_upto(n) == f.entries_upto(num).add(f.fragment_entries(num)));
        assert(g.entries_upto(n) == g.entries_upto(num).add(g.fragment_entries(num)));
    } else {
        lemma_entries_swap(f, g, num, n - 1);
        assert(f.fragments@[n - 1] == g.fragments@[n - 1]);
        assert(f.headers()[n - 1] == g.headers()[n - 1]);
        assert(f.slots(n - 1) == g.slots(n - 1));
        assert(f.fragment_entries(n - 1) == g.fragment_entries(n - 1));
        assert(f.entries_upto(n) == f.entries_upto(n - 1).add(f.fragment_entries(n - 1)));
        assert(g.entries_upto(n) == g.entries_upto(n - 1).add(g.fragment_entries(n - 1)));
    }
    let l = f.entries_upto(n).add(g.fragment_entries(num));
    let r = g.entries_upto(n).add(f.fragment_entries(num));
    assert forall|v: (bool, u64, Seq<int>)| #[trigger] l.count(v) == r.count(v) by {
        if n > num + 1 {
            let a = f.entries_upto(n - 1).add(g.fragment_entries(num));
            let b = g.entries_upto(n - 1).add(f.fragment_entries(num));
            assert(a.count(v) == b.count(v));
        }
    }
    assert(l =~= r);
}

/// Writing an active entry right after the packed entries of fragment `num`
/// adds it to the entries of the index.
proof fn lemma_append_entry<T: IndexValue>(
    f: &SortedIndexFiles<T>,
    g: &SortedIndexFiles<T>,
    num: int,
    x: (bool, u64, Seq<int>),
)
    requires
        g.wf(),
        g.all_packed(),
        f.same_but(g, num),
        0 <= num < g.fragments@.len(),
        g.headers()[num].0 < g.max_records_count_per_fragments,
        f.slots(num) == g.slots(num).update(g.headers()[num].0 as int, x),
        f.headers()[num].0 == g.headers()[num].0 + 1,
        x.0,
    ensures
        f.all_packed(),
        f.entries() == g.entries().insert(x),
{
    let c = g.headers()[num].0 as int;
    let gs = g.slots(num);
    let fs = f.slots(num);
    assert(g.fragments@[num].slots@.len() == g.max_records_count_per_fragments);
    assert(gs.len() == g.max_records_count_per_fragments);
    assert(fs.subrange(0, c + 1) =~= gs.subrange(0, c).push(x));
    vstd::seq_lib::to_multiset_build(gs.subrange(0, c), x);
    assert forall|i: int| 0 <= i < f.fragments@.len() implies #[trigger] packed(
        f.slots(i),
        f.headers()[i].0 as nat,
    ) by {
        if i != num {
            assert(f.fragments@[i] == g.fragments@[i]);
            assert(f.slots(i) == g.slots(i));
            assert(f.headers()[i] == g.headers()[i]);
            assert(packed(g.slots(i), g.headers()[i].0 as nat));
        } else {
            assert(packed(gs, c as nat));
            assert forall|k: int| 0 <= k < fs.len() implies ((#[trigger] fs[k]).0 <==> k < c + 1) by {
                if k != c {
                    assert(fs[k] == gs[k]);
                }
            }
        }
    }
    let n = g.fragments@.len() as int;
    lemma_entries_swap(f, g, num, n);
    assert(f.fragment_entries(num) == g.fragment_entries(num).insert(x));
    let l = f.entries();
    let r = g.entries().insert(x);
    assert forall|v: (bool, u64, Seq<int>)| #[trigger] l.count(v) == r.count(v) by {
        assert(f.entries_upto(n).add(g.fragment_entries(num)).count(v) == g.entries_upto(n).add(
            f.fragment_entries(num),
        ).count(v));
    }
    assert(l =~= r);
}

/// Opening a new, empty fragment adds no entries.
proof fn lemma_open_entries<T: IndexValue>(h: &SortedIndexFiles<T>, g: &SortedIndexFiles<T>)
    requires
        g.wf(),
        g.all_packed(),
        h.fragments@.len() == g.fragments@.len() + 1,
        h.fragments@.subrange(0, g.fragments@.len() as int) == g.fragments@,
        h.headers()[g.fragments@.len() as int].0 == 0,
        forall|k: int|
            0 <= k < h.slots(g.fragments@.len() as int).len() ==> !(#[trigger] h.slots(
                g.fragments@.len() as int,
            )[k]).0,
    ensures
        h.all_packed(),
        h.entries() == g.entries(),
{
    let n = g.fragments@.len() as int;
    assert forall|i: int| 0 <= i < n implies #[trigger] h.fragments@[i] == g.fragments@[i] by {
        assert(h.fragments@.subrange(0, n)[i] == h.fragments@[i]);
    }
    lemma_entries_agree(h, g, n);
    assert(h.slots(n).subrange(0, 0) =~= Seq::<(bool, u64, Seq<int>)>::empty());
    lemma_empty_multiset(h.slots(n).subrange(0, 0));
    assert(h.entries() =~= g.entries());
    assert forall|i: int| 0 <= i < h.fragments@.len() implies #[trigger] packed(
        h.slots(i),
        h.headers()[i].0 as nat,
    ) by {
        if i < n {
            assert(h.fragments@[i] == g.fragments@[i]);
            assert(h.slots(i) == g.slots(i));
            assert(h.headers()[i] == g.headers()[i]);
            assert(packed(g.slots(i), g.headers()[i].0 as nat));
        }
    }
}

/// The first `c` slots of `s` hold values other than the default `d`, all
/// within `[min, max]`, and `min` and `max` are values of some of them; a
/// fragment without entries has the default as both bounds.
pub open spec fn ranged(
    s: Seq<(bool, u64, Seq<int>)>,
    c: nat,
    min: Seq<int>,
    max: Seq<int>,
    d: Seq<int>,
) -> bool {
    &&& forall|k: int|
        0 <= k < c ==> (#[trigger] s[k]).2 != d && !rank_lt(s[k].2, min) && !rank_lt(max, s[k].2)
    &&& c == 0 ==> min == d && max == d
    &&& c > 0 ==> exists|k: int| 0 <= k < c && (#[trigger] s[k]).2 == min
    &&& c > 0 ==> exists|k: int| 0 <= k < c && (#[trigger] s[k]).2 == max
}

proof fn lemma_ranged_append(
    s: Seq<(bool, u64, Seq<int>)>,
    c: nat,
    min: Seq<int>,
    max: Seq<int>,
    d: Seq<int>,
    x: (bool, u64, Seq<int>),
)
    requires
        ranged(s, c, min, max, d),
        c < s.len(),
        x.2 != d,
    ensures
        ranged(s.update(c as int, x), c + 1, widened_min(min, d, x.2), widened_max(max, d, x.2), d),
{
    let t = s.update(c as int, x);
    let v = x.2;
    let mn = widened_min(min, d, v);
    let mx = widened_max(max, d, v);
    lemma_rank_lt_irreflexive(v);
    if c == 0 {
        assert(t[0] == x);
    } else {
        let k0 = choose|k: int| 0 <= k < c && (#[trigger] s[k]).2 == min;
        let k1 = choose|k: int| 0 <= k < c && (#[trigger] s[k]).2 == max;
        assert(t[k0] == s[k0]);
        assert(t[k1] == s[k1]);
        assert(t[c as int] == x);
        assert forall|k: int| 0 <= k < c + 1 implies (#[trigger] t[k]).2 != d && !rank_lt(t[k].2, mn)
            && !rank_lt(mx, t[k].2) by {
            if k < c {
                assert(t[k] == s[k]);
                if rank_lt(t[k].2, mn) && mn == v {
                    lemma_rank_lt_transitive(t[k].2, v, min);
                }
                if rank_lt(mx, t[k].2) && mx == v {
                    lemma_rank_lt_transitive(max, v, t[k].2);
                }
            } else {
                lemma_rank_lt_total(v, min);
                lemma_rank_lt_total(v, max);
            }
        }
        if mn == v {
            assert(t[c as int].2 == mn);
        } else {
            assert(t[k0].2 == mn);
        }
        if mx == v {
            assert(t[c as int].2 == mx);
        } else {
            assert(t[k1].2 == mx);
        }
    }
}

/// Writing an entry right after the packed entries of fragment `num` keeps
/// every fragment within its range.
proof fn lemma_append_kept<T: IndexValue>(
    f: &SortedIndexFiles<T>,
    g: &SortedIndexFiles<T>,
    num: int,
    x: (bool, u64, Seq<int>),
)
    requires
        g.wf(),
        g.well_kept(),
        f.same_but(g, num),
        0 <= num < g.fragments@.len(),
        g.headers()[num].0 < g.max_records_count_per_fragments,
        f.slots(num) == g.slots(num).update(g.headers()[num].0 as int, x),
        f.headers()[num] == (
            (g.headers()[num].0 + 1) as u32,
            g.headers()[num].1,
            widened_min(g.headers()[num].2, g.default_value.rank(), x.2),
            widened_max(g.headers()[num].3, g.default_value.rank(), x.2),
        ),
        x.0,
        x.2 != g.default_value.rank(),
    ensures
        f.well_kept(),
        f.entries() == g.entries().insert(x),
{
    lemma_append_entry(f, g, num, x);
    let h = g.headers()[num];
    assert(g.fragments@[num].slots@.len() == g.max_records_count_per_fragments);
    assert(ranged(g.slots(num), h.0 as nat, h.2, h.3, g.default_value.rank()));
    lemma_ranged_append(g.slots(num), h.0 as nat, h.2, h.3, g.default_value.rank(), x);
    assert forall|i: int| 0 <= i < f.fragments@.len() implies #[trigger] ranged(
        f.slots(i),
        f.headers()[i].0 as nat,
        f.headers()[i].2,
        f.headers()[i].3,
        f.default_value.rank(),
    ) by {
        if i != num {
            assert(f.fragments@[i] == g.fragments@[i]);
            assert(f.slots(i) == g.slots(i));
            assert(f.headers()[i] == g.headers()[i]);
            assert(ranged(g.slots(i), g.headers()[i].0 as nat, g.headers()[i].2, g.headers()[i].3, g.default_value.rank()));
        }
    }
}

/// Opening a new, empty fragment keeps every fragment within its range.
proof fn lemma_open_kept<T: IndexValue>(h: &SortedIndexFiles<T>, g: &SortedIndexFiles<T>)
    requires
        g.wf(),
        g.well_kept(),
        h.default_value == g.default_value,
        h.fragments@.len() == g.fragments@.len() + 1,
        h.fragments@.subrange(0, g.fragments@.len() as int) == g.fragments@,
        h.headers()[g.fragments@.len() as int] == (
            0u32,
            g.max_records_count_per_fragments,
            g.default_value.rank(),
            g.default_value.rank(),
        ),
        forall|k: int|
            0 <= k < h.slots(g.fragments@.len() as int).len() ==> !(#[trigger] h.slots(
                g.fragments@.len() as int,
            )[k]).0,
    ensures
        h.well_kept(),
        h.entries() == g.entries(),
{
    lemma_open_entries(h, g);
    let n = g.fragments@.len() as int;
    assert forall|i: int| 0 <= i < h.fragments@.len() implies #[trigger] ranged(
        h.slots(i),
        h.headers()[i].0 as nat,
        h.headers()[i].2,
        h.headers()[i].3,
        h.default_value.rank(),
    ) by {
        if i < n {
            assert(h.fragments@.subrange(0, n)[i] == h.fragments@[i]);
            assert(h.fragments@[i] == g.fragments@[i]);
            assert(h.slots(i) == g.slots(i));
            assert(h.headers()[i] == g.headers()[i]);
            assert(ranged(g.slots(i), g.headers()[i].0 as nat, g.headers()[i].2, g.headers()[i].3, g.default_value.rank()));
        }
    }
}

/// The active slots of `s` whose value is above `v`, in order.
pub open spec fn above(s: Seq<(bool, u64, Seq<int>)>, v: Seq<int>) -> Seq<(bool, u64, Seq<int>)>
    decreases s.len(),
{
    if s.len() == 0 {
        Seq::empty()
    } else if s.last().0 && rank_lt(v, s.last().2) {
        above(s.drop_last(), v).push(s.last())
    } else {
        above(s.drop_last(), v)
    }
}

/// The active slots of `s` whose value is not above `v`, in order.
pub open spec fn not_above(s: Seq<(bool, u64, Seq<int>)>, v: Seq<int>) -> Seq<
    (bool, u64, Seq<int>),
>
    decreases s.len(),
{
    if s.len() == 0 {
        Seq::empty()
    } else if s.last().0 && !rank_lt(v, s.last().2) {
        not_above(s.drop_last(), v).push(s.last())
    } else {
        not_above(s.drop_last(), v)
    }
}

/// Clearing, in place, the active slots of `g` above `v` (among the first
/// `n`) leaves as active slots those not above `v`.
proof fn lemma_active_only_cleared(
    s: Seq<(bool, u64, Seq<int>)>,
    g: Seq<(bool, u64, Seq<int>)>,
    v: Seq<int>,
    dslot: (bool, u64, Seq<int>),
)
    requires
        s.len() == g.len(),
        !dslot.0,
        forall|k: int|
            0 <= k < g.len() ==> #[trigger] s[k] == if g[k].0 && rank_lt(v, g[k].2) {
                dslot
            } else {
                g[k]
            },
    ensures
        active_only(s) == not_above(g, v),
    decreases s.len(),
{
    if s.len() > 0 {
        let (s1, g1) = (s.drop_last(), g.drop_last());
        assert forall|k: int| 0 <= k < g1.len() implies #[trigger] s1[k] == if g1[k].0 && rank_lt(
            v,
            g1[k].2,
        ) {
            dslot
        } else {
            g1[k]
        } by {
            assert(s1[k] == s[k]);
            assert(g1[k] == g[k]);
        }
        lemma_active_only_cleared(s1, g1, v, dslot);
        assert(s[s.len() - 1] == s.last());
    }
}

/// An active slot of `s` not above `v` is among `not_above(s, v)`; every
/// element of `not_above(s, v)` is an active slot of `s` not above `v`.
proof fn lemma_not_above_elems(s: Seq<(bool, u64, Seq<int>)>, v: Seq<int>)
    ensures
        forall|j: int|
            0 <= j < s.len() && s[j].0 && !rank_lt(v, s[j].2) ==> not_above(s, v).contains(
                #[trigger] s[j],
            ),
        forall|e: (bool, u64, Seq<int>)|
            #[trigger] not_above(s, v).contains(e) ==> s.contains(e) && e.0 && !rank_lt(v, e.2),
    decreases s.len(),
{
    if s.len() > 0 {
        let t = s.drop_last();
        lemma_not_above_elems(t, v);
        let na = not_above(s, v);
        let nt = not_above(t, v);
        assert forall|j: int|
            0 <= j < s.len() && s[j].0 && !rank_lt(v, s[j].2) implies na.contains(
                #[trigger] s[j],
            ) by {
            if j < s.len() - 1 {
                assert(t[j] == s[j]);
                assert(nt.contains(t[j]));
                let i = choose|i: int| 0 <= i < nt.len() && nt[i] == t[j];
                if s.last().0 && !rank_lt(v, s.last().2) {
                    assert(na[i] == nt[i]);
                }
            } else {
                assert(na[na.len() - 1] == s[j]);
            }
        }
        assert forall|e: (bool, u64, Seq<int>)| #[trigger] na.contains(e) implies s.contains(e)
            && e.0 && !rank_lt(v, e.2) by {
            let i = choose|i: int| 0 <= i < na.len() && na[i] == e;
            if s.last().0 && !rank_lt(v, s.last().2) && i == na.len() - 1 {
                assert(s[s.len() - 1] == e);
            } else {
                assert(nt[i] == e);
                assert(nt.contains(e));
                let j = choose|j: int| 0 <= j < t.len() && t[j] == e;
                assert(s[j] == e);
            }
        }
    }
}

/// An active slot of `s` above `v` makes `above(s, v)` non-empty.
proof fn lemma_above_nonempty(s: Seq<(bool, u64, Seq<int>)>, v: Seq<int>, j: int)
    requires
        0 <= j < s.len(),
        s[j].0,
        rank_lt(v, s[j].2),
    ensures
        above(s, v).len() >= 1,
    decreases s.len(),
{
    if j < s.len() - 1 {
        lemma_above_nonempty(s.drop_last(), v, j);
    }
}

/// Inactive slots after the first `c` add nothing to either filter.
proof fn lemma_filters_tail(s: Seq<(bool, u64, Seq<int>)>, v: Seq<int>, c: int)
    requires
        0 <= c <= s.len(),
        forall|k: int| c <= k < s.len() ==> !(#[trigger] s[k]).0,
    ensures
        not_above(s, v) == not_above(s.subrange(0, c), v),
        above(s, v) == above(s.subrange(0, c), v),
    decreases s.len(),
{
    if s.len() > c {
        let t = s.drop_last();
        assert forall|k: int| c <= k < t.len() implies !(#[trigger] t[k]).0 by {
            assert(t[k] == s[k]);
        }
        lemma_filters_tail(t, v, c);
        assert(t.subrange(0, c) =~= s.subrange(0, c));
    } else {
        assert(s.subrange(0, c) =~= s);
    }
}

/// The fragment left after a split: its old entries not above `v`, packed
/// in some order, and then the new entry of value `v`, lie within
/// `[min, v]`.
proof fn lemma_split_ranged(
    sr: Seq<(bool, u64, Seq<int>)>,
    k: int,
    x: (bool, u64, Seq<int>),
    gs: Seq<(bool, u64, Seq<int>)>,
    c: int,
    v: Seq<int>,
    min: Seq<int>,
    max: Seq<int>,
    d: Seq<int>,
)
    requires
        0 <= k < sr.len(),
        sr.subrange(0, k).to_multiset() == not_above(gs, v).to_multiset(),
        packed(gs, c as nat),
        ranged(gs, c as nat, min, max, d),
        c > 0,
        x.2 == v,
        v != d,
        rank_lt(min, v),
    ensures
        ranged(sr.update(k, x), (k + 1) as nat, min, v, d),
{
    let t = sr.update(k, x);
    let pre = sr.subrange(0, k);
    lemma_not_above_elems(gs, v);
    lemma_rank_lt_irreflexive(v);
    lemma_rank_lt_total(min, v);
    assert forall|j: int| 0 <= j < k + 1 implies (#[trigger] t[j]).2 != d && !rank_lt(t[j].2, min)
        && !rank_lt(v, t[j].2) by {
        if j < k {
            assert(t[j] == sr[j]);
            assert(pre[j] == sr[j]);
            assert(pre.contains(sr[j]));
            vstd::seq_lib::to_multiset_contains(pre, sr[j]);
            vstd::seq_lib::to_multiset_contains(not_above(gs, v), sr[j]);
            assert(gs.contains(sr[j]));
            let i = choose|i: int| 0 <= i < gs.len() && gs[i] == sr[j];
            assert(gs[i].0);
            assert(i < c);
        } else {
            assert(t[j] == x);
        }
    }
    let k0 = choose|i: int| 0 <= i < c && (#[trigger] gs[i]).2 == min;
    assert(gs[k0].0);
    assert(not_above(gs, v).contains(gs[k0]));
    vstd::seq_lib::to_multiset_contains(not_above(gs, v), gs[k0]);
    vstd::seq_lib::to_multiset_contains(pre, gs[k0]);
    let j0 = choose|j: int| 0 <= j < pre.len() && pre[j] == gs[k0];
    assert(t[j0] == sr[j0]);
    assert(t[j0].2 == min);
    assert(t[k].2 == v);
}

/// A directory of index fragments, held in memory.
pub struct SortedIndexFiles<T> {
    pub folder: String,
    /// A bound on fragments that are not full, before they are compacted
    /// (reserved).
    pub max_incomplete_fragments_count: u32,
    /// The number of slots that may be shifted in place before a split is
    /// preferred (reserved).
    pub shift_threshold: u32,
    /// The number of slots in each fragment.
    pub max_records_count_per_fragments: u32,
    pub fragments: Vec<Fragment<T>>,
    pub fragment_count: usize,
    /// The value that stands for an empty range and fills cleared slots.
    pub default_value: T,
    /// The value size that slots are written with.
    pub value_size: usize,
}

impl<T: IndexValue> SortedIndexFiles<T> {
    pub open spec fn wf(&self) -> bool {
        &&& self.fragments@.len() == self.fragment_count
        &&& forall|i: int|
            0 <= i < self.fragments@.len() ==> {
                let f = #[trigger] self.fragments@[i];
                &&& f.slots@.len() == self.max_records_count_per_fragments
                &&& f.header.max_records_count == self.max_records_count_per_fragments
                &&& f.header.shift_threshold == self.shift_threshold
            }
    }

    /// The headers of the open fragments, with values seen through ranks.
    pub open spec fn headers(&self) -> Seq<(u32, u32, Seq<int>, Seq<int>)> {
        self.fragments@.map_values(
            |f: Fragment<T>|
                (
                    f.header.records_count,
                    f.header.max_records_count,
                    f.header.min_value.rank(),
                    f.header.max_value.rank(),
                ),
        )
    }

    /// Every fragment holds its entries packed at its start, counted by its
    /// header.
    pub open spec fn all_packed(&self) -> bool {
        forall|i: int|
            0 <= i < self.fragments@.len() ==> #[trigger] packed(
                self.slots(i),
                self.headers()[i].0 as nat,
            )
    }

    /// `self` is `old` after fragment `num` was split around the value of
    /// `ix`: fragment `num` holds its old entries that are not above the value
    /// and then the new entry, its upper bound is the value, and a new
    /// fragment holds, in order, its old entries above the value.
    pub open spec fn split_from(&self, old: &Self, num: int, ix: FenseIndex<T>) -> bool {
        let n = old.fragments@.len() as int;
        let v = ix.value.rank();
        let gs = old.slots(num);
        &&& self.fragments@.len() == n + 1
        &&& agree_below(self, old, n, num)
        &&& self.fragment_entries(num) == not_above(gs, v).to_multiset().insert(
            (true, ix.target, v),
        )
        &&& self.slots(n).subrange(0, self.headers()[n].0 as int) == above(gs, v)
        &&& self.headers()[num].3 == v
    }

    /// Every fragment holds its entries packed and within its header's
    /// range, none of them the default value.
    pub open spec fn well_kept(&self) -> bool {
        &&& self.all_packed()
        &&& forall|i: int|
            0 <= i < self.fragments@.len() ==> #[trigger] ranged(
                self.slots(i),
                self.headers()[i].0 as nat,
                self.headers()[i].2,
                self.headers()[i].3,
                self.default_value.rank(),
            )
    }

    /// The entries of a fragment that holds them packed.
    pub open spec fn fragment_entries(&self, i: int) -> Multiset<(bool, u64, Seq<int>)> {
        self.slots(i).subrange(0, self.headers()[i].0 as int).to_multiset()
    }

    /// The entries of fragments `0..n`.
    pub open spec fn entries_upto(&self, n: int) -> Multiset<(bool, u64, Seq<int>)>
        decreases n,
    {
        if n <= 0 {
            Multiset::empty()
        } else {
            self.entries_upto(n - 1).add(self.fragment_entries(n - 1))
        }
    }

    /// The entries of the whole index.
    pub open spec fn entries(&self) -> Multiset<(bool, u64, Seq<int>)> {
        self.entries_upto(self.fragments@.len() as int)
    }

    /// The slots of fragment `num`.
    pub open spec fn slots(&self, num: int) -> Seq<(bool, u64, Seq<int>)> {
        slots_view(self.fragments@[num].slots@)
    }

    pub fn new_with_defaults(folder: String, default_value: T, value_size: usize) -> (r: Self)
        ensures
            r.wf(),
            r.fragment_count == 0,
            r.max_incomplete_fragments_count == 10,
            r.shift_threshold == 10_000,
            r.max_records_count_per_fragments == 100_000,
            r.default_value == default_value,
            r.value_size == value_size,
    {
        Self::new(folder, default_value, value_size, 10, 10_000, 100_000)
    }

    /// An index with no fragments open yet.
    pub fn new(
        folder: String,
        default_value: T,
        value_size: usize,
        max_incomplete_fragments_count: u32,
        shift_threshold: u32,
        max_records_count_per_fragments: u32,
    ) -> (r: Self)
        ensures
            r.wf(),
            r.fragment_count == 0,
            r.all_packed(),
            r.well_kept(),
            r.entries() =~= Multiset::empty(),
            r.folder == folder,
            r.max_incomplete_fragments_count == max_incomplete_fragments_count,
            r.shift_threshold == shift_threshold,
            r.max_records_count_per_fragments == max_records_count_per_fragments,
            r.default_value == default_value,
            r.value_size == value_size,
    {
        Self {
            folder,
            max_incomplete_fragments_count,
            shift_threshold,
            max_records_count_per_fragments,
            fragments: Vec::new(),
            fragment_count: 0,
            default_value,
            value_size,
        }
    }

    /// Opens fragment `num`: a new fragment (all slots inactive, an empty
    /// range at the default value) when `num` is the next number, nothing
    /// when it is already open.
    pub fn open_fragment(&mut self, num: usize) -> (r: Result<(), IndexError>)
        requires
            old(self).wf(),
        ensures
            final(self).wf(),
            r is Ok <==> num <= old(self).fragment_count,
            num < old(self).fragment_count ==> *final(self) == *old(self),
            num > old(self).fragment_count ==> *final(self) == *old(self),
            num == old(self).fragment_count ==> {
                &&& final(self).fragment_count == old(self).fragment_count + 1
                &&& final(self).fragments@.subrange(0, num as int) == old(self).fragments@
                &&& final(self).headers()[num as int] == (
                    0u32,
                    old(self).max_records_count_per_fragments,
                    old(self).default_value.rank(),
                    old(self).default_value.rank(),
                )
                &&& forall|k: int|
                    0 <= k < old(self).max_records_count_per_fragments ==> #[trigger] final(self).slots(num as int)[k] == (false, 0u64, old(self).default_value.rank())
                &&& final(self).default_value == old(self).default_value
                &&& final(self).max_records_count_per_fragments == old(self).max_records_count_per_fragments
                &&& final(self).shift_threshold == old(self).shift_threshold
                &&& final(self).value_size == old(self).value_size
            },
            old(self).all_packed() ==> final(self).all_packed() && final(self).entries() == old(
                self,
            ).entries(),
            old(self).well_kept() ==> final(self).well_kept(),
    {
        if num < self.fragment_count {
            return Ok(());
        }
        if num > self.fragment_count {
            return Err(IndexError::NoSuchSlot);
        }
        let n = self.max_records_count_per_fragments;
        let mut slots: Vec<FenseIndex<T>> = Vec::with_capacity(n as usize);
        let mut i: u32 = 0;
        while i < n
            invariant
                i <= n,
                slots@.len() == i,
                forall|k: int|
                    0 <= k < i ==> #[trigger] slot_view(slots@[k]) == (
                        false,
                        0u64,
                        self.default_value.rank(),
                    ),
            decreases n - i,
        {
            slots.push(FenseIndex { active: false, target: 0, value: self.default_value.duplicate() });
            i = i + 1;
        }
        let header = SortedIndexTableFragmentHeader {
            records_count: 0,
            max_records_count: n,
            shift_threshold: self.shift_threshold,
            min_value: self.default_value.duplicate(),
            max_value: self.default_value.duplicate(),
        };
        self.fragments.push(Fragment { header, slots });
        self.fragment_count = self.fragments.len();
        proof {
            assert(self.fragments@.subrange(0, num as int) =~= old(self).fragments@);
            if old(self).all_packed() {
                lemma_open_entries(self, old(self));
            }
            if old(self).well_kept() {
                assert forall|k: int|
                    0 <= k < self.slots(num as int).len() implies !(#[trigger] self.slots(
                        num as int,
                    )[k]).0 by {
                    assert(self.fragments@[num as int].slots@ == slots@);
                }
                lemma_open_kept(self, old(self));
            }
            assert forall|i: int| 0 <= i < self.fragments@.len() implies {
                let f = #[trigger] self.fragments@[i];
                &&& f.slots@.len() == self.max_records_count_per_fragments
                &&& f.header.max_records_count == self.max_records_count_per_fragments
                &&& f.header.shift_threshold == self.shift_threshold
            } by {
                if i < num {
                    assert(self.fragments@[i] == old(self).fragments@[i]);
                }
            }
        }
        Ok(())
    }


    /// Everything but fragment `num` is as in `old`.
    pub open spec fn same_but(&self, old: &Self, num: int) -> bool {
        &&& self.folder == old.folder
        &&& self.max_incomplete_fragments_count == old.max_incomplete_fragments_count
        &&& self.shift_threshold == old.shift_threshold
        &&& self.max_records_count_per_fragments == old.max_records_count_per_fragments
        &&& self.fragment_count == old.fragment_count
        &&& self.default_value == old.default_value
        &&& self.value_size == old.value_size
        &&& self.fragments@.len() == old.fragments@.len()
        &&& forall|i: int|
            0 <= i < self.fragments@.len() && i != num ==> #[trigger] self.fragments@[i]
                == old.fragments@[i]
    }

    /// Writes `ix` as an active slot at `offset` of fragment `num`, counts one
    /// more record, and widens the fragment's range to the value.
    pub fn write_offset(&mut self, num: usize, ix: FenseIndex<T>, offset: u32) -> (r: Result<
        (),
        IndexError,
    >)
        requires
            old(self).wf(),
        ensures
            final(self).wf(),
            r is Ok <==> num < old(self).fragment_count && offset
                < old(self).max_records_count_per_fragments && old(
                self,
            ).headers()[num as int].0 < u32::MAX,
            r is Err ==> *final(self) == *old(self),
            r is Ok ==> {
                let h = old(self).headers()[num as int];
                let d = old(self).default_value.rank();
                &&& final(self).same_but(old(self), num as int)
                &&& final(self).slots(num as int) == old(self).slots(num as int).update(
                    offset as int,
                    (true, ix.target, ix.value.rank()),
                )
                &&& final(self).headers()[num as int] == (
                    (h.0 + 1) as u32,
                    h.1,
                    widened_min(h.2, d, ix.value.rank()),
                    widened_max(h.3, d, ix.value.rank()),
                )
            },
    {
        if num >= self.fragments.len() || offset >= self.max_records_count_per_fragments {
            return Err(IndexError::NoSuchSlot);
        }
        if self.fragments[num].header.records_count == u32::MAX {
            return Err(IndexError::NoSuchSlot);
        }
        let ghost before = *self;
        let new_min = if value_lt(&ix.value, &self.fragments[num].header.min_value) || value_eq(
            &self.default_value,
            &self.fragments[num].header.min_value,
        ) {
            ix.value.duplicate()
        } else {
            self.fragments[num].header.min_value.duplicate()
        };
        let new_max = if value_lt(&self.fragments[num].header.max_value, &ix.value) || value_eq(
            &self.default_value,
            &self.fragments[num].header.max_value,
        ) {
            ix.value.duplicate()
        } else {
            self.fragments[num].header.max_value.duplicate()
        };
        let count = self.fragments[num].header.records_count + 1;
        let slot = FenseIndex { active: true, target: ix.target, value: ix.value };
        self.fragments[num].slots[offset as usize] = slot;
        self.fragments[num].header.records_count = count;
        self.fragments[num].header.min_value = new_min;
        self.fragments[num].header.max_value = new_max;
        proof {
            assert(self.slots(num as int) =~= before.slots(num as int).update(
                offset as int,
                (true, ix.target, ix.value.rank()),
            ));
        }
        Ok(())
    }


    /// Makes slot `offset` of fragment `num` inactive (target 0, the default
    /// value) and counts one record less.
    pub fn clear_offset(&mut self, num: usize, offset: u32) -> (r: Result<(), IndexError>)
        requires
            old(self).wf(),
        ensures
            final(self).wf(),
            r is Ok <==> num < old(self).fragment_count && offset
                < old(self).max_records_count_per_fragments && old(
                self,
            ).headers()[num as int].0 > 0,
            r is Err ==> *final(self) == *old(self),
            r is Ok ==> {
                let h = old(self).headers()[num as int];
                &&& final(self).same_but(old(self), num as int)
                &&& final(self).slots(num as int) == old(self).slots(num as int).update(
                    offset as int,
                    (false, 0u64, old(self).default_value.rank()),
                )
                &&& final(self).headers()[num as int] == ((h.0 - 1) as u32, h.1, h.2, h.3)
            },
    {
        if num >= self.fragments.len() || offset >= self.max_records_count_per_fragments {
            return Err(IndexError::NoSuchSlot);
        }
        if self.fragments[num].header.records_count == 0 {
            return Err(IndexError::NoSuchSlot);
        }
        let ghost before = *self;
        let slot = FenseIndex { active: false, target: 0, value: self.default_value.duplicate() };
        self.fragments[num].slots[offset as usize] = slot;
        self.fragments[num].header.records_count = self.fragments[num].header.records_count - 1;
        proof {
            assert(self.slots(num as int) =~= before.slots(num as int).update(
                offset as int,
                (false, 0u64, before.default_value.rank()),
            ));
        }
        Ok(())
    }

    /// Sets the range and the records count of fragment `num`.
    fn write_header(&mut self, num: usize, min_value: T, max_value: T, records_count: u32)
        requires
            old(self).wf(),
            num < old(self).fragment_count,
        ensures
            final(self).wf(),
            final(self).same_but(old(self), num as int),
            final(self).slots(num as int) == old(self).slots(num as int),
            final(self).headers()[num as int] == (
                records_count,
                old(self).max_records_count_per_fragments,
                min_value.rank(),
                max_value.rank(),
            ),
    {
        let ghost before = *self;
        self.fragments[num].header.records_count = records_count;
        self.fragments[num].header.min_value = min_value;
        self.fragments[num].header.max_value = max_value;
        assert(self.slots(num as int) =~= before.slots(num as int));
    }

    /// A copy of the header of fragment `num`.
    pub fn read_header(&self, num: usize) -> (r: Result<
        SortedIndexTableFragmentHeader<T>,
        IndexError,
    >)
        requires
            self.wf(),
        ensures
            r is Ok <==> num < self.fragment_count,
            r is Ok ==> {
                let h = r->Ok_0;
                (h.records_count, h.max_records_count, h.min_value.rank(), h.max_value.rank())
                    == self.headers()[num as int] && h.shift_threshold == self.shift_threshold
            },
    {
        if num >= self.fragments.len() {
            return Err(IndexError::NoSuchSlot);
        }
        let h = &self.fragments[num].header;
        Ok(
            SortedIndexTableFragmentHeader {
                records_count: h.records_count,
                max_records_count: h.max_records_count,
                shift_threshold: h.shift_threshold,
                min_value: h.min_value.duplicate(),
                max_value: h.max_value.duplicate(),
            },
        )
    }

    /// A copy of slot `offset` of fragment `num`.
    pub fn read_offset(&self, num: usize, offset: u64) -> (r: Result<FenseIndex<T>, IndexError>)
        requires
            self.wf(),
        ensures
            r is Ok <==> num < self.fragment_count && offset < self.max_records_count_per_fragments,
            r is Ok ==> slot_view(r->Ok_0) == self.slots(num as int)[offset as int],
    {
        if num >= self.fragments.len() || offset >= self.max_records_count_per_fragments as u64 {
            return Err(IndexError::NoSuchSlot);
        }
        let s = &self.fragments[num].slots[offset as usize];
        Ok(FenseIndex { active: s.active, target: s.target, value: s.value.duplicate() })
    }

    /// Copies of the active slots of fragment `num`, from slot `offset` on,
    /// in slot order.
    pub fn read_all_indexes(&self, num: usize, offset: u64) -> (r: Result<
        Vec<FenseIndex<T>>,
        IndexError,
    >)
        requires
            self.wf(),
        ensures
            r is Ok <==> num < self.fragment_count,
            r is Ok ==> slots_view(r->Ok_0@) == active_from(self.slots(num as int), offset as int),
    {
        if num >= self.fragments.len() {
            return Err(IndexError::NoSuchSlot);
        }
        let slots = &self.fragments[num].slots;
        let mut items: Vec<FenseIndex<T>> = Vec::new();
        let mut i: usize = if offset < slots.len() as u64 {
            offset as usize
        } else {
            slots.len()
        };
        let ghost start = i as int;
        let ghost all = slots_view(slots@);
        proof {
            assert(active_from(all, offset as int) == active_from(all, start));
            assert(all.subrange(start, start) =~= Seq::<(bool, u64, Seq<int>)>::empty());
            assert(slots_view(items@) =~= Seq::<(bool, u64, Seq<int>)>::empty());
        }
        while i < slots.len()
            invariant
                all == slots_view(slots@),
                all.len() == slots@.len(),
                0 <= start <= i <= slots@.len(),
                slots_view(items@) == active_only(all.subrange(start, i as int)),
            decreases slots.len() - i,
        {
            let s = &slots[i];
            proof {
                assert(all.subrange(start, i + 1) =~= all.subrange(start, i as int).push(all[i as int]));
                lemma_active_only_push(all.subrange(start, i as int), all[i as int]);
            }
            if s.active {
                let copy = FenseIndex { active: s.active, target: s.target, value: s.value.duplicate() };
                proof {
                    assert(slots_view(items@.push(copy)) =~= slots_view(items@).push(slot_view(copy)));
                }
                items.push(copy);
            }
            i = i + 1;
        }
        proof {
            assert(all.subrange(start, i as int) =~= all.subrange(start, all.len() as int));
        }
        Ok(items)
    }


    /// Packs the active slots of fragment `num` at its start, in ascending
    /// order of value and then target, makes every later slot inactive, and
    /// sets the records count to the number of active slots.
    pub fn reorder_indexes(&mut self, num: usize) -> (r: Result<(), IndexError>)
        requires
            old(self).wf(),
        ensures
            final(self).wf(),
            r is Ok <==> num < old(self).fragment_count,
            r is Err ==> *final(self) == *old(self),
            r is Ok ==> {
                let before = active_from(old(self).slots(num as int), 0);
                let after = final(self).slots(num as int);
                let k = before.len();
                let h = old(self).headers()[num as int];
                &&& final(self).same_but(old(self), num as int)
                &&& sorted_slots(after.subrange(0, k as int))
                &&& after.subrange(0, k as int).to_multiset() == before.to_multiset()
                &&& forall|j: int| 0 <= j < k ==> (#[trigger] after[j]).0
                &&& forall|j: int|
                    k <= j < after.len() ==> #[trigger] after[j] == (
                        false,
                        0u64,
                        old(self).default_value.rank(),
                    )
                &&& final(self).headers()[num as int] == (k as u32, h.1, h.2, h.3)
            },
    {
        let mut items = match self.read_all_indexes(num, 0) {
            Ok(items) => items,
            Err(e) => {
                return Err(e);
            },
        };
        let ghost before = *self;
        let ghost all = active_from(self.slots(num as int), 0);
        proof {
            lemma_active_from_active(self.slots(num as int), 0);
        }
        let mut sorted: Vec<FenseIndex<T>> = Vec::new();
        proof {
            assert(slots_view(sorted@) =~= Seq::<(bool, u64, Seq<int>)>::empty());
            lemma_empty_multiset(slots_view(sorted@));
            assert(slots_view(sorted@).to_multiset().add(slots_view(items@).to_multiset())
                =~= all.to_multiset());
        }
        while items.len() > 0
            invariant
                sorted_slots(slots_view(sorted@)),
                slots_view(sorted@).to_multiset().add(slots_view(items@).to_multiset())
                    == all.to_multiset(),
            decreases items.len(),
        {
            let ghost prev = slots_view(items@);
            match items.pop() {
                Some(x) => {
                    proof {
                        assert(prev =~= slots_view(items@).push(slot_view(x)));
                        vstd::seq_lib::to_multiset_build(slots_view(items@), slot_view(x));
                    }
                    insert_sorted(&mut sorted, x);
                    proof {
                        assert(slots_view(sorted@).to_multiset().add(slots_view(items@).to_multiset())
                            =~= all.to_multiset());
                    }
                },
                None => {},
            }
        }
        let ghost sv = slots_view(sorted@);
        proof {
            assert(slots_view(items@) =~= Seq::<(bool, u64, Seq<int>)>::empty());
            lemma_empty_multiset(slots_view(items@));
            assert(sv.to_multiset() =~= all.to_multiset());
            vstd::seq_lib::to_multiset_len(sv);
            vstd::seq_lib::to_multiset_len(all);
            assert forall|j: int| 0 <= j < sv.len() implies (#[trigger] sv[j]).0 by {
                vstd::seq_lib::to_multiset_contains(sv, sv[j]);
                vstd::seq_lib::to_multiset_contains(all, sv[j]);
                assert(sv.contains(sv[j]));
            }
        }
        let k = sorted.len();
        let max = self.max_records_count_per_fragments as usize;
        let mut j: usize = 0;
        while j < k
            invariant
                self.wf(),
                self.same_but(&before, num as int),
                num < self.fragments@.len(),
                sv == slots_view(sorted@),
                k == sv.len(),
                k <= max,
                max == self.max_records_count_per_fragments,
                self.fragments@[num as int].header == before.fragments@[num as int].header,
                forall|i: int| 0 <= i < sv.len() ==> (#[trigger] sv[i]).0,
                j <= k,
                forall|i: int| 0 <= i < j ==> #[trigger] self.slots(num as int)[i] == sv[i],
            decreases k - j,
        {
            let slot = FenseIndex {
                active: true,
                target: sorted[j].target,
                value: sorted[j].value.duplicate(),
            };
            let ghost prev = self.slots(num as int);
            self.fragments[num].slots[j] = slot;
            proof {
                assert(self.slots(num as int) =~= prev.update(j as int, sv[j as int]));
            }
            j = j + 1;
        }
        while j < max
            invariant
                self.wf(),
                self.same_but(&before, num as int),
                num < self.fragments@.len(),
                max == self.max_records_count_per_fragments,
                self.fragments@[num as int].header == before.fragments@[num as int].header,
                k <= j <= max,
                k == sv.len(),
                forall|i: int| 0 <= i < k ==> #[trigger] self.slots(num as int)[i] == sv[i],
                forall|i: int|
                    k <= i < j ==> #[trigger] self.slots(num as int)[i] == (
                        false,
                        0u64,
                        self.default_value.rank(),
                    ),
            decreases max - j,
        {
            let slot = FenseIndex { active: false, target: 0, value: self.default_value.duplicate() };
            let ghost prev = self.slots(num as int);
            self.fragments[num].slots[j] = slot;
            proof {
                assert(self.slots(num as int) =~= prev.update(
                    j as int,
                    (false, 0u64, self.default_value.rank()),
                ));
            }
            j = j + 1;
        }
        proof {
            assert(self.slots(num as int).subrange(0, k as int) =~= sv);
        }
        let ghost packed = self.slots(num as int);
        self.fragments[num].header.records_count = k as u32;
        assert(self.slots(num as int) == packed);
        Ok(())
    }


    /// Where a new entry with the value of `ix` goes (see [`choose_fragment`]).
    pub fn get_index_file_num_for_store(&self, ix: &FenseIndex<T>) -> (r: Result<
        FileNumberAssignment,
        IndexError,
    >)
        requires
            self.wf(),
        ensures
            r == Ok::<FileNumberAssignment, IndexError>(
                choose_fragment(self.headers(), self.default_value.rank(), ix.value.rank(), 0),
            ),
    {
        let ghost hs = self.headers();
        let ghost d = self.default_value.rank();
        let ghost v = ix.value.rank();
        let mut i: usize = 0;
        while i < self.fragments.len()
            invariant
                hs == self.headers(),
                hs.len() == self.fragments@.len(),
                d == self.default_value.rank(),
                v == ix.value.rank(),
                i <= self.fragments@.len(),
                choose_fragment(hs, d, v, 0) == choose_fragment(hs, d, v, i as int),
            decreases self.fragments.len() - i,
        {
            let header = &self.fragments[i].header;
            let value_is_in_range = value_lt(&header.min_value, &ix.value) && value_lt(
                &ix.value,
                &header.max_value,
            );
            if header.records_count >= header.max_records_count && value_is_in_range {
                return Ok(FileNumberAssignment::Split(i));
            }
            if value_eq(&header.min_value, &self.default_value) && value_eq(
                &header.max_value,
                &self.default_value,
            ) {
                return Ok(FileNumberAssignment::Specific(i));
            }
            if header.records_count < header.max_records_count {
                return Ok(FileNumberAssignment::Specific(i));
            }
            if value_is_in_range {
                return Ok(FileNumberAssignment::Specific(i));
            }
            i = i + 1;
        }
        Ok(FileNumberAssignment::NextAvailable)
    }

    /// Stores a new entry: after the last entry of the fragment that
    /// [`choose_fragment`] picks, or at the start of a new fragment, or,
    /// when that fragment is full and the value falls strictly inside its
    /// range, after splitting it: its entries above the value move to a new
    /// fragment, the rest are packed in order, and the entry follows them.
    pub fn store(&mut self, ix: FenseIndex<T>) -> (r: Result<(), IndexError>)
        requires
            old(self).wf(),
        ensures
            final(self).wf(),
            final(self).default_value == old(self).default_value,
            final(self).max_records_count_per_fragments == old(self).max_records_count_per_fragments,
            ({
                let choice = choose_fragment(
                    old(self).headers(),
                    old(self).default_value.rank(),
                    ix.value.rank(),
                    0,
                );
                let entry = (true, ix.target, ix.value.rank());
                match choice {
                    FileNumberAssignment::Specific(num) => {
                        let h = old(self).headers()[num as int];
                        &&& h.0 < old(self).max_records_count_per_fragments ==> r is Ok
                        &&& r is Ok ==> final(self).same_but(old(self), num as int)
                            && final(self).slots(num as int) == old(self).slots(num as int).update(
                            h.0 as int,
                            entry,
                        )
                    },
                    FileNumberAssignment::NextAvailable => {
                        &&& old(self).max_records_count_per_fragments > 0 ==> r is Ok
                        &&& r is Ok ==> final(self).fragment_count == old(self).fragment_count + 1
                            && final(self).fragments@.subrange(0, old(self).fragment_count as int)
                            == old(self).fragments@ && final(self).slots(
                            old(self).fragment_count as int,
                        )[0] == entry
                    },
                    FileNumberAssignment::Split(num) => {
                        &&& r is Ok ==> final(self).fragment_count == old(self).fragment_count + 1
                        &&& old(self).all_packed() && r is Ok ==> final(self).split_from(
                            old(self),
                            num as int,
                            ix,
                        )
                    },
                }
            }),
            old(self).all_packed() && r is Ok ==> final(self).all_packed() && final(self).entries()
                == old(self).entries().insert((true, ix.target, ix.value.rank())),
            old(self).well_kept() && ix.value.rank() != old(self).default_value.rank() && old(
                self,
            ).max_records_count_per_fragments > 0 ==> r is Ok,
            old(self).well_kept() && ix.value.rank() != old(self).default_value.rank() && r is Ok
                ==> final(self).well_kept(),
    {
        let choice = match self.get_index_file_num_for_store(&ix) {
            Ok(c) => c,
            Err(e) => {
                return Err(e);
            },
        };
        proof {
            lemma_choose_bounds(self.headers(), self.default_value.rank(), ix.value.rank(), 0);
        }
        match choice {
            FileNumberAssignment::Specific(num) => {
                let count = self.fragments[num].header.records_count;
                let ghost x = (true, ix.target, ix.value.rank());
                let ghost kept = old(self).well_kept() && ix.value.rank() != old(
                    self,
                ).default_value.rank();
                proof {
                    if kept && old(self).max_records_count_per_fragments > 0 {
                        let h = old(self).headers()[num as int];
                        assert(ranged(old(self).slots(num as int), h.0 as nat, h.2, h.3, old(self).default_value.rank()));
                        if h.0 > 0 {
                            let k0 = choose|k: int| 0 <= k < h.0 && (#[trigger] old(self).slots(num as int)[k]).2 == h.2;
                            assert(old(self).slots(num as int)[k0].2 != old(self).default_value.rank());
                        }
                        assert(h.0 < old(self).max_records_count_per_fragments);
                    }
                }
                let r = self.write_offset(num, ix, count);
                proof {
                    if old(self).all_packed() && r is Ok {
                        lemma_append_entry(self, old(self), num as int, x);
                    }
                    if kept && r is Ok {
                        lemma_append_kept(self, old(self), num as int, x);
                    }
                }
                r
            },
            FileNumberAssignment::NextAvailable => {
                let next_num = self.fragment_count;
                match self.open_fragment(next_num) {
                    Ok(()) => {},
                    Err(e) => {
                        return Err(e);
                    },
                }
                let ghost opened = *self;
                let ghost x = (true, ix.target, ix.value.rank());
                proof {
                    if old(self).all_packed() {
                        lemma_open_entries(&opened, old(self));
                    }
                }
                let r = self.write_offset(next_num, ix, 0);
                proof {
                    if old(self).all_packed() && r is Ok {
                        lemma_append_entry(self, &opened, next_num as int, x);
                    }
                    if old(self).well_kept() && ix.value.rank() != old(self).default_value.rank() {
                        lemma_open_kept(&opened, old(self));
                        if r is Ok {
                            lemma_append_kept(self, &opened, next_num as int, x);
                        }
                    }
                }
                r
            },
            FileNumberAssignment::Split(num) => self.split_and_store(num, ix),
        }
    }

    /// Splits fragment `num` around the value of `ix`, and stores `ix` in it.
    fn split_and_store(&mut self, num: usize, ix: FenseIndex<T>) -> (r: Result<(), IndexError>)
        requires
            old(self).wf(),
            num < old(self).fragment_count,
            old(self).headers()[num as int].0 >= old(self).max_records_count_per_fragments,
            rank_lt(old(self).headers()[num as int].2, ix.value.rank()),
            rank_lt(ix.value.rank(), old(self).headers()[num as int].3),
        ensures
            final(self).wf(),
            final(self).default_value == old(self).default_value,
            final(self).max_records_count_per_fragments == old(self).max_records_count_per_fragments,
            r is Ok ==> final(self).fragment_count == old(self).fragment_count + 1,
            old(self).all_packed() && r is Ok ==> final(self).all_packed() && final(self).entries()
                == old(self).entries().insert((true, ix.target, ix.value.rank())),
            old(self).all_packed() && r is Ok ==> final(self).split_from(old(self), num as int, ix),
            old(self).well_kept() && ix.value.rank() != old(self).default_value.rank() ==> r is Ok
                && final(self).well_kept(),
    {
        let ghost g = *old(self);
        let ghost packed0 = g.all_packed();
        let ghost kept0 = g.well_kept() && ix.value.rank() != g.default_value.rank();
        let ghost c = g.headers()[num as int].0 as int;
        let ghost gs = g.slots(num as int);
        let ghost v = ix.value.rank();
        let ghost d = g.default_value.rank();
        let ghost min_h = g.headers()[num as int].2;
        let ghost max_h = g.headers()[num as int].3;
        proof {
            assert(g.fragments@[num as int].slots@.len() == g.max_records_count_per_fragments);
            if packed0 {
                assert(packed(gs, c as nat));
                lemma_packed_active_only(gs, c as nat);
            }
            if kept0 {
                assert(ranged(gs, c as nat, min_h, max_h, d));
            }
        }
        let header = match self.read_header(num) {
            Ok(h) => h,
            Err(e) => {
                return Err(e);
            },
        };
        let value_is_in_range = value_lt(&header.min_value, &ix.value) && value_lt(
            &ix.value,
            &header.max_value,
        );
        if !value_is_in_range {
            return Err(IndexError::OutOfRangeSplit);
        }
        let next_num = self.fragment_count;
        match self.open_fragment(next_num) {
            Ok(()) => {},
            Err(e) => {
                return Err(e);
            },
        }
        let ghost h1 = *self;
        proof {
            if packed0 {
                lemma_open_entries(&h1, &g);
            }
            assert(self.slots(next_num as int).subrange(0, 0) =~= Seq::<(bool, u64, Seq<int>)>::empty());
            lemma_empty_multiset(self.slots(next_num as int).subrange(0, 0));
            assert(packed(self.slots(next_num as int), 0));
            assert forall|k: int| 0 <= k < gs.len() implies #[trigger] self.slots(num as int)[k] == gs[k] by {
                assert(self.fragments@[num as int] == g.fragments@[num as int]);
            }
            if packed0 {
                assert(active_only(self.slots(num as int)) == active_only(gs)) by {
                    assert(self.slots(num as int) =~= gs);
                }
                assert(active_only(self.slots(num as int)).to_multiset().add(
                    self.slots(next_num as int).subrange(0, 0).to_multiset(),
                ) =~= gs.subrange(0, c).to_multiset());
            }
        }
        // move every entry above the new value to the new fragment
        let mut next_fragment_min_value = self.default_value.duplicate();
        let mut next_fragment_max_value = self.default_value.duplicate();
        let mut next_fragment_records_count: u32 = 0;
        let mut old_fragment_records_count: u32 = header.records_count;
        let mut offset: u32 = 0;
        while offset < header.records_count
            invariant
                self.wf(),
                self.fragment_count == h1.fragment_count,
                h1.fragment_count == old(self).fragment_count + 1,
                num < next_num,
                next_num + 1 == self.fragment_count,
                self.default_value == old(self).default_value,
                self.max_records_count_per_fragments == old(self).max_records_count_per_fragments,
                self.shift_threshold == h1.shift_threshold,
                self.fragments@.len() == h1.fragments@.len(),
                g == *old(self),
                kept0 == (g.well_kept() && ix.value.rank() != g.default_value.rank()),
                packed0 == g.all_packed(),
                v == ix.value.rank(),
                d == self.default_value.rank(),
                offset <= c,
                c == g.headers()[num as int].0,
                gs == g.slots(num as int),
                rank_lt(min_h, v),
                rank_lt(v, max_h),
                forall|k: int|
                    0 <= k < gs.len() ==> #[trigger] self.slots(num as int)[k] == if k < offset
                        && gs[k].0 && rank_lt(v, gs[k].2) {
                        (false, 0u64, d)
                    } else {
                        gs[k]
                    },
                self.slots(next_num as int).subrange(0, next_fragment_records_count as int) == above(
                    gs.subrange(0, offset as int),
                    v,
                ),
                packed0 ==> packed(gs, c as nat),
                kept0 ==> packed0 && ranged(gs, c as nat, min_h, max_h, d),
                kept0 ==> ranged(
                    self.slots(next_num as int),
                    next_fragment_records_count as nat,
                    next_fragment_min_value.rank(),
                    next_fragment_max_value.rank(),
                    d,
                ),
                forall|i: int|
                    0 <= i < self.fragments@.len() && i != num && i != next_num ==> #[trigger] self.fragments@[i]
                        == h1.fragments@[i],
                c == header.records_count,
                gs.len() == self.max_records_count_per_fragments,
                self.headers()[num as int].0 == old_fragment_records_count,
                self.headers()[next_num as int].0 == next_fragment_records_count,
                old_fragment_records_count + next_fragment_records_count == c,
                next_fragment_records_count <= offset,
                forall|k: int| offset <= k < gs.len() ==> #[trigger] self.slots(num as int)[k] == gs[k],
                packed(self.slots(next_num as int), next_fragment_records_count as nat),
                packed0 ==> packed(gs, c as nat),
                packed0 ==> active_only(self.slots(num as int)).to_multiset().add(
                    self.slots(next_num as int).subrange(0, next_fragment_records_count as int).to_multiset(),
                ) == gs.subrange(0, c).to_multiset(),
            decreases header.records_count - offset,
        {
            let old_ix = match self.read_offset(num, offset as u64) {
                Ok(x) => x,
                Err(e) => {
                    proof {
                        if kept0 {
                            assert(c <= gs.len());
                            assert(offset < self.max_records_count_per_fragments);
                        }
                    }
                    return Err(e);
                },
            };
            if old_ix.active && value_lt(&ix.value, &old_ix.value) {
                let ghost nmin0 = next_fragment_min_value.rank();
                let ghost nmax0 = next_fragment_max_value.rank();
                if !value_eq(&old_ix.value, &self.default_value) && (value_eq(
                    &next_fragment_min_value,
                    &self.default_value,
                ) || value_lt(&old_ix.value, &next_fragment_min_value)) {
                    next_fragment_min_value = old_ix.value.duplicate();
                }
                if !value_eq(&old_ix.value, &self.default_value) && (value_eq(
                    &next_fragment_max_value,
                    &self.default_value,
                ) || value_lt(&next_fragment_max_value, &old_ix.value)) {
                    next_fragment_max_value = old_ix.value.duplicate();
                }
                let ghost x = slot_view(old_ix);
                let ghost s_num = self.slots(num as int);
                let ghost s_next = self.slots(next_num as int);
                let ghost nf = next_fragment_records_count as int;
                if next_fragment_records_count >= self.max_records_count_per_fragments
                    || old_fragment_records_count == 0 {
                    return Err(IndexError::NoSuchSlot);
                }
                match self.write_offset(next_num, old_ix, next_fragment_records_count) {
                    Ok(()) => {},
                    Err(e) => {
                        return Err(e);
                    },
                }
                match self.clear_offset(num, offset) {
                    Ok(()) => {},
                    Err(e) => {
                        return Err(e);
                    },
                }
                proof {
                    let dslot = (false, 0u64, self.default_value.rank());
                    assert(self.slots(num as int) == s_num.update(offset as int, dslot));
                    assert(self.slots(next_num as int) == s_next.update(nf, x));
                    assert(self.slots(next_num as int).subrange(0, nf + 1) =~= s_next.subrange(0, nf).push(x));
                    vstd::seq_lib::to_multiset_build(s_next.subrange(0, nf), x);
                    assert forall|k: int| 0 <= k < self.slots(next_num as int).len() implies ((
                    #[trigger] self.slots(next_num as int)[k]).0 <==> k < nf + 1) by {
                        if k != nf {
                            assert(self.slots(next_num as int)[k] == s_next[k]);
                        }
                    }
                    if packed0 {
                        lemma_active_only_clear(s_num, offset as int, dslot);
                        lemma_active_only_contains(s_num, offset as int);
                        vstd::seq_lib::to_multiset_contains(active_only(s_num), x);
                        let a = active_only(s_num).to_multiset();
                        let bm = s_next.subrange(0, nf).to_multiset();
                        assert(a.remove(x).add(bm.insert(x)) =~= a.add(bm));
                    }
                    assert forall|k: int| offset + 1 <= k < gs.len() implies #[trigger] self.slots(num as int)[k] == gs[k] by {
                        assert(self.slots(num as int)[k] == s_num[k]);
                    }
                    assert(x == gs[offset as int]);
                    assert forall|k: int| 0 <= k < gs.len() implies #[trigger] self.slots(
                        num as int,
                    )[k] == if k < offset + 1 && gs[k].0 && rank_lt(v, gs[k].2) {
                        (false, 0u64, d)
                    } else {
                        gs[k]
                    } by {
                        if k != offset {
                            assert(self.slots(num as int)[k] == s_num[k]);
                        }
                    }
                    assert(gs.subrange(0, offset + 1).drop_last() =~= gs.subrange(0, offset as int));
                    assert(gs.subrange(0, offset + 1).last() == gs[offset as int]);
                    if kept0 {
                        assert(x.2 != d);
                        lemma_ranged_append(s_next, nf as nat, nmin0, nmax0, d, x);
                        assert(next_fragment_min_value.rank() == widened_min(nmin0, d, x.2));
                        assert(next_fragment_max_value.rank() == widened_max(nmax0, d, x.2));
                    }
                }
                next_fragment_records_count = next_fragment_records_count + 1;
                old_fragment_records_count = old_fragment_records_count - 1;
            } else {
                proof {
                    assert(slot_view(old_ix) == gs[offset as int]);
                    assert(gs.subrange(0, offset + 1).drop_last() =~= gs.subrange(0, offset as int));
                    assert(gs.subrange(0, offset + 1).last() == gs[offset as int]);
                }
            }
            offset = offset + 1;
        }
        let ghost nf_min = next_fragment_min_value.rank();
        let ghost nf_max = next_fragment_max_value.rank();
        let new_max = ix.value.duplicate();
        self.write_header(num, header.min_value, new_max, old_fragment_records_count);
        self.write_header(
            next_num,
            next_fragment_min_value,
            next_fragment_max_value,
            next_fragment_records_count,
        );
        let ghost s_num = self.slots(num as int);
        let ghost nfc = next_fragment_records_count as int;
        let ghost s_next = self.slots(next_num as int);
        let ghost dslot = (false, 0u64, d);
        proof {
            assert(offset == c);
            if packed0 {
                assert forall|k: int| 0 <= k < gs.len() implies #[trigger] s_num[k] == if gs[k].0
                    && rank_lt(v, gs[k].2) {
                    dslot
                } else {
                    gs[k]
                } by {
                    if k >= c {
                        assert(!gs[k].0);
                    }
                }
                lemma_active_only_cleared(s_num, gs, v, dslot);
                lemma_filters_tail(gs, v, c);
                assert(s_next.subrange(0, nfc) == above(gs, v));
            }
            if kept0 {
                assert(packed(gs, c as nat));
                assert(c <= gs.len());
                lemma_rank_lt_total(d, v);
                assert(c > 0);
                let k1 = choose|k: int| 0 <= k < c && (#[trigger] gs[k]).2 == max_h;
                assert(gs.subrange(0, c)[k1] == gs[k1]);
                lemma_above_nonempty(gs.subrange(0, c), v, k1);
                assert(nfc >= 1);
                assert(c <= gs.len());
            }
        }
        proof {
            if packed0 {
                let a = active_only(s_num).to_multiset();
                let bm = self.slots(next_num as int).subrange(0, nfc).to_multiset();
                vstd::seq_lib::to_multiset_len(active_only(s_num));
                vstd::seq_lib::to_multiset_len(self.slots(next_num as int).subrange(0, nfc));
                vstd::seq_lib::to_multiset_len(gs.subrange(0, c));
                assert(a.add(bm).len() == a.len() + bm.len());
                assert(active_only(s_num).len() == old_fragment_records_count);
                if s_num.len() > 0 {
                    assert(s_num.subrange(0, s_num.len() as int) =~= s_num);
                }
            }
        }
        match self.reorder_indexes(num) {
            Ok(()) => {},
            Err(e) => {
                return Err(e);
            },
        }
        let ghost h2 = *self;
        let ghost x_ix = (true, ix.target, ix.value.rank());
        proof {
            if packed0 {
                assert(active_from(s_num, 0) == active_only(s_num));
                let k = old_fragment_records_count as int;
                assert forall|i: int| 0 <= i < self.fragments@.len() implies #[trigger] packed(
                    self.slots(i),
                    self.headers()[i].0 as nat,
                ) by {
                    if i == num as int {
                        assert forall|j: int| 0 <= j < self.slots(i).len() implies ((
                        #[trigger] self.slots(i)[j]).0 <==> j < k) by {
                            if j >= k {
                                assert(self.slots(i)[j] == (false, 0u64, self.default_value.rank()));
                            }
                        }
                    } else if i != next_num as int {
                        assert(self.fragments@[i] == h1.fragments@[i]);
                        assert(self.slots(i) == h1.slots(i));
                        assert(self.headers()[i] == h1.headers()[i]);
                        assert(packed(h1.slots(i), h1.headers()[i].0 as nat));
                    }
                }
                // the entries are those of the old index
                let n = g.fragments@.len() as int;
                assert(agree_below(&h2, &g, n, num as int)) by {
                    assert forall|i: int| 0 <= i < n && i != num implies #[trigger] h2.fragments@[i] == g.fragments@[i] by {
                        assert(h2.fragments@[i] == h1.fragments@[i]);
                        assert(h1.fragments@.subrange(0, n)[i] == h1.fragments@[i]);
                    }
                }
                lemma_entries_swap(&h2, &g, num as int, n);
                let l = h2.entries();
                let r = g.entries();
                assert(h2.entries() == h2.entries_upto(n).add(h2.fragment_entries(n)));
                assert forall|v: (bool, u64, Seq<int>)| #[trigger] l.count(v) == r.count(v) by {
                    assert(h2.entries_upto(n).add(g.fragment_entries(num as int)).count(v)
                        == g.entries_upto(n).add(h2.fragment_entries(num as int)).count(v));
                }
                assert(l =~= r);
            }
        }
        let r = self.write_offset(num, ix, old_fragment_records_count);
        proof {
            if packed0 && r is Ok {
                lemma_append_entry(self, &h2, num as int, x_ix);
                let n = g.fragments@.len() as int;
                let k = old_fragment_records_count as int;
                let hs2 = h2.slots(num as int);
                assert(self.slots(num as int).subrange(0, k + 1) =~= hs2.subrange(0, k).push(x_ix));
                vstd::seq_lib::to_multiset_build(hs2.subrange(0, k), x_ix);
                assert(active_from(s_num, 0) == active_only(s_num));
                assert(agree_below(self, &g, n, num as int)) by {
                    assert forall|i: int| 0 <= i < n && i != num implies #[trigger] self.fragments@[i] == g.fragments@[i] by {
                        assert(self.fragments@[i] == h2.fragments@[i]);
                        assert(h2.fragments@[i] == h1.fragments@[i]);
                        assert(h1.fragments@.subrange(0, n)[i] == h1.fragments@[i]);
                    }
                }
                assert(self.slots(n) == s_next);
                assert(self.split_from(&g, num as int, ix));
            }
            if kept0 {
                let n = g.fragments@.len() as int;
                let k = old_fragment_records_count as int;
                assert(k < self.max_records_count_per_fragments);
                assert(r is Ok);
                let hs2 = h2.slots(num as int);
                lemma_split_ranged(hs2, k, x_ix, gs, c, v, min_h, max_h, d);
                assert(self.slots(num as int) == hs2.update(k, x_ix));
                assert(self.headers()[num as int].2 == min_h);
                assert(self.headers()[num as int].3 == v);
                assert forall|i: int| 0 <= i < self.fragments@.len() implies #[trigger] ranged(
                    self.slots(i),
                    self.headers()[i].0 as nat,
                    self.headers()[i].2,
                    self.headers()[i].3,
                    self.default_value.rank(),
                ) by {
                    if i == n {
                        assert(self.slots(i) == s_next);
                        assert(self.headers()[i] == (nfc as u32, self.max_records_count_per_fragments, nf_min, nf_max));
                    } else if i != num {
                        assert(self.fragments@[i] == h2.fragments@[i]);
                        assert(h2.fragments@[i] == h1.fragments@[i]);
                        assert(h1.fragments@.subrange(0, n)[i] == h1.fragments@[i]);
                        assert(self.fragments@[i] == g.fragments@[i]);
                        assert(self.slots(i) == g.slots(i));
                        assert(self.headers()[i] == g.headers()[i]);
                        assert(ranged(g.slots(i), g.headers()[i].0 as nat, g.headers()[i].2, g.headers()[i].3, d));
                    }
                }
            }
        }
        r
    }

    /// The bytes of fragment `num` as they are stored in its file.
    pub fn fragment_bytes(&self, num: usize) -> (r: Result<Vec<u8>, IndexError>)
        requires
            self.wf(),
            self.value_size + 8 <= usize::MAX,
        ensures
            num >= self.fragment_count ==> r == Err::<Vec<u8>, IndexError>(IndexError::NoSuchSlot),
            num < self.fragment_count ==> match fragment_image(
                self.fragments@[num as int],
                self.value_size as nat,
            ) {
                Some(b) => r is Ok && r->Ok_0@ == b,
                None => r == Err::<Vec<u8>, IndexError>(IndexError::Corrupted),
            },
    {
        if num >= self.fragments.len() {
            return Err(IndexError::NoSuchSlot);
        }
        let f = &self.fragments[num];
        let min = match f.header.min_value.encode(self.value_size) {
            Ok(b) => b,
            Err(e) => {
                return Err(e);
            },
        };
        let max = match f.header.max_value.encode(self.value_size) {
            Ok(b) => b,
            Err(e) => {
                return Err(e);
            },
        };
        let mut out: Vec<u8> = Vec::new();
        push_u32_le(&mut out, f.header.max_records_count);
        push_u32_le(&mut out, f.header.records_count);
        push_u32_le(&mut out, f.header.shift_threshold);
        push_all(&mut out, min.as_slice());
        push_all(&mut out, max.as_slice());
        let ghost head = out@;
        assert(head =~= header_bytes(
            f.header.records_count,
            f.header.max_records_count,
            f.header.shift_threshold,
            min@,
            max@,
        ));
        let mut i: usize = 0;
        assert(f.slots@.take(0) =~= Seq::<FenseIndex<T>>::empty());
        assert(head + Seq::<u8>::empty() =~= head);
        while i < f.slots.len()
            invariant
                self.value_size + 8 <= usize::MAX,
                self.wf(),
                num < self.fragment_count,
                *f == self.fragments@[num as int],
                f.header.min_value.slot_value(self.value_size as nat) == Some(min@),
                f.header.max_value.slot_value(self.value_size as nat) == Some(max@),
                head == header_bytes(
                    f.header.records_count,
                    f.header.max_records_count,
                    f.header.shift_threshold,
                    min@,
                    max@,
                ),
                i <= f.slots@.len(),
                slots_bytes(f.slots@.take(i as int), self.value_size as nat) == Some(
                    out@.subrange(head.len() as int, out@.len() as int),
                ),
                out@.subrange(0, head.len() as int) == head,
                head.len() <= out@.len(),
            decreases f.slots.len() - i,
        {
            let slot = &f.slots[i];
            let v = match slot.value.encode(self.value_size) {
                Ok(b) => b,
                Err(e) => {
                    proof {
                        lemma_slots_bytes_none(f.slots@, i as int, self.value_size as nat);
                    }
                    return Err(e);
                },
            };
            let ghost prev = out@;
            out.push(
                if slot.active {
                    1
                } else {
                    0
                },
            );
            push_u64_be(&mut out, slot.target);
            push_all(&mut out, v.as_slice());
            proof {
                assert(f.slots@.take(i + 1).drop_last() =~= f.slots@.take(i as int));
                assert(f.slots@.take(i + 1).last() == f.slots@[i as int]);
                assert(out@.subrange(head.len() as int, out@.len() as int) =~= prev.subrange(
                    head.len() as int,
                    prev.len() as int,
                ) + slot_bytes(slot.active, slot.target, v@));
                assert(out@.subrange(0, head.len() as int) =~= prev.subrange(0, head.len() as int));
            }
            i = i + 1;
        }
        proof {
            assert(f.slots@.take(i as int) =~= f.slots@);
            assert(out@ =~= head + out@.subrange(head.len() as int, out@.len() as int));
        }
        Ok(out)
    }

    /// Decodes the slot at byte `pos`, whose value takes `w` bytes.
    fn decode_slot(b: &[u8], pos: usize, size: usize, w: usize) -> (r: Result<
        FenseIndex<T>,
        IndexError,
    >)
        requires
            size + 8 <= usize::MAX,
            w == T::width(size as nat),
            pos + 9 + w <= b@.len(),
        ensures
            match T::slot_rank(b@.subrange(pos + 9, pos + 9 + w), size as nat) {
                Ok(k) => r is Ok && slot_view(r->Ok_0) == (
                    b@[pos as int] != 0,
                    u64_of_be(b@.subrange(pos + 1, b@.len() as int)),
                    k,
                ),
                Err(e) => r is Err && r->Err_0 == e,
            },
    {
        let active = b[pos] != 0;
        let target = crate::disk_writer::read_u64_at(b, pos + 1);
        let v = copy_range(b, pos + 9, w);
        match T::decode(v.as_slice(), size) {
            Ok(value) => Ok(FenseIndex { active, target, value }),
            Err(e) => Err(e),
        }
    }

    /// `self` is `old` with one more fragment, read from the bytes `b`.
    pub open spec fn loaded(&self, old: &Self, b: Seq<u8>) -> bool {
        let n = old.fragment_count as int;
        let size = old.value_size as nat;
        let w = T::width(size) as int;
        let hs = 12 + 2 * w;
        &&& self.fragment_count == n + 1
        &&& self.fragments@.subrange(0, n) == old.fragments@
        &&& b.len() >= hs + old.max_records_count_per_fragments * (9 + w)
        &&& u32_of_le(b) == old.max_records_count_per_fragments
        &&& u32_of_le(b.subrange(8, b.len() as int)) == old.shift_threshold
        &&& self.headers()[n].0 == u32_of_le(b.subrange(4, b.len() as int))
        &&& T::slot_rank(b.subrange(12, 12 + w), size) == Ok::<Seq<int>, IndexError>(
            self.headers()[n].2,
        )
        &&& T::slot_rank(b.subrange(12 + w, hs), size) == Ok::<Seq<int>, IndexError>(
            self.headers()[n].3,
        )
        &&& forall|k: int|
            0 <= k < old.max_records_count_per_fragments ==> T::slot_rank(
                b.subrange(hs + k * (9 + w) + 9, hs + k * (9 + w) + 9 + w),
                size,
            ) == Ok::<Seq<int>, IndexError>(#[trigger] self.slots(n)[k].2) && self.slots(n)[k].0
                == (b[hs + k * (9 + w)] != 0) && self.slots(n)[k].1 == u64_of_be(
                b.subrange(hs + k * (9 + w) + 1, b.len() as int),
            )
    }

    /// `b` is long enough for a fragment of this index: the header and every
    /// slot.
    pub open spec fn load_fits(&self, b: Seq<u8>) -> bool {
        let w = T::width(self.value_size as nat) as int;
        b.len() >= 12 + 2 * w + self.max_records_count_per_fragments * (9 + w)
    }

    /// The header fields of `b` that must match the index's settings do.
    pub open spec fn load_header_ok(&self, b: Seq<u8>) -> bool {
        &&& u32_of_le(b) == self.max_records_count_per_fragments
        &&& u32_of_le(b.subrange(8, b.len() as int)) == self.shift_threshold
    }

    /// Every value in `b` (the two range values and each slot's value) can
    /// be read.
    pub open spec fn load_values_ok(&self, b: Seq<u8>) -> bool {
        let size = self.value_size as nat;
        let w = T::width(size) as int;
        let hs = 12 + 2 * w;
        &&& T::slot_rank(b.subrange(12, 12 + w), size) is Ok
        &&& T::slot_rank(b.subrange(12 + w, hs), size) is Ok
        &&& forall|k: int|
            0 <= k < self.max_records_count_per_fragments ==> (#[trigger] T::slot_rank(
                b.subrange(hs + k * (9 + w) + 9, hs + k * (9 + w) + 9 + w),
                size,
            )) is Ok
    }

    /// Opens the next fragment from the bytes of its file. It fails with
    /// `Truncated` when the bytes are too short for the header and every
    /// slot, with `Corrupted` when the stored slot count or shift threshold
    /// differs from the index's, and with the value's own error when a value
    /// cannot be read.
    #[verifier::spinoff_prover]
    #[verifier::rlimit(80)]
    pub fn load_fragment(&mut self, b: &[u8]) -> (r: Result<(), IndexError>)
        requires
            old(self).wf(),
            old(self).value_size + 8 <= usize::MAX,
        ensures
            final(self).wf(),
            r is Ok <==> old(self).load_fits(b@) && old(self).load_header_ok(b@) && old(
                self,
            ).load_values_ok(b@),
            !old(self).load_fits(b@) ==> r == Err::<(), IndexError>(IndexError::Truncated),
            old(self).load_fits(b@) && !old(self).load_header_ok(b@) ==> r == Err::<(), IndexError>(
                IndexError::Corrupted,
            ),
            r is Err ==> *final(self) == *old(self),
            r is Ok ==> final(self).loaded(old(self), b@),
    {
        let size = self.value_size;
        let w = T::slot_width(size);
        let max = self.max_records_count_per_fragments;
        let blen = b.len();
        if w > (usize::MAX - 12) / 2 {
            return Err(IndexError::Truncated);
        }
        let hs = 12 + 2 * w;
        let sw = 9 + w;
        if b.len() < hs || (b.len() - hs) / sw < max as usize {
            proof {
                if b.len() >= hs {
                    lemma_fits_iff((b.len() - hs) as int, sw as int, max as int);
                }
            }
            return Err(IndexError::Truncated);
        }
        proof {
            lemma_fits((b.len() - hs) as int, sw as int, max as int);
        }
        let stored_max = read_u32_le_at(b, 0);
        let records_count = read_u32_le_at(b, 4);
        let shift = read_u32_le_at(b, 8);
        proof {
            assert(b@.subrange(0, b@.len() as int) =~= b@);
        }
        if stored_max != max || shift != self.shift_threshold {
            return Err(IndexError::Corrupted);
        }
        let min_value = match T::decode(copy_range(b, 12, w).as_slice(), size) {
            Ok(v) => v,
            Err(e) => {
                return Err(e);
            },
        };
        let max_value = match T::decode(copy_range(b, 12 + w, w).as_slice(), size) {
            Ok(v) => v,
            Err(e) => {
                return Err(e);
            },
        };
        let mut slots: Vec<FenseIndex<T>> = Vec::with_capacity(max as usize);
        let mut k: u32 = 0;
        let mut pos: usize = hs;
        let blen = b.len();
        while k < max
            invariant
                *self == *old(self),
                self.wf(),
                old(self).load_fits(b@),
                old(self).load_header_ok(b@),
                size == self.value_size,
                blen == b@.len(),
                T::slot_rank(b@.subrange(12, 12 + w), size as nat) == Ok::<Seq<int>, IndexError>(
                    min_value.rank(),
                ),
                T::slot_rank(b@.subrange(12 + w, 12 + w + w), size as nat) == Ok::<
                    Seq<int>,
                    IndexError,
                >(max_value.rank()),
                records_count == u32_of_le(b@.subrange(4, b@.len() as int)),
                max == u32_of_le(b@.subrange(0, b@.len() as int)),
                shift == u32_of_le(b@.subrange(8, b@.len() as int)),
                shift == self.shift_threshold,
                max == self.max_records_count_per_fragments,
                size + 8 <= usize::MAX,
                w == T::width(size as nat),
                sw == 9 + w,
                hs == 12 + 2 * w,
                max as int * sw <= b@.len() - hs,
                k <= max,
                pos == hs + k * sw,
                slots@.len() == k,
                forall|j: int|
                    0 <= j < k ==> T::slot_rank(
                        b@.subrange(hs + j * sw + 9, hs + j * sw + 9 + w),
                        size as nat,
                    ) == Ok::<Seq<int>, IndexError>(#[trigger] slot_view(slots@[j]).2)
                        && slot_view(slots@[j]).0 == (b@[hs + j * sw] != 0) && slot_view(
                        slots@[j],
                    ).1 == u64_of_be(b@.subrange(hs + j * sw + 1, b@.len() as int)),
            decreases max - k,
        {
            proof {
                assert((k + 1) as int * sw <= max as int * sw) by (nonlinear_arith)
                    requires
                        k < max,
                        sw > 0,
                ;
                assert((k + 1) as int * sw == k as int * sw + sw) by (nonlinear_arith);
            }
            let slot = match SortedIndexFiles::<T>::decode_slot(b, pos, size, w) {
                Ok(x) => x,
                Err(e) => {
                    proof {
                        let kk = k as int;
                        assert(hs + kk * sw == pos);
                        let ws = T::width(size as nat) as int;
                        let hss = 12 + 2 * ws;
                        assert(hss == hs);
                        assert(!(T::slot_rank(
                            b@.subrange(hss + kk * (9 + ws) + 9, hss + kk * (9 + ws) + 9 + ws),
                            size as nat,
                        ) is Ok));
                        assert(!old(self).load_values_ok(b@));
                    }
                    return Err(e);
                },
            };
            let ghost prev = slots@;
            slots.push(slot);
            proof {
                assert(slots@[k as int] == slot);
                assert(hs + (k as int) * sw == pos);
                assert forall|j: int| 0 <= j < k + 1 implies T::slot_rank(
                    b@.subrange(hs + j * sw + 9, hs + j * sw + 9 + w),
                    size as nat,
                ) == Ok::<Seq<int>, IndexError>(#[trigger] slot_view(slots@[j]).2)
                    && slot_view(slots@[j]).0 == (b@[hs + j * sw] != 0) && slot_view(
                    slots@[j],
                ).1 == u64_of_be(b@.subrange(hs + j * sw + 1, b@.len() as int)) by {
                    if j < k {
                        assert(slots@[j] == prev[j]);
                    }
                }
            }
            k = k + 1;
            pos = pos + sw;
        }
        let header = SortedIndexTableFragmentHeader {
            records_count,
            max_records_count: max,
            shift_threshold: shift,
            min_value,
            max_value,
        };
        let ghost before = *self;
        let ghost sl = slots@;
        self.fragments.push(Fragment { header, slots });
        self.fragment_count = self.fragments.len();
        proof {
            let n = before.fragment_count as int;
            assert(self.fragments@[n].slots@ == sl);
            assert forall|j: int| 0 <= j < max implies T::slot_rank(
                b@.subrange(hs + j * (9 + w) + 9, hs + j * (9 + w) + 9 + w),
                size as nat,
            ) == Ok::<Seq<int>, IndexError>(#[trigger] self.slots(n)[j].2) && self.slots(n)[j].0
                == (b@[hs + j * (9 + w)] != 0) && self.slots(n)[j].1 == u64_of_be(
                b@.subrange(hs + j * (9 + w) + 1, b@.len() as int),
            ) by {
                assert(self.slots(n)[j] == slot_view(sl[j]));
                let sj = slot_view(sl[j]).2;
                assert(T::slot_rank(b@.subrange(hs + j * sw + 9, hs + j * sw + 9 + w), size as nat)
                    == Ok::<Seq<int>, IndexError>(sj));
            }
            assert forall|i: int| 0 <= i < self.fragments@.len() implies {
                let f = #[trigger] self.fragments@[i];
                &&& f.slots@.len() == self.max_records_count_per_fragments
                &&& f.header.max_records_count == self.max_records_count_per_fragments
                &&& f.header.shift_threshold == self.shift_threshold
            } by {
                if i < before.fragments@.len() {
                    assert(self.fragments@[i] == before.fragments@[i]);
                }
            }
            assert(b@.subrange(0, b@.len() as int) =~= b@);
            assert(before.fragment_count == before.fragments@.len());
            assert(self.fragments@.subrange(0, before.fragment_count as int) =~= before.fragments@);
            assert(self.headers()[n].0 == records_count);
            assert(self.headers()[n].2 == self.fragments@[n].header.min_value.rank());
            assert(self.headers()[n].3 == self.fragments@[n].header.max_value.rank());
            assert(self.loaded(&before, b@));
            assert forall|k: int| 0 <= k < before.max_records_count_per_fragments implies (
            #[trigger] T::slot_rank(
                b@.subrange(hs + k * (9 + w) + 9, hs + k * (9 + w) + 9 + w),
                size as nat,
            )) is Ok by {
                assert(T::slot_rank(
                    b@.subrange(hs + k * (9 + w) + 9, hs + k * (9 + w) + 9 + w),
                    size as nat,
                ) == Ok::<Seq<int>, IndexError>(self.slots(n)[k].2));
            }
            assert(before.load_values_ok(b@));
        }
        Ok(())
    }

    /// The sizes of one slot of this index.
    pub fn slot_size_info(&self) -> (r: ValueDefaultSizeInfo)
        requires
            self.value_size + 32 <= usize::MAX,
        ensures
            r.prefix_size == 9,
            r.total_size == 9 + T::width(self.value_size as nat),
    {
        ValueDefaultSizeInfo {
            prefix_size: FenseIndex::<T>::get_prefix_binary_size(),
            total_size: 9 + T::slot_width(self.value_size),
        }
    }

    /// Opens a new fragment after the last one, and returns the new number
    /// of fragments.
    pub fn append_fragment(&mut self) -> (r: Result<usize, IndexError>)
        requires
            old(self).wf(),
        ensures
            final(self).wf(),
            r is Ok,
            final(self).fragment_count == old(self).fragment_count + 1,
            r->Ok_0 == final(self).fragment_count,
            final(self).fragments@.subrange(0, old(self).fragment_count as int) == old(
                self,
            ).fragments@,
            final(self).headers()[old(self).fragment_count as int] == (
                0u32,
                old(self).max_records_count_per_fragments,
                old(self).default_value.rank(),
                old(self).default_value.rank(),
            ),
            forall|k: int|
                0 <= k < old(self).max_records_count_per_fragments ==> #[trigger] final(self).slots(
                    old(self).fragment_count as int,
                )[k] == (false, 0u64, old(self).default_value.rank()),
            final(self).default_value == old(self).default_value,
            final(self).max_records_count_per_fragments == old(self).max_records_count_per_fragments,
            old(self).all_packed() ==> final(self).all_packed() && final(self).entries() == old(
                self,
            ).entries(),
            old(self).well_kept() ==> final(self).well_kept(),
    {
        let num = self.fragment_count;
        match self.open_fragment(num) {
            Ok(()) => Ok(self.fragment_count),
            Err(e) => Err(e),
        }
    }
}

/// A view of the fragments of an index, for choosing where an entry goes.
pub struct SortedIndexTableFragment<'a, T> {
    pub files: &'a SortedIndexFiles<T>,
}

impl<'a, T: IndexValue> SortedIndexTableFragment<'a, T> {
    pub fn new(files: &'a SortedIndexFiles<T>) -> (r: Self)
        ensures
            r.files == files,
    {
        SortedIndexTableFragment { files }
    }

    /// Where a new entry with the value of `ix` goes (see [`choose_fragment`]).
    pub fn get_index_file_num_for_store(&self, ix: &FenseIndex<T>) -> (r: Result<
        FileNumberAssignment,
        IndexError,
    >)
        requires
            self.files.wf(),
        ensures
            r == Ok::<FileNumberAssignment, IndexError>(
                choose_fragment(
                    self.files.headers(),
                    self.files.default_value.rank(),
                    ix.value.rank(),
                    0,
                ),
            ),
    {
        self.files.get_index_file_num_for_store(ix)
    }
}

} // verus!
