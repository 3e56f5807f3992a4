//! Sets of payload items and the differences between them.
//!
//! A [`Pack`] is an immutable, shareable, sorted collection of payload; it
//! is made with a [`PackBuilder`]. A [`Block`] is a part of a pack. A
//! [`PayloadSet`] is a sorted sequence of blocks; sets are made with a
//! [`SetBuilder`] and can be merged, filtered and compared, producing a
//! [`Diff`] that can be applied to a set again. An [`Update`] is what a
//! unit hands on: a serial number, a set, and optionally the diff from the
//! previous update.
//!
//! All contracts speak of the values of payload items (their views) and
//! of the sets of such values. Every collection keeps its items strictly
//! ordered, so a collection is determined by the set of its items.

use std::sync::Arc;
use std::ops::Range;
use vstd::prelude::*;
use vstd::seq_lib::{lemma_flatten_concat, seq_to_set_distributes_over_add, seq_to_set_is_finite};
use crate::rtr::{
    compare, copy_payload, less, same, lemma_lt_asym, serial_add, Action, lemma_lt_irrefl, lemma_lt_total, lemma_lt_trans,
    lt, Order, Payload, PayloadV,
};

verus! {

//============ Sorted sequences ==============================================

/// The values of a sequence of payload items.
pub open spec fn vals(v: Seq<Payload>) -> Seq<PayloadV> {
    v.map_values(|p: Payload| p@)
}

/// A strictly increasing sequence of payload values.
pub open spec fn sorted(s: Seq<PayloadV>) -> bool {
    forall|i: int, j: int| 0 <= i < j < s.len() ==> lt(#[trigger] s[i], #[trigger] s[j])
}

/// Every value of `a` comes before every value of `b`.
pub open spec fn all_before(a: Seq<PayloadV>, b: Seq<PayloadV>) -> bool {
    forall|i: int, j: int| 0 <= i < a.len() && 0 <= j < b.len() ==> lt(#[trigger] a[i], #[trigger] b[j])
}

/// Hands out a second reference to shared data.
#[verifier::external_body]
fn share<T>(a: &Arc<T>) -> (res: Arc<T>)
    ensures
        res == *a,
{
    Arc::clone(a)
}

/// A sorted sequence has no value twice.
pub proof fn lemma_sorted_no_dup(s: Seq<PayloadV>)
    requires
        sorted(s),
    ensures
        s.no_duplicates(),
        s.to_set().len() == s.len(),
{
    assert forall|i: int, j: int| 0 <= i < s.len() && 0 <= j < s.len() && i != j implies s[i]
        != s[j] by {
        if i < j {
            lemma_lt_irrefl(s[i]);
        } else {
            lemma_lt_irrefl(s[j]);
        }
    }
    s.unique_seq_to_set();
}

/// A sorted sequence is determined by the set of its values.
pub proof fn lemma_sorted_unique(a: Seq<PayloadV>, b: Seq<PayloadV>)
    requires
        sorted(a),
        sorted(b),
        a.to_set() == b.to_set(),
    ensures
        a == b,
    decreases a.len(),
{
    lemma_sorted_no_dup(a);
    lemma_sorted_no_dup(b);
    if a.len() == 0 {
        if b.len() > 0 {
            assert(b.to_set().contains(b[0]));
            assert(!a.to_set().contains(b[0]));
        }
        assert(a =~= b);
    } else {
        assert(b.len() > 0) by {
            assert(a.to_set().contains(a[0]));
        }
        // The first items are the smallest ones and thus equal.
        assert(a[0] == b[0]) by {
            assert(a.to_set().contains(a[0]));
            assert(b.to_set().contains(b[0]));
            let i = choose|i: int| 0 <= i < b.len() && b[i] == a[0];
            let j = choose|j: int| 0 <= j < a.len() && a[j] == b[0];
            if a[0] != b[0] {
                assert(i > 0 && j > 0);
                assert(lt(b[0], b[i]));
                assert(lt(a[0], a[j]));
                lemma_lt_asym(a[0], b[0]);
            }
        }
        let ra = a.drop_first();
        let rb = b.drop_first();
        assert(ra.to_set() =~= rb.to_set()) by {
            assert forall|x: PayloadV| ra.to_set().contains(x) implies rb.to_set().contains(x) by {
                let i = choose|i: int| 0 <= i < ra.len() && ra[i] == x;
                assert(a.to_set().contains(x));
                let k = choose|k: int| 0 <= k < b.len() && b[k] == x;
                assert(lt(a[0], a[i + 1]));
                if k == 0 {
                    lemma_lt_irrefl(x);
                }
                assert(rb[k - 1] == x);
            }
            assert forall|x: PayloadV| rb.to_set().contains(x) implies ra.to_set().contains(x) by {
                let i = choose|i: int| 0 <= i < rb.len() && rb[i] == x;
                assert(b.to_set().contains(x));
                let k = choose|k: int| 0 <= k < a.len() && a[k] == x;
                assert(lt(b[0], b[i + 1]));
                if k == 0 {
                    lemma_lt_irrefl(x);
                }
                assert(ra[k - 1] == x);
            }
        }
        lemma_sorted_unique(ra, rb);
        assert(a =~= seq![a[0]] + ra);
        assert(b =~= seq![b[0]] + rb);
    }
}

/// A part of a sorted sequence is sorted.
pub proof fn lemma_sorted_subrange(s: Seq<PayloadV>, i: int, j: int)
    requires
        sorted(s),
        0 <= i <= j <= s.len(),
    ensures
        sorted(s.subrange(i, j)),
{
    assert forall|a: int, b: int| 0 <= a < b < j - i implies lt(
        #[trigger] s.subrange(i, j)[a],
        #[trigger] s.subrange(i, j)[b],
    ) by {
        assert(s.subrange(i, j)[a] == s[i + a]);
        assert(s.subrange(i, j)[b] == s[i + b]);
    }
}

/// Two sorted sequences, one entirely before the other, concatenate into a
/// sorted sequence.
pub proof fn lemma_sorted_concat(a: Seq<PayloadV>, b: Seq<PayloadV>)
    requires
        sorted(a),
        sorted(b),
        all_before(a, b),
    ensures
        sorted(a + b),
{
    assert forall|i: int, j: int| 0 <= i < j < (a + b).len() implies lt(
        #[trigger] (a + b)[i],
        #[trigger] (a + b)[j],
    ) by {
        if j < a.len() {
        } else if i >= a.len() {
            assert((a + b)[i] == b[i - a.len()]);
            assert((a + b)[j] == b[j - a.len()]);
        } else {
            assert((a + b)[j] == b[j - a.len()]);
        }
    }
}

/// The values of a part of a sequence are the part of its values.
pub proof fn lemma_vals_subrange(v: Seq<Payload>, i: int, j: int)
    requires
        0 <= i <= j <= v.len(),
    ensures
        vals(v.subrange(i, j)) == vals(v).subrange(i, j),
{
    assert(vals(v.subrange(i, j)) =~= vals(v).subrange(i, j));
}

//============ Errors ========================================================

/// An error with the payload of an update.
#[derive(Clone, Copy, Debug, PartialEq, Eq, Structural)]
pub enum PayloadError {
    /// A nonexisting record was withdrawn.
    UnknownWithdraw,

    /// An existing record was announced again.
    DuplicateAnnounce,

    /// The record is corrupt.
    Corrupt,

    /// An internal error in the receiver happend.
    Internal,
}

//============ Pack ==========================================================

/// An immutable, shareable, sorted collection of payload data.
///
/// A pack always keeps the payload in sorted order. Once created, it cannot
/// be changed anymore.
#[derive(Clone, Debug)]
pub struct Pack {
    /// The payload items.
    items: Arc<Vec<Payload>>,
}

impl View for Pack {
    type V = Seq<PayloadV>;

    closed spec fn view(&self) -> Seq<PayloadV> {
        vals(self.items@)
    }
}

impl Pack {
    /// The items of the pack.
    pub closed spec fn items(&self) -> Seq<Payload> {
        self.items@
    }

    /// The pack keeps its items sorted.
    pub closed spec fn wf(&self) -> bool {
        sorted(vals(self.items@))
    }

    /// The values of a pack are the values of its items.
    pub proof fn lemma_view(&self)
        ensures
            self@ == vals(self.items()),
            self@.len() == self.items().len(),
    {
    }

    /// The values of a well-formed pack are sorted.
    pub proof fn lemma_sorted(&self)
        requires
            self.wf(),
        ensures
            sorted(self@),
    {
    }

    /// Returns a slice of the payload.
    pub fn as_slice(&self) -> (res: &[Payload])
        ensures
            res@ == self.items(),
    {
        self.items.as_slice()
    }

    /// Returns the number of items in the pack.
    pub fn len(&self) -> (res: usize)
        ensures
            res == self@.len(),
    {
        self.items.len()
    }

    /// Returns whether the pack is empty.
    pub fn is_empty(&self) -> (res: bool)
        ensures
            res == (self@.len() == 0),
    {
        self.items.len() == 0
    }

    /// Returns another reference to the pack.
    pub fn share(&self) -> (res: Pack)
        ensures
            res == *self,
            res@ == self@,
            res.items() == self.items(),
            res.wf() == self.wf(),
    {
        Pack { items: share(&self.items) }
    }

    /// Returns a block for the given range.
    ///
    /// The range must lie within the pack.
    pub fn block(&self, range: Range<usize>) -> (res: Block)
        requires
            self.wf(),
            range.start <= range.end <= self@.len(),
        ensures
            res.wf(),
            res.start_index() == range.start,
            res.end_index() == range.end,
            res.pack_items() == self.items(),
            res@ == self@.subrange(range.start as int, range.end as int),
    {
        Block { pack: self.share(), start: range.start, end: range.end }
    }

    /// Returns an owned iterator-like for the pack.
    pub fn owned_iter(&self) -> (res: OwnedBlockIter)
        requires
            self.wf(),
        ensures
            res.wf(),
            res.rest() == self@,
    {
        OwnedBlockIter::new(Block::from_pack(self.share()))
    }
}

impl Default for Pack {
    fn default() -> (res: Pack)
        ensures
            res.wf(),
            res@ == Seq::<PayloadV>::empty(),
    {
        let res = Pack { items: Arc::new(Vec::new()) };
        proof {
            assert(res@ =~= Seq::<PayloadV>::empty());
        }
        res
    }
}

//============ PackBuilder ===================================================

/// A builder for a payload pack.
///
/// The builder holds a set of payload items.
#[derive(Clone, Debug)]
pub struct PackBuilder {
    /// The items, kept in order.
    items: Vec<Payload>,
}

impl View for PackBuilder {
    type V = Set<PayloadV>;

    closed spec fn view(&self) -> Set<PayloadV> {
        vals(self.items@).to_set()
    }
}

/// Finds where a payload item is or would go in a sorted sequence.
fn find(items: &[Payload], p: &Payload) -> (res: (bool, usize))
    requires
        sorted(vals(items@)),
    ensures
        res.1 <= items@.len(),
        res.0 ==> res.1 < items@.len() && items@[res.1 as int]@ == p@,
        !res.0 ==> forall|k: int| 0 <= k < res.1 ==> lt(#[trigger] items@[k]@, p@),
        !res.0 ==> forall|k: int| res.1 <= k < items@.len() ==> lt(p@, #[trigger] items@[k]@),
{
    let ghost v = vals(items@);
    let mut lo: usize = 0;
    let mut hi: usize = items.len();
    while lo < hi
        invariant
            lo <= hi <= items@.len(),
            v == vals(items@),
            sorted(v),
            forall|k: int| 0 <= k < lo ==> lt(#[trigger] items@[k]@, p@),
            forall|k: int| hi <= k < items@.len() ==> lt(p@, #[trigger] items@[k]@),
        decreases hi - lo,
    {
        let mid = lo + (hi - lo) / 2;
        match compare(&items[mid], p) {
            Order::Less => {
                proof {
                    assert forall|k: int| 0 <= k < mid + 1 implies lt(#[trigger] items@[k]@, p@) by {
                        if k < mid {
                            assert(v[k] == items@[k]@ && v[mid as int] == items@[mid as int]@);
                            lemma_lt_trans(items@[k]@, items@[mid as int]@, p@);
                        }
                    }
                }
                lo = mid + 1;
            },
            Order::Greater => {
                proof {
                    assert forall|k: int| mid <= k < items@.len() implies lt(
                        p@,
                        #[trigger] items@[k]@,
                    ) by {
                        if k > mid {
                            assert(v[k] == items@[k]@ && v[mid as int] == items@[mid as int]@);
                            lemma_lt_trans(p@, items@[mid as int]@, items@[k]@);
                        }
                    }
                }
                hi = mid;
            },
            Order::Equal => {
                return (true, mid);
            },
        }
    }
    (false, lo)
}

/// Whether a sorted sequence holds a value.
proof fn lemma_sorted_contains(v: Seq<Payload>, p: PayloadV, pos: int)
    requires
        0 <= pos <= v.len(),
        forall|k: int| 0 <= k < pos ==> lt(#[trigger] v[k]@, p),
        forall|k: int| pos <= k < v.len() ==> lt(p, #[trigger] v[k]@),
    ensures
        !vals(v).to_set().contains(p),
{
    if vals(v).to_set().contains(p) {
        let i = choose|i: int| 0 <= i < vals(v).len() && vals(v)[i] == p;
        lemma_lt_irrefl(p);
        assert(v[i]@ == p);
    }
}

impl PackBuilder {
    /// The builder keeps its items sorted.
    pub closed spec fn wf(&self) -> bool {
        sorted(vals(self.items@))
    }

    /// Creates a new, empty builder.
    pub fn empty() -> (res: PackBuilder)
        ensures
            res.wf(),
            res@ == Set::<PayloadV>::empty(),
    {
        let res = PackBuilder { items: Vec::new() };
        proof {
            assert(vals(res.items@) =~= Seq::<PayloadV>::empty());
            assert(res@ =~= Set::<PayloadV>::empty());
        }
        res
    }

    /// Inserts a new element into the set.
    ///
    /// The method fails with an appropriate error if there already is an
    /// element with the given payload in the set.
    pub fn insert(&mut self, payload: Payload) -> (res: Result<(), PayloadError>)
        requires
            old(self).wf(),
        ensures
            final(self).wf(),
            old(self)@.contains(payload@) ==> res == Err::<(), PayloadError>(
                PayloadError::DuplicateAnnounce,
            ) && final(self)@ == old(self)@,
            !old(self)@.contains(payload@) ==> res == Ok::<(), PayloadError>(()) && final(self)@
                == old(self)@.insert(payload@),
            final(self)@.finite(),
            res is Ok ==> final(self)@.len() == old(self)@.len() + 1,
    {
        proof {
            vstd::seq_lib::seq_to_set_is_finite(vals(self.items@));
        }
        if self.insert_item(payload) {
            proof {
                vstd::seq_lib::seq_to_set_is_finite(vals(self.items@));
            }
            Ok(())
        } else {
            Err(PayloadError::DuplicateAnnounce)
        }
    }

    /// Inserts a new element without checking.
    pub fn insert_unchecked(&mut self, payload: Payload)
        requires
            old(self).wf(),
        ensures
            final(self).wf(),
            final(self)@ == old(self)@.insert(payload@),
    {
        let _ = self.insert_item(payload);
        proof {
            assert(old(self)@.contains(payload@) ==> old(self)@.insert(payload@) =~= old(self)@);
        }
    }

    /// Inserts an item, returning whether it was new.
    fn insert_item(&mut self, payload: Payload) -> (res: bool)
        requires
            old(self).wf(),
        ensures
            final(self).wf(),
            res == !old(self)@.contains(payload@),
            res ==> final(self)@ == old(self)@.insert(payload@),
            !res ==> final(self)@ == old(self)@,
    {
        let (found, pos) = find(self.items.as_slice(), &payload);
        if found {
            proof {
                assert(vals(self.items@)[pos as int] == payload@);
            }
            return false;
        }
        proof {
            lemma_sorted_contains(self.items@, payload@, pos as int);
        }
        let ghost old_items = self.items@;
        let ghost p = payload@;
        self.items.insert(pos, payload);
        proof {
            let nv = vals(self.items@);
            let ov = vals(old_items);
            assert(nv =~= ov.insert(pos as int, p));
            assert forall|i: int, j: int| 0 <= i < j < nv.len() implies lt(
                #[trigger] nv[i],
                #[trigger] nv[j],
            ) by {
                if j < pos {
                } else if i > pos {
                    assert(nv[i] == ov[i - 1] && nv[j] == ov[j - 1]);
                } else if i == pos {
                    assert(nv[j] == ov[j - 1] && old_items[j - 1]@ == ov[j - 1]);
                } else if j == pos {
                    assert(nv[i] == ov[i] && old_items[i]@ == ov[i]);
                } else {
                    assert(nv[i] == ov[i] && nv[j] == ov[j - 1]);
                }
            }
            assert(nv.to_set() =~= ov.to_set().insert(p)) by {
                assert forall|x: PayloadV| nv.to_set().contains(x) implies ov.to_set().insert(
                    p,
                ).contains(x) by {
                    let i = choose|i: int| 0 <= i < nv.len() && nv[i] == x;
                    if i < pos {
                        assert(ov[i] == x);
                    } else if i > pos {
                        assert(ov[i - 1] == x);
                    }
                }
                assert forall|x: PayloadV| ov.to_set().insert(p).contains(x) implies nv.to_set().contains(
                    x,
                ) by {
                    if x == p {
                        assert(nv[pos as int] == x);
                    } else {
                        let i = choose|i: int| 0 <= i < ov.len() && ov[i] == x;
                        if i < pos {
                            assert(nv[i] == x);
                        } else {
                            assert(nv[i + 1] == x);
                        }
                    }
                }
            }
        }
        true
    }

    /// Removes an existing element from the set.
    ///
    /// The method fails with an appropriate error if there is no such item.
    pub fn remove(&mut self, payload: &Payload) -> (res: Result<(), PayloadError>)
        requires
            old(self).wf(),
        ensures
            final(self).wf(),
            old(self)@.contains(payload@) ==> res == Ok::<(), PayloadError>(()) && final(self)@
                == old(self)@.remove(payload@),
            !old(self)@.contains(payload@) ==> res == Err::<(), PayloadError>(
                PayloadError::UnknownWithdraw,
            ) && final(self)@ == old(self)@,
    {
        let (found, pos) = find(self.items.as_slice(), payload);
        if !found {
            proof {
                lemma_sorted_contains(self.items@, payload@, pos as int);
            }
            return Err(PayloadError::UnknownWithdraw);
        }
        let ghost old_items = self.items@;
        let ghost p = payload@;
        let _ = self.items.remove(pos);
        proof {
            let nv = vals(self.items@);
            let ov = vals(old_items);
            assert(nv =~= ov.remove(pos as int));
            assert(ov[pos as int] == p);
            lemma_sorted_no_dup(ov);
            assert forall|i: int, j: int| 0 <= i < j < nv.len() implies lt(
                #[trigger] nv[i],
                #[trigger] nv[j],
            ) by {
                if j < pos {
                    assert(nv[i] == ov[i] && nv[j] == ov[j]);
                } else if i >= pos {
                    assert(nv[i] == ov[i + 1] && nv[j] == ov[j + 1]);
                } else {
                    assert(nv[i] == ov[i] && nv[j] == ov[j + 1]);
                }
            }
            assert(nv.to_set() =~= ov.to_set().remove(p)) by {
                assert forall|x: PayloadV| nv.to_set().contains(x) implies ov.to_set().remove(
                    p,
                ).contains(x) by {
                    let i = choose|i: int| 0 <= i < nv.len() && nv[i] == x;
                    if i < pos {
                        assert(ov[i] == x);
                    } else {
                        assert(ov[i + 1] == x);
                    }
                }
                assert forall|x: PayloadV| ov.to_set().remove(p).contains(x) implies nv.to_set().contains(
                    x,
                ) by {
                    let i = choose|i: int| 0 <= i < ov.len() && ov[i] == x;
                    if i < pos {
                        assert(nv[i] == x);
                    } else {
                        assert(nv[i - 1] == x);
                    }
                }
            }
        }
        Ok(())
    }

    /// Returns whether the set contains the given element.
    pub fn contains(&self, payload: &Payload) -> (res: bool)
        requires
            self.wf(),
        ensures
            res == self@.contains(payload@),
    {
        let (found, pos) = find(self.items.as_slice(), payload);
        proof {
            if found {
                assert(vals(self.items@)[pos as int] == payload@);
            } else {
                lemma_sorted_contains(self.items@, payload@, pos as int);
            }
        }
        found
    }

    /// Returns the number of elements currently in the set.
    pub fn len(&self) -> (res: usize)
        requires
            self.wf(),
        ensures
            res == self@.len(),
    {
        proof {
            lemma_sorted_no_dup(vals(self.items@));
        }
        self.items.len()
    }

    /// Returns whether the set is currently empty.
    pub fn is_empty(&self) -> (res: bool)
        requires
            self.wf(),
        ensures
            res == (self@.len() == 0),
    {
        proof {
            lemma_sorted_no_dup(vals(self.items@));
        }
        self.items.len() == 0
    }

    /// Converts the builder into an imutable pack.
    pub fn finalize(self) -> (res: Pack)
        requires
            self.wf(),
        ensures
            res.wf(),
            res@.to_set() == self@,
    {
        Pack { items: Arc::new(self.items) }
    }
}

impl Default for PackBuilder {
    fn default() -> (res: PackBuilder)
        ensures
            res.wf(),
            res@ == Set::<PayloadV>::empty(),
    {
        PackBuilder::empty()
    }
}

//============ Block =========================================================

/// Part of a [`Pack`].
///
/// A block references a slice of a [`Pack`]’s items.
#[derive(Clone, Debug)]
pub struct Block {
    pack: Pack,
    start: usize,
    end: usize,
}

impl View for Block {
    type V = Seq<PayloadV>;

    closed spec fn view(&self) -> Seq<PayloadV> {
        self.pack@.subrange(self.start as int, self.end as int)
    }
}

impl Block {
    /// The block lies within a sorted pack.
    pub closed spec fn wf(&self) -> bool {
        &&& self.pack.wf()
        &&& self.start <= self.end <= self.pack@.len()
    }

    /// The first index of the block in its pack.
    pub closed spec fn start_index(&self) -> usize {
        self.start
    }

    /// The first index in the pack that is not in the block.
    pub closed spec fn end_index(&self) -> usize {
        self.end
    }

    /// The items of the pack the block is part of.
    pub closed spec fn pack_items(&self) -> Seq<Payload> {
        self.pack.items()
    }

    /// The values of a block are those of its range of the pack.
    pub proof fn lemma_view(&self)
        requires
            self.wf(),
        ensures
            self@ == vals(self.pack_items()).subrange(self.start_index() as int, self.end_index() as int),
            self@.len() == self.end_index() - self.start_index(),
            sorted(self@),
            self.end_index() <= self.pack_items().len(),
    {
        lemma_sorted_subrange(self.pack@, self.start as int, self.end as int);
    }

    /// Creates a block covering a whole pack.
    pub fn from_pack(pack: Pack) -> (res: Block)
        requires
            pack.wf(),
        ensures
            res.wf(),
            res@ == pack@,
            res.start_index() == 0,
            res.end_index() == pack@.len(),
            res.pack_items() == pack.items(),
    {
        let end = pack.len();
        let res = Block { pack, start: 0, end };
        proof {
            assert(res@ =~= res.pack@);
        }
        res
    }

    /// Returns the first index in the underlying pack.
    pub fn start(&self) -> (res: usize)
        ensures
            res == self.start_index(),
    {
        self.start
    }

    /// Returns the first index in the pack that is not in the block.
    pub fn end(&self) -> (res: usize)
        ensures
            res == self.end_index(),
    {
        self.end
    }

    /// Returns the number of items in the block.
    pub fn len(&self) -> (res: usize)
        requires
            self.wf(),
        ensures
            res == self@.len(),
    {
        self.end - self.start
    }

    /// Returns whether the block is empty.
    pub fn is_empty(&self) -> (res: bool)
        requires
            self.wf(),
        ensures
            res == (self@.len() == 0),
    {
        self.start == self.end
    }

    /// Returns the block’s content as a slice.
    pub fn as_slice(&self) -> (res: &[Payload])
        requires
            self.wf(),
        ensures
            res@ == self.pack_items().subrange(self.start_index() as int, self.end_index() as int),
            vals(res@) == self@,
    {
        let items = self.pack.as_slice();
        proof {
            lemma_vals_subrange(self.pack.items@, self.start as int, self.end as int);
        }
        vstd::slice::slice_subrange(items, self.start, self.end)
    }

    /// Returns another reference to the same block.
    pub fn share(&self) -> (res: Block)
        ensures
            res == *self,
            res@ == self@,
            res.wf() == self.wf(),
            res.start_index() == self.start_index(),
            res.end_index() == self.end_index(),
            res.pack_items() == self.pack_items(),
    {
        Block { pack: self.pack.share(), start: self.start, end: self.end }
    }

    /// Returns the first item of the block, if any.
    pub fn first(&self) -> (res: Option<&Payload>)
        requires
            self.wf(),
        ensures
            self@.len() == 0 ==> res.is_none(),
            self@.len() > 0 ==> res.is_some() && res.unwrap()@ == self@[0],
    {
        if self.start < self.end {
            Some(&self.pack.items[self.start])
        } else {
            None
        }
    }

    /// Returns an item from the pack if the index is in range.
    pub(crate) fn get_from_pack(&self, pack_index: usize) -> (res: Option<&Payload>)
        requires
            self.wf(),
        ensures
            (self.start_index() <= pack_index < self.end_index()) ==> res.is_some() && res.unwrap()@
                == self@[pack_index - self.start_index()] && res.unwrap()
                == self.pack_items()[pack_index as int],
            !(self.start_index() <= pack_index < self.end_index()) ==> res.is_none(),
    {
        if self.start <= pack_index && pack_index < self.end {
            Some(&self.pack.items[pack_index])
        } else {
            None
        }
    }

    /// Returns a block from the beginning to the given pack index.
    pub(crate) fn head_until(&self, pack_index: usize) -> (res: Block)
        requires
            self.wf(),
            self.start_index() <= pack_index <= self.end_index(),
        ensures
            res.wf(),
            res.start_index() == self.start_index(),
            res.end_index() == pack_index,
            res.pack_items() == self.pack_items(),
            res@ == self@.subrange(0, pack_index - self.start_index()),
    {
        let res = Block { pack: self.pack.share(), start: self.start, end: pack_index };
        proof {
            assert(res@ =~= self@.subrange(0, pack_index - self.start_index()));
        }
        res
    }

    /// Returns an owned iterator-like for the block.
    pub fn owned_iter(&self) -> (res: OwnedBlockIter)
        requires
            self.wf(),
        ensures
            res.wf(),
            res.rest() == self@,
    {
        OwnedBlockIter::new(self.share())
    }

    /// Returns whether this block overlaps in content with the given block.
    pub fn overlaps(&self, other: &Block) -> (res: bool)
        requires
            self.wf(),
            other.wf(),
        ensures
            res == exists|i: int, j: int|
                0 <= i < self@.len() && 0 <= j < other@.len() && #[trigger] self@[i]
                    == #[trigger] other@[j],
    {
        // Since blocks are not continous, we really have to check item
        // pairs. But because they are ordered, we can optimize this a bit.
        // We’ll go over self item for item and advance other until the first
        // item that is bigger -- or equal, in which case we have an overlap.
        let a = self.as_slice();
        let b = other.as_slice();
        let ghost sa = self@;
        let ghost sb = other@;
        proof {
            self.lemma_view();
            other.lemma_view();
        }
        let mut i: usize = 0;
        let mut j: usize = 0;
        while i < a.len() && j < b.len()
            invariant
                i <= a@.len(),
                j <= b@.len(),
                sa == vals(a@),
                sb == vals(b@),
                sa == self@,
                sb == other@,
                sorted(sa),
                sorted(sb),
                forall|x: int, y: int| 0 <= x < i && 0 <= y < sb.len() ==> #[trigger] sa[x] != #[trigger] sb[y],
                forall|x: int, y: int| 0 <= x < sa.len() && 0 <= y < j ==> #[trigger] sa[x] != #[trigger] sb[y],
            decreases a@.len() - i + b@.len() - j,
        {
            match compare(&b[j], &a[i]) {
                Order::Less => {
                    proof {
                        assert forall|x: int| 0 <= x < sa.len() implies #[trigger] sa[x] != sb[j as int] by {
                            if x > i {
                                lemma_lt_trans(sb[j as int], sa[i as int], sa[x]);
                            }
                            if x >= i {
                                lemma_lt_irrefl(sb[j as int]);
                            }
                        }
                    }
                    j = j + 1;
                },
                Order::Equal => {
                    proof {
                        assert(self@[i as int] == other@[j as int]);
                    }
                    return true;
                },
                Order::Greater => {
                    proof {
                        assert forall|y: int| 0 <= y < sb.len() implies sa[i as int] != #[trigger] sb[y] by {
                            if y > j {
                                lemma_lt_trans(sa[i as int], sb[j as int], sb[y]);
                            }
                            if y >= j {
                                lemma_lt_irrefl(sa[i as int]);
                            }
                        }
                    }
                    i = i + 1;
                },
            }
        }
        false
    }
}

//============ OwnedBlockIter ================================================

/// An owned iterator-like type for iterating over the items of a block.
pub struct OwnedBlockIter {
    block: Block,
    pos: usize,
}

impl OwnedBlockIter {
    /// The iterator is within its block.
    pub closed spec fn wf(&self) -> bool {
        &&& self.block.wf()
        &&& self.block.start_index() <= self.pos <= self.block.end_index()
    }

    /// The values still to come.
    pub closed spec fn rest(&self) -> Seq<PayloadV> {
        self.block.pack@.subrange(self.pos as int, self.block.end_index() as int)
    }

    /// Creates a new value.
    fn new(block: Block) -> (res: OwnedBlockIter)
        requires
            block.wf(),
        ensures
            res.wf(),
            res.rest() == block@,
    {
        let pos = block.start;
        OwnedBlockIter { block, pos }
    }

    /// The values still to come are sorted.
    pub proof fn lemma_rest_sorted(&self)
        requires
            self.wf(),
        ensures
            sorted(self.rest()),
    {
        lemma_sorted_subrange(self.block.pack@, self.pos as int, self.block.end_index() as int);
    }

    /// Peeks at the next item.
    pub fn peek(&self) -> (res: Option<&Payload>)
        requires
            self.wf(),
        ensures
            self.rest().len() == 0 ==> res.is_none(),
            self.rest().len() > 0 ==> res.is_some() && res.unwrap()@ == self.rest()[0],
    {
        if self.pos < self.block.end {
            Some(&self.block.pack.items[self.pos])
        } else {
            None
        }
    }

    /// Returns the next item.
    ///
    /// This is similar to an iterator but returns a reference to the item
    /// instead of a clone.
    pub fn next(&mut self) -> (res: Option<&Payload>)
        requires
            old(self).wf(),
        ensures
            final(self).wf(),
            old(self).rest().len() == 0 ==> res.is_none() && final(self).rest() == old(self).rest(),
            old(self).rest().len() > 0 ==> res.is_some() && res.unwrap()@ == old(self).rest()[0]
                && final(self).rest() == old(self).rest().drop_first(),
    {
        if self.pos < self.block.end {
            let pos = self.pos;
            self.pos = self.pos + 1;
            proof {
                assert(self.rest() =~= old(self).rest().drop_first());
            }
            Some(&self.block.pack.items[pos])
        } else {
            None
        }
    }
}


//============ Sequences of blocks ===========================================

/// The values of a sequence of blocks.
pub open spec fn bviews(bs: Seq<Block>) -> Seq<Seq<PayloadV>> {
    bs.map_values(|b: Block| b@)
}

/// The values of a sequence of blocks, one after the other.
pub open spec fn flat(bs: Seq<Block>) -> Seq<PayloadV> {
    bviews(bs).flatten()
}

/// Flattening a suffix peels off its first part.
pub proof fn lemma_flatten_suffix(vs: Seq<Seq<PayloadV>>, b: int)
    requires
        0 <= b < vs.len(),
    ensures
        vs.subrange(b, vs.len() as int).flatten() == vs[b] + vs.subrange(
            b + 1,
            vs.len() as int,
        ).flatten(),
{
    let s = vs.subrange(b, vs.len() as int);
    assert(s.first() == vs[b]);
    assert(s.drop_first() =~= vs.subrange(b + 1, vs.len() as int));
}

/// The whole sequence is its suffix from zero.
pub proof fn lemma_flatten_full(vs: Seq<Seq<PayloadV>>)
    ensures
        vs.subrange(0, vs.len() as int).flatten() == vs.flatten(),
{
    assert(vs.subrange(0, vs.len() as int) =~= vs);
}

/// Pushing onto a sequence of parts appends to the flattened sequence.
pub proof fn lemma_flatten_push(vs: Seq<Seq<PayloadV>>, v: Seq<PayloadV>)
    ensures
        vs.push(v).flatten() == vs.flatten() + v,
{
    vs.lemma_flatten_push(v);
}

/// The values of blocks after pushing a block.
pub proof fn lemma_bviews_push(bs: Seq<Block>, b: Block)
    ensures
        bviews(bs.push(b)) == bviews(bs).push(b@),
        flat(bs.push(b)) == flat(bs) + b@,
{
    assert(bviews(bs.push(b)) =~= bviews(bs).push(b@));
    lemma_flatten_push(bviews(bs), b@);
}

/// A value is in a flattened sequence exactly if it is in one of the parts.
pub proof fn lemma_flatten_contains(vs: Seq<Seq<PayloadV>>, x: PayloadV)
    ensures
        vs.flatten().contains(x) <==> exists|b: int, k: int|
            0 <= b < vs.len() && 0 <= k < vs[b].len() && #[trigger] vs[b][k] == x,
    decreases vs.len(),
{
    if vs.len() > 0 {
        lemma_flatten_contains(vs.drop_first(), x);
        let f = vs.flatten();
        assert(f == vs[0] + vs.drop_first().flatten());
        if f.contains(x) {
            let i = choose|i: int| 0 <= i < f.len() && f[i] == x;
            if i < vs[0].len() {
                assert(vs[0][i] == x);
            } else {
                assert(vs.drop_first().flatten()[i - vs[0].len()] == x);
                let (b, k) = choose|b: int, k: int|
                    0 <= b < vs.drop_first().len() && 0 <= k < vs.drop_first()[b].len()
                        && #[trigger] vs.drop_first()[b][k] == x;
                assert(vs[b + 1][k] == x);
            }
        }
        if exists|b: int, k: int| 0 <= b < vs.len() && 0 <= k < vs[b].len() && #[trigger] vs[b][k] == x {
            let (b, k) = choose|b: int, k: int|
                0 <= b < vs.len() && 0 <= k < vs[b].len() && #[trigger] vs[b][k] == x;
            if b == 0 {
                assert(f[k] == x);
            } else {
                assert(vs.drop_first()[b - 1][k] == x);
                assert(vs.drop_first().flatten().contains(x));
                let i = choose|i: int|
                    0 <= i < vs.drop_first().flatten().len() && vs.drop_first().flatten()[i] == x;
                assert(f[vs[0].len() + i] == x);
            }
        }
    }
}

/// In a sorted flattened sequence, each part is sorted and comes before
/// all later parts.
pub proof fn lemma_flatten_sorted(vs: Seq<Seq<PayloadV>>)
    requires
        sorted(vs.flatten()),
    ensures
        forall|b: int| 0 <= b < vs.len() ==> sorted(#[trigger] vs[b]),
        forall|b1: int, b2: int|
            0 <= b1 < b2 < vs.len() ==> all_before(#[trigger] vs[b1], #[trigger] vs[b2]),
    decreases vs.len(),
{
    if vs.len() > 0 {
        let f = vs.flatten();
        let r = vs.drop_first();
        assert(f == vs[0] + r.flatten());
        lemma_sorted_subrange(f, 0, vs[0].len() as int);
        assert(f.subrange(0, vs[0].len() as int) =~= vs[0]);
        lemma_sorted_subrange(f, vs[0].len() as int, f.len() as int);
        assert(f.subrange(vs[0].len() as int, f.len() as int) =~= r.flatten());
        lemma_flatten_sorted(r);
        assert forall|b: int| 0 <= b < vs.len() implies sorted(#[trigger] vs[b]) by {
            if b > 0 {
                assert(vs[b] == r[b - 1]);
            }
        }
        assert forall|b1: int, b2: int| 0 <= b1 < b2 < vs.len() implies all_before(
            #[trigger] vs[b1],
            #[trigger] vs[b2],
        ) by {
            if b1 > 0 {
                assert(vs[b1] == r[b1 - 1] && vs[b2] == r[b2 - 1]);
            } else {
                assert forall|i: int, j: int|
                    0 <= i < vs[b1].len() && 0 <= j < vs[b2].len() implies lt(
                    #[trigger] vs[b1][i],
                    #[trigger] vs[b2][j],
                ) by {
                    assert(vs[b2] == r[b2 - 1]);
                    lemma_flatten_contains(r, vs[b2][j]);
                    assert(r.flatten().contains(vs[b2][j]));
                    let k = choose|k: int| 0 <= k < r.flatten().len() && r.flatten()[k] == vs[b2][j];
                    assert(f[i] == vs[b1][i]);
                    assert(f[vs[0].len() + k] == vs[b2][j]);
                }
            }
        }
    }
}

//============ PayloadSet ===========================================================

/// An ordered set of payload items.
///
/// The set consists of blocks whose items, taken one after another, are
/// strictly increasing.
#[derive(Clone, Debug)]
pub struct PayloadSet {
    /// The blocks of the set.
    blocks: Arc<Vec<Block>>,

    /// The overall number of items in the set.
    len: usize,
}

impl View for PayloadSet {
    type V = Seq<PayloadV>;

    closed spec fn view(&self) -> Seq<PayloadV> {
        flat(self.blocks@)
    }
}

impl PayloadSet {
    /// The blocks of the set.
    pub closed spec fn blocks(&self) -> Seq<Block> {
        self.blocks@
    }

    /// The blocks are valid, their items increase and `len` counts them.
    pub closed spec fn wf(&self) -> bool {
        &&& forall|b: int| 0 <= b < self.blocks@.len() ==> (#[trigger] self.blocks@[b]).wf()
        &&& sorted(self@)
        &&& self.len == self@.len()
    }

    /// No block of the set is empty.
    pub open spec fn blocks_nonempty(&self) -> bool {
        forall|b: int| 0 <= b < self.blocks().len() ==> (#[trigger] self.blocks()[b])@.len() > 0
    }

    /// The values of a set are those of its blocks, one after the other.
    pub proof fn lemma_view(&self)
        requires
            self.wf(),
        ensures
            self@ == flat(self.blocks()),
            sorted(self@),
            forall|b: int| 0 <= b < self.blocks().len() ==> (#[trigger] self.blocks()[b]).wf(),
    {
    }

    /// Creates a set from a sequence of blocks.
    fn from_blocks(blocks: Vec<Block>, len: usize) -> (res: PayloadSet)
        requires
            forall|b: int| 0 <= b < blocks@.len() ==> (#[trigger] blocks@[b]).wf(),
            sorted(flat(blocks@)),
            len == flat(blocks@).len(),
        ensures
            res.wf(),
            res@ == flat(blocks@),
            res.blocks() == blocks@,
    {
        PayloadSet { blocks: Arc::new(blocks), len }
    }

    /// Creates a set holding the items of a block.
    pub fn from_block(block: Block) -> (res: PayloadSet)
        requires
            block.wf(),
        ensures
            res.wf(),
            res@ == block@,
            res.blocks() == seq![block],
    {
        let len = block.len();
        let mut blocks: Vec<Block> = Vec::new();
        proof {
            block.lemma_view();
            lemma_bviews_push(blocks@, block);
            assert(bviews(blocks@) =~= Seq::<Seq<PayloadV>>::empty());
            assert(flat(blocks@) =~= Seq::<PayloadV>::empty());
        }
        blocks.push(block);
        proof {
            assert(flat(blocks@) =~= block@);
            assert(blocks@ =~= seq![block]);
        }
        PayloadSet::from_blocks(blocks, len)
    }

    /// Creates a set holding the items of a pack.
    pub fn from_pack(pack: Pack) -> (res: PayloadSet)
        requires
            pack.wf(),
        ensures
            res.wf(),
            res@ == pack@,
            res.blocks().len() == 1 && res.blocks()[0]@ == pack@,
    {
        PayloadSet::from_block(Block::from_pack(pack))
    }

    /// Returns the number of items in the set.
    pub fn len(&self) -> (res: usize)
        requires
            self.wf(),
        ensures
            res == self@.len(),
    {
        self.len
    }

    /// Returns whether the set is empty.
    pub fn is_empty(&self) -> (res: bool)
        requires
            self.wf(),
        ensures
            res == (self@.len() == 0),
    {
        self.len == 0
    }

    /// Returns another reference to the set.
    pub fn share(&self) -> (res: PayloadSet)
        ensures
            res@ == self@,
            res.wf() == self.wf(),
            res.blocks() == self.blocks(),
    {
        PayloadSet { blocks: share(&self.blocks), len: self.len }
    }

    /// Returns a reference of the blocks of the set.
    pub fn as_blocks(&self) -> (res: &[Block])
        ensures
            res@ == self.blocks(),
    {
        self.blocks.as_slice()
    }

    /// Returns an iterator over the set’s elements.
    pub fn iter(&self) -> (res: SetIter<'_>)
        requires
            self.wf(),
        ensures
            res.wf(),
            res.rest() == self@,
    {
        SetIter::new(self)
    }

    /// Returns an owned iterator over the set’s elements.
    pub fn owned_iter(&self) -> (res: OwnedSetIter)
        requires
            self.wf(),
        ensures
            res.wf(),
            res.rest() == self@,
    {
        OwnedSetIter::new(self.share())
    }

    /// Converts the set into an owned iterator.
    pub fn into_owned_iter(self) -> (res: OwnedSetIter)
        requires
            self.wf(),
        ensures
            res.wf(),
            res.rest() == self@,
    {
        OwnedSetIter::new(self)
    }
}

impl Default for PayloadSet {
    fn default() -> (res: PayloadSet)
        ensures
            res.wf(),
            res@ == Seq::<PayloadV>::empty(),
    {
        let blocks: Vec<Block> = Vec::new();
        proof {
            assert(bviews(blocks@) =~= Seq::<Seq<PayloadV>>::empty());
            assert(flat(blocks@) =~= Seq::<PayloadV>::empty());
        }
        PayloadSet::from_blocks(blocks, 0)
    }
}

/// The values from a position within block `b` onwards.
pub open spec fn rest_from(bs: Seq<Block>, b: int, pos: int) -> Seq<PayloadV> {
    if 0 <= b < bs.len() {
        bs[b]@.subrange(pos - bs[b].start_index(), bs[b]@.len() as int) + flat(
            bs.subrange(b + 1, bs.len() as int),
        )
    } else {
        Seq::empty()
    }
}

/// A position in a sequence of blocks.
pub open spec fn position_ok(bs: Seq<Block>, b: int, pos: int) -> bool {
    &&& 0 <= b <= bs.len()
    &&& forall|i: int| 0 <= i < bs.len() ==> (#[trigger] bs[i]).wf()
    &&& b < bs.len() ==> bs[b].start_index() <= pos <= bs[b].end_index()
}

/// Stepping over the end of a block continues with the next block.
proof fn lemma_rest_next_block(bs: Seq<Block>, b: int)
    requires
        position_ok(bs, b, bs[b].end_index() as int),
        0 <= b < bs.len(),
    ensures
        rest_from(bs, b, bs[b].end_index() as int) == (if b + 1 < bs.len() {
            rest_from(bs, b + 1, bs[b + 1].start_index() as int)
        } else {
            Seq::<PayloadV>::empty()
        }),
{
    bs[b].lemma_view();
    let vs = bviews(bs);
    assert(bviews(bs.subrange(b + 1, bs.len() as int)) =~= vs.subrange(b + 1, vs.len() as int));
    if b + 1 < bs.len() {
        bs[b + 1].lemma_view();
        lemma_flatten_suffix(vs, b + 1);
        assert(bviews(bs.subrange(b + 2, bs.len() as int)) =~= vs.subrange(
            b + 2,
            vs.len() as int,
        ));
        assert(bs[b + 1]@.subrange(0, bs[b + 1]@.len() as int) =~= bs[b + 1]@);
    } else {
        assert(vs.subrange(b + 1, vs.len() as int) =~= Seq::<Seq<PayloadV>>::empty());
    }
    assert(bs[b]@.subrange(bs[b]@.len() as int, bs[b]@.len() as int) =~= Seq::<PayloadV>::empty());
}

/// The values from the start of block zero are all values.
proof fn lemma_rest_start(bs: Seq<Block>)
    requires
        forall|i: int| 0 <= i < bs.len() ==> (#[trigger] bs[i]).wf(),
        bs.len() > 0,
    ensures
        rest_from(bs, 0, bs[0].start_index() as int) == flat(bs),
{
    bs[0].lemma_view();
    let vs = bviews(bs);
    lemma_flatten_suffix(vs, 0);
    lemma_flatten_full(vs);
    assert(bviews(bs.subrange(1, bs.len() as int)) =~= vs.subrange(1, vs.len() as int));
    assert(bs[0]@.subrange(0, bs[0]@.len() as int) =~= bs[0]@);
}

/// Taking an item within a block moves on by one.
proof fn lemma_rest_item(bs: Seq<Block>, b: int, pos: int)
    requires
        position_ok(bs, b, pos),
        0 <= b < bs.len(),
        pos < bs[b].end_index(),
    ensures
        rest_from(bs, b, pos).len() > 0,
        rest_from(bs, b, pos)[0] == bs[b].pack_items()[pos]@,
        rest_from(bs, b, pos + 1) == rest_from(bs, b, pos).drop_first(),
{
    bs[b].lemma_view();
    let s = bs[b].start_index() as int;
    assert(bs[b]@.subrange(pos - s, bs[b]@.len() as int)[0] == bs[b]@[pos - s]);
    assert(bs[b]@.subrange(pos + 1 - s, bs[b]@.len() as int) =~= bs[b]@.subrange(
        pos - s,
        bs[b]@.len() as int,
    ).drop_first());
    assert(rest_from(bs, b, pos + 1) =~= rest_from(bs, b, pos).drop_first());
}

//============ SetIter =======================================================

/// An iterator over the content of a set.
pub struct SetIter<'a> {
    /// The set.
    set: &'a PayloadSet,

    /// The block we currently are processing.
    block: usize,

    /// The position in that block’s pack.
    pos: usize,
}

impl<'a> SetIter<'a> {
    /// The iterator is at a position of the set.
    pub closed spec fn wf(&self) -> bool {
        &&& self.set.wf()
        &&& position_ok(self.set.blocks(), self.block as int, self.pos as int)
    }

    /// The values still to come.
    pub closed spec fn rest(&self) -> Seq<PayloadV> {
        rest_from(self.set.blocks(), self.block as int, self.pos as int)
    }

    fn new(set: &'a PayloadSet) -> (res: SetIter<'a>)
        requires
            set.wf(),
        ensures
            res.wf(),
            res.rest() == set@,
    {
        if set.blocks.len() == 0 {
            proof {
                assert(bviews(set.blocks@) =~= Seq::<Seq<PayloadV>>::empty());
                assert(set@ =~= Seq::<PayloadV>::empty());
            }
            SetIter { set, block: 0, pos: 0 }
        } else {
            proof {
                lemma_rest_start(set.blocks@);
            }
            SetIter { set, block: 0, pos: set.blocks[0].start }
        }
    }

    /// The values still to come are sorted and belong to the set.
    pub proof fn lemma_rest(&self)
        requires
            self.wf(),
        ensures
            sorted(self.rest()),
    {
        lemma_rest_sorted(self.set.blocks(), self.block as int, self.pos as int);
    }

    /// Peeks at the next item.
    pub fn peek(&self) -> (res: Option<&'a Payload>)
        requires
            self.wf(),
        ensures
            self.rest().len() == 0 ==> res.is_none(),
            self.rest().len() > 0 ==> res.is_some() && res.unwrap()@ == self.rest()[0],
    {
        let set: &'a PayloadSet = self.set;
        let mut b = self.block;
        let mut pos = self.pos;
        proof {
            lemma_rest_sorted(set.blocks@, b as int, pos as int);
        }
        loop
            invariant
                set.wf(),
                position_ok(set.blocks@, b as int, pos as int),
                rest_from(set.blocks@, b as int, pos as int) == self.rest(),
            decreases set.blocks@.len() - b,
        {
            if b >= set.blocks.len() {
                return None;
            }
            if pos < set.blocks[b].end {
                proof {
                    lemma_rest_item(set.blocks@, b as int, pos as int);
                }
                return Some(&set.blocks[b].pack.items[pos]);
            }
            proof {
                lemma_rest_next_block(set.blocks@, b as int);
            }
            b = b + 1;
            if b < set.blocks.len() {
                pos = set.blocks[b].start;
            }
        }
    }

    /// Returns the next item.
    pub fn next(&mut self) -> (res: Option<&'a Payload>)
        requires
            old(self).wf(),
        ensures
            final(self).wf(),
            old(self).rest().len() == 0 ==> res.is_none() && final(self).rest() == old(self).rest(),
            old(self).rest().len() > 0 ==> res.is_some() && res.unwrap()@ == old(self).rest()[0]
                && final(self).rest() == old(self).rest().drop_first(),
    {
        let set: &'a PayloadSet = self.set;
        loop
            invariant
                self.set == set,
                self.wf(),
                self.rest() == old(self).rest(),
            decreases set.blocks@.len() - self.block,
        {
            if self.block >= set.blocks.len() {
                return None;
            }
            if self.pos < set.blocks[self.block].end {
                let pos = self.pos;
                let b = self.block;
                proof {
                    lemma_rest_item(set.blocks@, b as int, pos as int);
                }
                self.pos = pos + 1;
                return Some(&set.blocks[b].pack.items[pos]);
            }
            proof {
                lemma_rest_next_block(set.blocks@, self.block as int);
            }
            self.block = self.block + 1;
            if self.block < set.blocks.len() {
                self.pos = set.blocks[self.block].start;
            }
        }
    }
}

/// The values from a position onwards are sorted.
proof fn lemma_rest_sorted(bs: Seq<Block>, b: int, pos: int)
    requires
        position_ok(bs, b, pos),
        sorted(flat(bs)),
    ensures
        sorted(rest_from(bs, b, pos)),
{
    if 0 <= b < bs.len() {
        let vs = bviews(bs);
        lemma_flatten_sorted(vs);
        bs[b].lemma_view();
        let tail = bs.subrange(b + 1, bs.len() as int);
        assert(bviews(tail) =~= vs.subrange(b + 1, vs.len() as int));
        let head = bs[b]@.subrange(pos - bs[b].start_index(), bs[b]@.len() as int);
        lemma_sorted_subrange(bs[b]@, pos - bs[b].start_index(), bs[b]@.len() as int);
        // The tail is sorted and after the head.
        lemma_flatten_sorted_suffix(vs, b + 1);
        assert forall|i: int, j: int| 0 <= i < head.len() && 0 <= j < flat(tail).len() implies lt(
            #[trigger] head[i],
            #[trigger] flat(tail)[j],
        ) by {
            lemma_flatten_contains(bviews(tail), flat(tail)[j]);
            assert(flat(tail).contains(flat(tail)[j]));
            let (c, k) = choose|c: int, k: int|
                0 <= c < bviews(tail).len() && 0 <= k < bviews(tail)[c].len()
                    && #[trigger] bviews(tail)[c][k] == flat(tail)[j];
            assert(vs[b + 1 + c] == bviews(tail)[c]);
            assert(all_before(vs[b], vs[b + 1 + c]));
            assert(head[i] == vs[b][pos - bs[b].start_index() + i]);
        }
        lemma_sorted_concat(head, flat(tail));
    }
}

/// A suffix of a sorted flattened sequence is sorted.
proof fn lemma_flatten_sorted_suffix(vs: Seq<Seq<PayloadV>>, b: int)
    requires
        sorted(vs.flatten()),
        0 <= b <= vs.len(),
    ensures
        sorted(vs.subrange(b, vs.len() as int).flatten()),
    decreases b,
{
    if b == 0 {
        lemma_flatten_full(vs);
    } else {
        lemma_flatten_sorted_suffix(vs, b - 1);
        let s = vs.subrange(b - 1, vs.len() as int).flatten();
        lemma_flatten_suffix(vs, b - 1);
        lemma_sorted_subrange(s, vs[b - 1].len() as int, s.len() as int);
        assert(s.subrange(vs[b - 1].len() as int, s.len() as int) =~= vs.subrange(
            b,
            vs.len() as int,
        ).flatten());
    }
}

//============ OwnedSetIter ==================================================

/// An owned iterator-like over the content of a set.
pub struct OwnedSetIter {
    set: PayloadSet,
    block: usize,
    item: usize,
}

impl OwnedSetIter {
    /// The iterator is at a position of the set.
    pub closed spec fn wf(&self) -> bool {
        &&& self.set.wf()
        &&& position_ok(self.set.blocks(), self.block as int, self.item as int)
    }

    /// The values still to come.
    pub closed spec fn rest(&self) -> Seq<PayloadV> {
        rest_from(self.set.blocks(), self.block as int, self.item as int)
    }

    fn new(set: PayloadSet) -> (res: OwnedSetIter)
        requires
            set.wf(),
        ensures
            res.wf(),
            res.rest() == set@,
    {
        if set.blocks.len() == 0 {
            proof {
                assert(bviews(set.blocks@) =~= Seq::<Seq<PayloadV>>::empty());
                assert(set@ =~= Seq::<PayloadV>::empty());
            }
            OwnedSetIter { set, block: 0, item: 0 }
        } else {
            proof {
                lemma_rest_start(set.blocks@);
            }
            let item = set.blocks[0].start;
            OwnedSetIter { set, block: 0, item }
        }
    }

    /// The values still to come are sorted.
    pub proof fn lemma_rest(&self)
        requires
            self.wf(),
        ensures
            sorted(self.rest()),
    {
        lemma_rest_sorted(self.set.blocks(), self.block as int, self.item as int);
    }

    /// Peeks at the next item.
    pub fn peek(&self) -> (res: Option<&Payload>)
        requires
            self.wf(),
        ensures
            self.rest().len() == 0 ==> res.is_none(),
            self.rest().len() > 0 ==> res.is_some() && res.unwrap()@ == self.rest()[0],
    {
        let mut b = self.block;
        let mut pos = self.item;
        loop
            invariant
                self.wf(),
                position_ok(self.set.blocks@, b as int, pos as int),
                rest_from(self.set.blocks@, b as int, pos as int) == self.rest(),
            decreases self.set.blocks@.len() - b,
        {
            if b >= self.set.blocks.len() {
                return None;
            }
            if pos < self.set.blocks[b].end {
                proof {
                    lemma_rest_item(self.set.blocks@, b as int, pos as int);
                }
                return Some(&self.set.blocks[b].pack.items[pos]);
            }
            proof {
                lemma_rest_next_block(self.set.blocks@, b as int);
            }
            b = b + 1;
            if b < self.set.blocks.len() {
                pos = self.set.blocks[b].start;
            }
        }
    }

    /// Returns the next item.
    pub fn next(&mut self) -> (res: Option<&Payload>)
        requires
            old(self).wf(),
        ensures
            final(self).wf(),
            old(self).rest().len() == 0 ==> res.is_none() && final(self).rest() == old(self).rest(),
            old(self).rest().len() > 0 ==> res.is_some() && res.unwrap()@ == old(self).rest()[0]
                && final(self).rest() == old(self).rest().drop_first(),
    {
        loop
            invariant
                self.wf(),
                self.rest() == old(self).rest(),
                self.set.blocks() == old(self).set.blocks(),
            decreases self.set.blocks@.len() - self.block,
        {
            if self.block >= self.set.blocks.len() {
                return None;
            }
            if self.item < self.set.blocks[self.block].end {
                let pos = self.item;
                let b = self.block;
                proof {
                    lemma_rest_item(self.set.blocks@, b as int, pos as int);
                }
                self.item = pos + 1;
                return Some(&self.set.blocks[b].pack.items[pos]);
            }
            proof {
                lemma_rest_next_block(self.set.blocks@, self.block as int);
            }
            self.block = self.block + 1;
            if self.block < self.set.blocks.len() {
                self.item = self.set.blocks[self.block].start;
            }
        }
    }
}


//============ SetBuilder ====================================================

/// The values of the blocks from index `lo` on, one after the other.
pub open spec fn rem(bs: Seq<Block>, lo: int) -> Seq<PayloadV> {
    flat(bs.subrange(lo, bs.len() as int))
}

/// The remaining values are those of the first block and the rest.
proof fn lemma_rem_split(bs: Seq<Block>, lo: int)
    requires
        0 <= lo < bs.len(),
    ensures
        rem(bs, lo) == bs[lo]@ + rem(bs, lo + 1),
{
    let vs = bviews(bs);
    assert(bviews(bs.subrange(lo, bs.len() as int)) =~= vs.subrange(lo, vs.len() as int));
    assert(bviews(bs.subrange(lo + 1, bs.len() as int)) =~= vs.subrange(lo + 1, vs.len() as int));
    lemma_flatten_suffix(vs, lo);
}

/// Nothing remains after the last block.
proof fn lemma_rem_end(bs: Seq<Block>)
    ensures
        rem(bs, bs.len() as int) == Seq::<PayloadV>::empty(),
{
    assert(bviews(bs.subrange(bs.len() as int, bs.len() as int)) =~= Seq::<Seq<PayloadV>>::empty());
    assert(rem(bs, bs.len() as int) =~= Seq::<PayloadV>::empty());
}

/// All values remain from index zero.
proof fn lemma_rem_full(bs: Seq<Block>)
    ensures
        rem(bs, 0) == flat(bs),
{
    assert(bs.subrange(0, bs.len() as int) =~= bs);
}

/// A value remains exactly if it is in one of the remaining blocks.
proof fn lemma_rem_contains(bs: Seq<Block>, lo: int, x: PayloadV)
    requires
        0 <= lo <= bs.len(),
    ensures
        rem(bs, lo).contains(x) <==> exists|b: int, k: int|
            lo <= b < bs.len() && 0 <= k < bs[b]@.len() && #[trigger] bs[b]@[k] == x,
{
    let t = bs.subrange(lo, bs.len() as int);
    lemma_flatten_contains(bviews(t), x);
    if rem(bs, lo).contains(x) {
        let (c, k) = choose|c: int, k: int|
            0 <= c < bviews(t).len() && 0 <= k < bviews(t)[c].len() && #[trigger] bviews(t)[c][k]
                == x;
        assert(bs[lo + c]@[k] == x);
    }
    if exists|b: int, k: int| lo <= b < bs.len() && 0 <= k < bs[b]@.len() && #[trigger] bs[b]@[k] == x {
        let (b, k) = choose|b: int, k: int|
            lo <= b < bs.len() && 0 <= k < bs[b]@.len() && #[trigger] bs[b]@[k] == x;
        assert(bviews(t)[b - lo][k] == x);
    }
}

/// Replacing a block changes only its share of the remaining values.
proof fn lemma_rem_update(bs: Seq<Block>, lo: int, nb: Block)
    requires
        0 <= lo < bs.len(),
    ensures
        rem(bs.update(lo, nb), lo) == nb@ + rem(bs, lo + 1),
        rem(bs.update(lo, nb), lo + 1) == rem(bs, lo + 1),
{
    let nbs = bs.update(lo, nb);
    lemma_rem_split(nbs, lo);
    assert(nbs.subrange(lo + 1, nbs.len() as int) =~= bs.subrange(lo + 1, bs.len() as int));
}

/// Block `a` does not start later than block `b`.
///
/// Empty blocks start before all others.
pub open spec fn key_le(a: Block, b: Block) -> bool {
    a@.len() == 0 || (b@.len() > 0 && !lt(b@[0], a@[0]))
}

/// The blocks from `lo` to `hi` are ordered by their first value.
pub open spec fn key_sorted(bs: Seq<Block>, lo: int, hi: int) -> bool {
    forall|i: int, j: int| lo <= i < j < hi ==> key_le(#[trigger] bs[i], #[trigger] bs[j])
}

proof fn lemma_key_le_trans(a: Block, b: Block, c: Block)
    requires
        key_le(a, b),
        key_le(b, c),
    ensures
        key_le(a, c),
{
    if a@.len() > 0 {
        lemma_lt_total(a@[0], b@[0]);
        lemma_lt_total(b@[0], c@[0]);
        if lt(c@[0], a@[0]) {
            if a@[0] != b@[0] {
                lemma_lt_trans(c@[0], a@[0], b@[0]);
            }
            lemma_lt_asym(b@[0], c@[0]);
        }
    }
}

/// Returns whether block `a` starts later than block `b`.
fn key_greater(a: &Block, b: &Block) -> (res: bool)
    requires
        a.wf(),
        b.wf(),
    ensures
        res == !key_le(*a, *b),
{
    match a.first() {
        None => false,
        Some(x) => match b.first() {
            None => true,
            Some(y) => {
                proof {
                    lemma_lt_asym(y@, x@);
                }
                match compare(y, x) {
                    Order::Less => true,
                    _ => false,
                }
            },
        },
    }
}

/// Swapping two neighbouring blocks keeps the remaining values.
proof fn lemma_swap_rem(bs: Seq<Block>, lo: int, j: int)
    requires
        0 <= lo < j < bs.len(),
    ensures
        ({
            let nbs = bs.update(j - 1, bs[j]).update(j, bs[j - 1]);
            &&& rem(nbs, lo).len() == rem(bs, lo).len()
            &&& rem(nbs, lo).to_set() == rem(bs, lo).to_set()
        }),
{
    let nbs = bs.update(j - 1, bs[j]).update(j, bs[j - 1]);
    let vs = bviews(bs.subrange(lo, bs.len() as int));
    let nvs = bviews(nbs.subrange(lo, nbs.len() as int));
    let x = vs.subrange(0, j - 1 - lo);
    let y = vs.subrange(j + 1 - lo, vs.len() as int);
    let a = bs[j - 1]@;
    let b = bs[j]@;
    assert(vs =~= x + seq![a, b] + y);
    assert(nvs =~= x + seq![b, a] + y);
    lemma_flatten_concat(x + seq![a, b], y);
    lemma_flatten_concat(x, seq![a, b]);
    lemma_flatten_concat(x + seq![b, a], y);
    lemma_flatten_concat(x, seq![b, a]);
    assert(seq![a, b].flatten() =~= a + b) by {
        assert(seq![a, b] =~= seq![a] + seq![b]);
        lemma_flatten_concat(seq![a], seq![b]);
        seq![a].lemma_flatten_one_element();
        seq![b].lemma_flatten_one_element();
    }
    assert(seq![b, a].flatten() =~= b + a) by {
        assert(seq![b, a] =~= seq![b] + seq![a]);
        lemma_flatten_concat(seq![b], seq![a]);
        seq![a].lemma_flatten_one_element();
        seq![b].lemma_flatten_one_element();
    }
    let fx = x.flatten();
    let fy = y.flatten();
    assert(rem(bs, lo) =~= fx + a + b + fy);
    assert(rem(nbs, lo) =~= fx + b + a + fy);
    assert(rem(nbs, lo).to_set() =~= rem(bs, lo).to_set()) by {
        seq_to_set_distributes_over_add(fx + a + b, fy);
        seq_to_set_distributes_over_add(fx + a, b);
        seq_to_set_distributes_over_add(fx, a);
        seq_to_set_distributes_over_add(fx + b + a, fy);
        seq_to_set_distributes_over_add(fx + b, a);
        seq_to_set_distributes_over_add(fx, b);
    }
}

/// Sorts the blocks from `lo` on by their first value, keeping the order of
/// blocks that start with the same value.
fn sort_blocks(blocks: &mut Vec<Block>, lo: usize)
    requires
        lo <= old(blocks)@.len(),
        forall|b: int| 0 <= b < old(blocks)@.len() ==> (#[trigger] old(blocks)@[b]).wf(),
    ensures
        final(blocks)@.len() == old(blocks)@.len(),
        forall|b: int| 0 <= b < final(blocks)@.len() ==> (#[trigger] final(blocks)@[b]).wf(),
        key_sorted(final(blocks)@, lo as int, final(blocks)@.len() as int),
        rem(final(blocks)@, lo as int).len() == rem(old(blocks)@, lo as int).len(),
        rem(final(blocks)@, lo as int).to_set() == rem(old(blocks)@, lo as int).to_set(),
{
    let n = blocks.len();
    if lo >= n {
        return;
    }
    let mut i = lo + 1;
    while i < n
        invariant
            lo < i <= n,
            n == blocks@.len(),
            forall|b: int| 0 <= b < blocks@.len() ==> (#[trigger] blocks@[b]).wf(),
            key_sorted(blocks@, lo as int, i as int),
            rem(blocks@, lo as int).len() == rem(old(blocks)@, lo as int).len(),
            rem(blocks@, lo as int).to_set() == rem(old(blocks)@, lo as int).to_set(),
        decreases n - i,
    {
        let mut j = i;
        while j > lo && key_greater(&blocks[j - 1], &blocks[j])
            invariant
                lo <= j <= i < n,
                n == blocks@.len(),
                forall|b: int| 0 <= b < blocks@.len() ==> (#[trigger] blocks@[b]).wf(),
                forall|a: int, b: int|
                    lo <= a < b < i + 1 && a != j && b != j ==> key_le(
                        #[trigger] blocks@[a],
                        #[trigger] blocks@[b],
                    ),
                forall|b: int| j < b < i + 1 ==> key_le(blocks@[j as int], #[trigger] blocks@[b]),
                rem(blocks@, lo as int).len() == rem(old(blocks)@, lo as int).len(),
                rem(blocks@, lo as int).to_set() == rem(old(blocks)@, lo as int).to_set(),
            decreases j,
        {
            let ghost prev = blocks@;
            let x = blocks[j].share();
            let y = blocks[j - 1].share();
            blocks[j - 1] = x;
            blocks[j] = y;
            proof {
                assert(blocks@ =~= prev.update(j - 1, prev[j as int]).update(j as int, prev[j - 1]));
                lemma_swap_rem(prev, lo as int, j as int);
                assert(blocks@[j - 1]@ == prev[j as int]@);
                assert(blocks@[j as int]@ == prev[j - 1]@);
                lemma_key_total(prev[j - 1], prev[j as int]);
                assert forall|a: int, b: int|
                    lo <= a < b < i + 1 && a != j - 1 && b != j - 1 implies key_le(
                    #[trigger] blocks@[a],
                    #[trigger] blocks@[b],
                ) by {
                    if a == j {
                        assert(key_le(prev[j - 1], prev[b]));
                    } else if b == j {
                        assert(key_le(prev[a], prev[j - 1]));
                    } else {
                        assert(key_le(prev[a], prev[b]));
                    }
                }
                assert forall|b: int| j - 1 < b < i + 1 implies key_le(
                    blocks@[j - 1],
                    #[trigger] blocks@[b],
                ) by {
                    if b > j {
                        assert(key_le(prev[j as int], prev[b]));
                    }
                }
            }
            j = j - 1;
        }
        proof {
            assert forall|a: int, b: int| lo <= a < b < i + 1 implies key_le(
                #[trigger] blocks@[a],
                #[trigger] blocks@[b],
            ) by {
                if b == j && a < j - 1 {
                    lemma_key_le_trans(blocks@[a], blocks@[j - 1], blocks@[j as int]);
                }
            }
        }
        i = i + 1;
    }
}

/// One of two blocks starts no later than the other.
proof fn lemma_key_total(a: Block, b: Block)
    ensures
        key_le(a, b) || key_le(b, a),
        !key_le(a, b) ==> key_le(b, a),
{
    if a@.len() > 0 && b@.len() > 0 {
        lemma_lt_asym(a@[0], b@[0]);
        lemma_lt_total(a@[0], b@[0]);
    }
}

/// Whether all of `a` comes before all of `b` depends on the values of `b` only.
proof fn lemma_all_before_set(a: Seq<PayloadV>, b: Seq<PayloadV>, c: Seq<PayloadV>)
    requires
        all_before(a, b),
        b.to_set() == c.to_set(),
    ensures
        all_before(a, c),
{
    assert forall|i: int, j: int| 0 <= i < a.len() && 0 <= j < c.len() implies lt(
        #[trigger] a[i],
        #[trigger] c[j],
    ) by {
        assert(c.to_set().contains(c[j]));
        assert(b.to_set().contains(c[j]));
        let k = choose|k: int| 0 <= k < b.len() && b[k] == c[j];
        assert(lt(a[i], b[k]));
    }
}

/// When all blocks after `lo` are empty, nothing remains after `lo`.
proof fn lemma_rem_nothing_after(bs: Seq<Block>, lo: int)
    requires
        0 <= lo < bs.len(),
        forall|b: int| lo < b < bs.len() ==> (#[trigger] bs[b])@.len() == 0,
    ensures
        rem(bs, lo + 1) == Seq::<PayloadV>::empty(),
    decreases bs.len() - lo,
{
    if lo + 1 == bs.len() {
        lemma_rem_end(bs);
    } else {
        lemma_rem_nothing_after(bs, lo + 1);
        lemma_rem_split(bs, lo + 1);
        assert(rem(bs, lo + 1) =~= Seq::<PayloadV>::empty());
    }
}

/// What follows the first block when the blocks are ordered and the next
/// non-empty one is at `k`: nothing of it comes before the first value at
/// `k`, and that value is among it.
proof fn lemma_rest_after_second(bs: Seq<Block>, lo: int, k: int)
    requires
        0 <= lo < k < bs.len(),
        forall|b: int| 0 <= b < bs.len() ==> (#[trigger] bs[b]).wf(),
        key_sorted(bs, lo, bs.len() as int),
        bs[k]@.len() > 0,
        forall|b: int| lo < b < k ==> (#[trigger] bs[b])@.len() == 0,
    ensures
        forall|v: PayloadV| rem(bs, lo + 1).contains(v) ==> !lt(v, bs[k]@[0]),
        rem(bs, lo + 1).contains(bs[k]@[0]),
        key_le(bs[lo], bs[k]),
{
    let sv = bs[k]@[0];
    assert(key_le(bs[lo], bs[k]));
    assert forall|v: PayloadV| rem(bs, lo + 1).contains(v) implies !lt(v, sv) by {
        lemma_rem_contains(bs, lo + 1, v);
        let (b, t) = choose|b: int, t: int|
            lo + 1 <= b < bs.len() && 0 <= t < bs[b]@.len() && #[trigger] bs[b]@[t] == v;
        bs[b].lemma_view();
        if b > k {
            assert(key_le(bs[k], bs[b]));
        }
        let h = bs[b]@[0];
        if t > 0 {
            assert(lt(h, v));
        }
        if lt(v, sv) {
            if t > 0 {
                lemma_lt_trans(h, v, sv);
            }
            if b == k {
                lemma_lt_irrefl(sv);
                if t > 0 {
                    lemma_lt_asym(h, v);
                }
            }
        }
    }
    lemma_rem_contains(bs, lo + 1, sv);
    assert(bs[k]@[0] == sv);
}

/// Whatever comes before `b` comes before anything that `b` does not
/// come after.
proof fn lemma_lt_le(a: PayloadV, b: PayloadV, c: PayloadV)
    requires
        lt(a, b),
        !lt(c, b),
    ensures
        lt(a, c),
{
    lemma_lt_total(b, c);
    if b != c {
        lemma_lt_trans(a, b, c);
    }
}

/// A builder for a set.
#[derive(Clone, Debug)]
pub struct SetBuilder {
    blocks: Vec<Block>,
}

impl View for SetBuilder {
    type V = Seq<Seq<PayloadV>>;

    /// The values of the blocks in the builder.
    closed spec fn view(&self) -> Seq<Seq<PayloadV>> {
        bviews(self.blocks@)
    }
}

impl SetBuilder {
    /// All blocks in the builder are valid.
    pub closed spec fn wf(&self) -> bool {
        forall|b: int| 0 <= b < self.blocks@.len() ==> (#[trigger] self.blocks@[b]).wf()
    }

    /// The values held by the builder.
    pub open spec fn contents(&self) -> Set<PayloadV> {
        self@.flatten().to_set()
    }

    /// Creates a new empty builder.
    pub fn empty() -> (res: SetBuilder)
        ensures
            res.wf(),
            res@ == Seq::<Seq<PayloadV>>::empty(),
    {
        let res = SetBuilder { blocks: Vec::new() };
        proof {
            assert(res@ =~= Seq::<Seq<PayloadV>>::empty());
        }
        res
    }

    /// Inserts a pack into the builder.
    pub fn insert_pack(&mut self, pack: Pack)
        requires
            old(self).wf(),
            pack.wf(),
        ensures
            final(self).wf(),
            final(self)@ == old(self)@.push(pack@),
    {
        self.insert_block(Block::from_pack(pack));
    }

    /// Inserts a block into the builder.
    pub fn insert_block(&mut self, block: Block)
        requires
            old(self).wf(),
            block.wf(),
        ensures
            final(self).wf(),
            final(self)@ == old(self)@.push(block@),
    {
        let ghost b = block;
        self.blocks.push(block);
        proof {
            lemma_bviews_push(old(self).blocks@, b);
        }
    }

    /// Inserts a set into the builder.
    pub fn insert_set(&mut self, set: PayloadSet)
        requires
            old(self).wf(),
            set.wf(),
        ensures
            final(self).wf(),
            final(self)@ == old(self)@ + bviews(set.blocks()),
            final(self)@.flatten() == old(self)@.flatten() + set@,
    {
        let blocks = set.as_blocks();
        let mut i: usize = 0;
        while i < blocks.len()
            invariant
                i <= blocks@.len(),
                blocks@ == set.blocks(),
                set.wf(),
                self.wf(),
                self@ == old(self)@ + bviews(set.blocks()).subrange(0, i as int),
            decreases blocks@.len() - i,
        {
            let ghost prev = self.blocks@;
            let b = blocks[i].share();
            self.blocks.push(b);
            proof {
                lemma_bviews_push(prev, b);
                assert(set.blocks()[i as int].wf());
                assert(self@ =~= old(self)@ + bviews(set.blocks()).subrange(0, i + 1));
            }
            i = i + 1;
        }
        proof {
            assert(bviews(set.blocks()).subrange(0, i as int) =~= bviews(set.blocks()));
            lemma_flatten_concat(old(self)@, bviews(set.blocks()));
        }
    }

    /// Inserts a pack into the builder if it doesn’t overlap.
    pub fn try_insert_pack(&mut self, pack: Pack) -> (res: Result<(), PayloadError>)
        requires
            old(self).wf(),
            pack.wf(),
        ensures
            final(self).wf(),
            res is Err <==> exists|x: PayloadV| #[trigger] old(self).contents().contains(x)
                && pack@.contains(x),
            res is Err ==> res == Err::<(), PayloadError>(PayloadError::Corrupt) && final(self)@
                == old(self)@,
            res is Ok ==> final(self)@ == old(self)@.push(pack@),
    {
        self.try_insert_block(Block::from_pack(pack))
    }

    /// Inserts a block into the builder if it doesn’t overlap.
    pub fn try_insert_block(&mut self, block: Block) -> (res: Result<(), PayloadError>)
        requires
            old(self).wf(),
            block.wf(),
        ensures
            final(self).wf(),
            res is Err <==> exists|x: PayloadV| #[trigger] old(self).contents().contains(x)
                && block@.contains(x),
            res is Err ==> res == Err::<(), PayloadError>(PayloadError::Corrupt) && final(self)@
                == old(self)@,
            res is Ok ==> final(self)@ == old(self)@.push(block@),
    {
        let mut i: usize = 0;
        while i < self.blocks.len()
            invariant
                i <= self.blocks@.len(),
                self.wf(),
                block.wf(),
                self == old(self),
                forall|b: int, k: int, m: int|
                    0 <= b < i && 0 <= k < self.blocks@[b]@.len() && 0 <= m < block@.len()
                        ==> #[trigger] self.blocks@[b]@[k] != #[trigger] block@[m],
            decreases self.blocks@.len() - i,
        {
            if self.blocks[i].overlaps(&block) {
                proof {
                    let (k, m) = choose|k: int, m: int|
                        0 <= k < self.blocks@[i as int]@.len() && 0 <= m < block@.len()
                            && #[trigger] self.blocks@[i as int]@[k] == #[trigger] block@[m];
                    let x = block@[m];
                    lemma_flatten_contains(self@, x);
                    assert(self@[i as int][k] == x);
                    assert(self.contents().contains(x));
                    assert(block@.contains(x));
                }
                return Err(PayloadError::Corrupt);
            }
            i = i + 1;
        }
        proof {
            assert forall|x: PayloadV| #[trigger] self.contents().contains(x) implies !block@.contains(
                x,
            ) by {
                lemma_flatten_contains(self@, x);
                let (b, k) = choose|b: int, k: int|
                    0 <= b < self@.len() && 0 <= k < self@[b].len() && #[trigger] self@[b][k] == x;
                assert(self.blocks@[b]@[k] == x);
            }
        }
        self.insert_block(block);
        Ok(())
    }

    /// Finalizes the builder into a set.
    ///
    /// The set holds every value of every block of the builder once.
    pub fn finalize(self) -> (res: PayloadSet)
        requires
            self.wf(),
            self@.flatten().len() <= usize::MAX,
        ensures
            res.wf(),
            res.blocks_nonempty(),
            res@.to_set() == self.contents(),
    {
        // All blocks themselves are already sorted. But since they may not
        // be continuous, we may have to break them up and insert other
        // blocks in between.
        //
        // We eat blocks from the beginning. We trim the unique sections off
        // the first block and add them to the result. Rinse and repeat
        // until there is nothing left.
        let mut blocks = self.blocks;
        let ghost all = flat(blocks@).to_set();
        let ghost total = flat(blocks@).len();
        let mut res: Vec<Block> = Vec::new();
        let mut res_len: usize = 0;
        let mut lo: usize = 0;
        proof {
            lemma_rem_full(blocks@);
            assert(bviews(res@) =~= Seq::<Seq<PayloadV>>::empty());
            assert(flat(res@) =~= Seq::<PayloadV>::empty());
            assert(flat(res@).to_set() =~= Set::<PayloadV>::empty());
            assert(flat(res@).to_set() + rem(blocks@, 0).to_set() =~= all);
        }
        loop
            invariant_except_break
                res_len + rem(blocks@, lo as int).len() <= total,
                all_before(flat(res@), rem(blocks@, lo as int)),
                flat(res@).to_set() + rem(blocks@, lo as int).to_set() == all,
            invariant
                lo <= blocks@.len(),
                forall|b: int| 0 <= b < blocks@.len() ==> (#[trigger] blocks@[b]).wf(),
                forall|b: int| 0 <= b < res@.len() ==> (#[trigger] res@[b]).wf(),
                forall|b: int| 0 <= b < res@.len() ==> (#[trigger] res@[b])@.len() > 0,
                sorted(flat(res@)),
                res_len == flat(res@).len(),
                total <= usize::MAX,
            ensures
                forall|b: int| 0 <= b < res@.len() ==> (#[trigger] res@[b]).wf(),
                forall|b: int| 0 <= b < res@.len() ==> (#[trigger] res@[b])@.len() > 0,
                sorted(flat(res@)),
                res_len == flat(res@).len(),
                flat(res@).to_set() == all,
            decreases rem(blocks@, lo as int).len(), blocks@.len() - lo,
                if lo < blocks@.len() && blocks@[lo as int]@.len() > 0 { 1int } else { 0int },
        {
            let ghost lo0 = lo;
            let ghost bs0 = blocks@;
            // First, skip over all empty blocks at the beginning.
            while lo < blocks.len() && blocks[lo].is_empty()
                invariant
                    lo0 <= lo <= blocks@.len(),
                    blocks@ == bs0,
                    forall|b: int| 0 <= b < blocks@.len() ==> (#[trigger] blocks@[b]).wf(),
                    rem(blocks@, lo as int) == rem(bs0, lo0 as int),
                    lo == lo0 || lo0 < bs0.len() && bs0[lo0 as int]@.len() == 0,
                decreases blocks@.len() - lo,
            {
                proof {
                    lemma_rem_split(blocks@, lo as int);
                    assert(rem(blocks@, lo as int) =~= rem(blocks@, lo + 1));
                }
                lo = lo + 1;
            }
            let ghost rem1 = rem(blocks@, lo as int);

            // Next, sort the blocks by their first element. This is
            // necessary since we cut elements from the start of the first
            // block and that may result in it having to go further back.
            sort_blocks(&mut blocks, lo);
            proof {
                seq_to_set_is_finite(rem1);
                lemma_all_before_set(flat(res@), rem1, rem(blocks@, lo as int));
            }
            if lo >= blocks.len() {
                proof {
                    lemma_rem_end(blocks@);
                    assert(rem(blocks@, lo as int).to_set() =~= Set::<PayloadV>::empty());
                    assert(flat(res@).to_set() + Set::<PayloadV>::empty() =~= flat(res@).to_set());
                }
                break;
            }
            let ghost bs = blocks@;
            proof {
                lemma_rem_split(bs, lo as int);
                bs[lo as int].lemma_view();
            }

            // Find the next non-empty block. If there isn’t one, we can
            // append the whole first block and be done.
            let mut k = lo + 1;
            while k < blocks.len() && blocks[k].is_empty()
                invariant
                    lo < k <= blocks@.len(),
                    blocks@ == bs,
                    forall|b: int| 0 <= b < blocks@.len() ==> (#[trigger] blocks@[b]).wf(),
                    forall|b: int| lo < b < k ==> (#[trigger] blocks@[b])@.len() == 0,
                decreases blocks@.len() - k,
            {
                k = k + 1;
            }
            if k >= blocks.len() {
                let first = blocks[lo].share();
                let len = first.len();
                proof {
                    lemma_rem_nothing_after(bs, lo as int);
                    assert(rem(bs, lo as int) =~= first@);
                    lemma_bviews_push(res@, first);
                    lemma_sorted_concat(flat(res@), first@);
                    seq_to_set_distributes_over_add(flat(res@), first@);
                }
                if len > 0 {
                    res_len = res_len + len;
                    res.push(first);
                } else {
                    proof {
                        assert(first@ =~= Seq::<PayloadV>::empty());
                        assert(flat(res@) + first@ =~= flat(res@));
                    }
                }
                break;
            }
            proof {
                lemma_rest_after_second(bs, lo as int, k as int);
            }

            // Find the first element in the first block that is not
            // smaller than the first element of the next block.
            let ghost f = bs[lo as int]@;
            let ghost sv = bs[k as int]@[0];
            let ghost res0 = res@;
            let first = blocks[lo].share();
            let second = blocks[k].first().unwrap();
            let mut first_end = first.start;
            while first_end < first.end && less(&first.pack.items[first_end], second)
                invariant
                    first.wf(),
                    first == bs[lo as int],
                    f == first@,
                    second@ == sv,
                    first.start <= first_end <= first.end,
                    forall|t: int| 0 <= t < first_end - first.start ==> lt(#[trigger] f[t], sv),
                decreases first.end - first_end,
            {
                proof {
                    first.lemma_view();
                    assert(f[first_end - first.start] == first.pack.items@[first_end as int]@);
                }
                first_end = first_end + 1;
            }
            let ghost m = first_end - first.start;
            proof {
                first.lemma_view();
                if first_end < first.end {
                    assert(f[m] == first.pack.items@[first_end as int]@);
                }
            }

            // Add the part before `first_end` to the result.
            if first_end > first.start {
                let block = first.head_until(first_end);
                let len = block.len();
                proof {
                    lemma_bviews_push(res@, block);
                }
                res_len = res_len + len;
                res.push(block);
            }
            proof {
                assert(flat(res@) =~= flat(res0) + f.subrange(0, m));
            }

            // If the first remaining element of `first` is equal to
            // the first element in `second`, we need to skip it, too.
            let new_start = if first_end < first.end && same(&first.pack.items[first_end], second) {
                first_end + 1
            } else {
                first_end
            };

            // The beginning of the first block needs to be `new_start` now.
            let nb = Block { pack: first.pack.share(), start: new_start, end: first.end };
            proof {
                assert(nb@ =~= f.subrange(new_start - first.start, f.len() as int));
            }
            blocks[lo] = nb;
            proof {
                lemma_finalize_step(res0, bs, nb, lo as int, k as int, m, new_start - first.start, all);
                assert(blocks@ == bs.update(lo as int, nb));
            }
        }
        PayloadSet::from_blocks(res, res_len)
    }
}

/// One step of finalizing: the first `m` values of the first block go to
/// the result, the first `m2` are dropped from the block.
proof fn lemma_finalize_step(
    res0: Seq<Block>,
    bs: Seq<Block>,
    nb: Block,
    lo: int,
    k: int,
    m: int,
    m2: int,
    all: Set<PayloadV>,
)
    requires
        0 <= lo < k < bs.len(),
        forall|b: int| 0 <= b < bs.len() ==> (#[trigger] bs[b]).wf(),
        key_sorted(bs, lo, bs.len() as int),
        bs[k]@.len() > 0,
        forall|b: int| lo < b < k ==> (#[trigger] bs[b])@.len() == 0,
        sorted(flat(res0)),
        all_before(flat(res0), rem(bs, lo)),
        flat(res0).to_set() + rem(bs, lo).to_set() == all,
        0 <= m <= m2 <= bs[lo]@.len(),
        forall|t: int| 0 <= t < m ==> lt(#[trigger] bs[lo]@[t], bs[k]@[0]),
        m < bs[lo]@.len() ==> !lt(bs[lo]@[m], bs[k]@[0]),
        m2 == m || (m2 == m + 1 && bs[lo]@[m] == bs[k]@[0]),
        m2 == m && m < bs[lo]@.len() ==> bs[lo]@[m] != bs[k]@[0],
        nb@ == bs[lo]@.subrange(m2, bs[lo]@.len() as int),
    ensures
        ({
            let f = bs[lo]@;
            let r = flat(res0) + f.subrange(0, m);
            let nbs = bs.update(lo, nb);
            &&& sorted(r)
            &&& all_before(r, rem(nbs, lo))
            &&& r.to_set() + rem(nbs, lo).to_set() == all
            &&& rem(nbs, lo).len() + m2 == rem(bs, lo).len()
            &&& (f.len() > 0 ==> m2 > 0)
        }),
{
    let f = bs[lo]@;
    let sv = bs[k]@[0];
    let h = f.subrange(0, m);
    let r = flat(res0) + h;
    let nbs = bs.update(lo, nb);
    bs[lo].lemma_view();
    lemma_rest_after_second(bs, lo, k);
    lemma_rem_split(bs, lo);
    lemma_rem_update(bs, lo, nb);
    lemma_sorted_subrange(f, 0, m);
    assert(all_before(flat(res0), h)) by {
        assert forall|i: int, j: int| 0 <= i < flat(res0).len() && 0 <= j < h.len() implies lt(
            #[trigger] flat(res0)[i],
            #[trigger] h[j],
        ) by {
            assert(rem(bs, lo)[j] == h[j]);
        }
    }
    lemma_sorted_concat(flat(res0), h);
    lemma_finalize_order(res0, bs, nb, lo, k, m, m2);
    lemma_finalize_values(res0, bs, nb, lo, k, m, m2, all);
    if f.len() > 0 && m == 0 {
        lemma_lt_total(f[0], sv);
    }
}

/// After a step of finalizing, the result still comes before what remains.
proof fn lemma_finalize_order(
    res0: Seq<Block>,
    bs: Seq<Block>,
    nb: Block,
    lo: int,
    k: int,
    m: int,
    m2: int,
)
    requires
        0 <= lo < k < bs.len(),
        forall|b: int| 0 <= b < bs.len() ==> (#[trigger] bs[b]).wf(),
        forall|v: PayloadV| rem(bs, lo + 1).contains(v) ==> !lt(v, bs[k]@[0]),
        all_before(flat(res0), rem(bs, lo)),
        rem(bs, lo) == bs[lo]@ + rem(bs, lo + 1),
        rem(bs.update(lo, nb), lo) == nb@ + rem(bs, lo + 1),
        0 <= m <= m2 <= bs[lo]@.len(),
        forall|t: int| 0 <= t < m ==> lt(#[trigger] bs[lo]@[t], bs[k]@[0]),
        nb@ == bs[lo]@.subrange(m2, bs[lo]@.len() as int),
    ensures
        all_before(flat(res0) + bs[lo]@.subrange(0, m), rem(bs.update(lo, nb), lo)),
{
    let f = bs[lo]@;
    let sv = bs[k]@[0];
    let r0 = flat(res0);
    let r = r0 + f.subrange(0, m);
    let r1 = rem(bs, lo + 1);
    let n = rem(bs.update(lo, nb), lo);
    bs[lo].lemma_view();
    assert forall|i: int, j: int| 0 <= i < r.len() && 0 <= j < n.len() implies lt(
        #[trigger] r[i],
        #[trigger] n[j],
    ) by {
        let x = r[i];
        let y = n[j];
        if j < nb@.len() {
            assert(y == f[m2 + j]);
            assert(rem(bs, lo)[m2 + j] == y);
        } else {
            assert(y == r1[j - nb@.len()]);
            assert(rem(bs, lo)[f.len() + j - nb@.len()] == y);
        }
        if i < r0.len() {
            assert(x == r0[i]);
        } else {
            let t = i - r0.len();
            assert(x == f[t]);
            if j >= nb@.len() {
                assert(r1.contains(y));
                lemma_lt_le(x, sv, y);
            }
        }
    }
}

/// After a step of finalizing, no value got lost or added.
proof fn lemma_finalize_values(
    res0: Seq<Block>,
    bs: Seq<Block>,
    nb: Block,
    lo: int,
    k: int,
    m: int,
    m2: int,
    all: Set<PayloadV>,
)
    requires
        0 <= lo < k < bs.len(),
        rem(bs, lo + 1).contains(bs[k]@[0]),
        flat(res0).to_set() + rem(bs, lo).to_set() == all,
        rem(bs, lo) == bs[lo]@ + rem(bs, lo + 1),
        rem(bs.update(lo, nb), lo) == nb@ + rem(bs, lo + 1),
        0 <= m <= m2 <= bs[lo]@.len(),
        m2 == m || (m2 == m + 1 && bs[lo]@[m] == bs[k]@[0]),
        nb@ == bs[lo]@.subrange(m2, bs[lo]@.len() as int),
    ensures
        (flat(res0) + bs[lo]@.subrange(0, m)).to_set() + rem(bs.update(lo, nb), lo).to_set()
            == all,
{
    let f = bs[lo]@;
    let sv = bs[k]@[0];
    let r0 = flat(res0);
    let r = r0 + f.subrange(0, m);
    let r1 = rem(bs, lo + 1);
    let old_rem = rem(bs, lo);
    let n = rem(bs.update(lo, nb), lo);
    assert forall|x: PayloadV| #[trigger] all.contains(x) implies r.to_set().contains(x)
        || n.to_set().contains(x) by {
        if r0.contains(x) {
            let i = choose|i: int| 0 <= i < r0.len() && r0[i] == x;
            assert(r[i] == x);
        } else {
            assert(old_rem.to_set().contains(x));
            let i = choose|i: int| 0 <= i < old_rem.len() && old_rem[i] == x;
            if i < m {
                assert(r[r0.len() + i] == x);
            } else if i < m2 {
                assert(x == sv);
                let j = choose|j: int| 0 <= j < r1.len() && r1[j] == sv;
                assert(n[nb@.len() + j] == x);
            } else if i < f.len() {
                assert(n[i - m2] == x);
            } else {
                assert(n[nb@.len() + i - f.len()] == x);
            }
        }
    }
    assert forall|x: PayloadV| r.to_set().contains(x) || n.to_set().contains(x) implies
        #[trigger] all.contains(x) by {
        if r.contains(x) {
            let i = choose|i: int| 0 <= i < r.len() && r[i] == x;
            if i < r0.len() {
                assert(r0[i] == x);
                assert(r0.to_set().contains(x));
            } else {
                assert(old_rem[i - r0.len()] == x);
                assert(old_rem.to_set().contains(x));
            }
        } else {
            let j = choose|j: int| 0 <= j < n.len() && n[j] == x;
            if j < nb@.len() {
                assert(old_rem[m2 + j] == x);
            } else {
                assert(old_rem[f.len() + j - nb@.len()] == x);
            }
            assert(old_rem.to_set().contains(x));
        }
    }
    assert(r.to_set() + n.to_set() =~= all);
}


//============ Set operations ================================================

/// The items of a block.
pub open spec fn block_items(b: Block) -> Seq<Payload> {
    b.pack_items().subrange(b.start_index() as int, b.end_index() as int)
}

/// The items of a sequence of blocks, one after the other.
pub open spec fn set_items(bs: Seq<Block>) -> Seq<Payload> {
    bs.map_values(|b: Block| block_items(b)).flatten()
}

/// The values chosen from `v` by `d`, in order.
pub open spec fn select(v: Seq<PayloadV>, d: Seq<bool>) -> Seq<PayloadV>
    decreases v.len(),
{
    if v.len() == 0 || d.len() == 0 {
        Seq::empty()
    } else if d.last() {
        select(v.drop_last(), d.drop_last()).push(v.last())
    } else {
        select(v.drop_last(), d.drop_last())
    }
}

/// Choosing from a longer sequence.
proof fn lemma_select_push(v: Seq<PayloadV>, d: Seq<bool>, x: PayloadV, c: bool)
    requires
        v.len() == d.len(),
    ensures
        select(v.push(x), d.push(c)) == if c {
            select(v, d).push(x)
        } else {
            select(v, d)
        },
{
    assert(v.push(x).drop_last() =~= v);
    assert(d.push(c).drop_last() =~= d);
}

/// What is chosen comes from the sequence, at a chosen position.
proof fn lemma_select_contains(v: Seq<PayloadV>, d: Seq<bool>, x: PayloadV)
    requires
        v.len() == d.len(),
    ensures
        select(v, d).contains(x) <==> exists|i: int| 0 <= i < v.len() && d[i] && #[trigger] v[i] == x,
        select(v, d).len() <= v.len(),
    decreases v.len(),
{
    if v.len() > 0 {
        let v0 = v.drop_last();
        let d0 = d.drop_last();
        lemma_select_contains(v0, d0, x);
        if select(v, d).contains(x) {
            if select(v0, d0).contains(x) {
                let i = choose|i: int| 0 <= i < v0.len() && d0[i] && #[trigger] v0[i] == x;
                assert(v[i] == x);
            } else {
                let k = choose|k: int| 0 <= k < select(v, d).len() && select(v, d)[k] == x;
                assert(d.last() && k == select(v0, d0).len());
                assert(v[v.len() - 1] == x);
            }
        }
        if exists|i: int| 0 <= i < v.len() && d[i] && #[trigger] v[i] == x {
            let i = choose|i: int| 0 <= i < v.len() && d[i] && #[trigger] v[i] == x;
            if i < v.len() - 1 {
                assert(v0[i] == x);
                assert(select(v0, d0).contains(x));
                let k = choose|k: int| 0 <= k < select(v0, d0).len() && select(v0, d0)[k] == x;
                assert(select(v, d)[k] == x);
            } else {
                assert(select(v, d)[select(v, d).len() - 1] == x);
            }
        }
    }
}

/// Choosing from a sorted sequence gives a sorted sequence.
proof fn lemma_select_sorted(v: Seq<PayloadV>, d: Seq<bool>)
    requires
        v.len() == d.len(),
        sorted(v),
    ensures
        sorted(select(v, d)),
    decreases v.len(),
{
    if v.len() > 0 {
        let v0 = v.drop_last();
        let d0 = d.drop_last();
        lemma_sorted_subrange(v, 0, v.len() - 1);
        assert(v0 =~= v.subrange(0, v.len() - 1));
        lemma_select_sorted(v0, d0);
        if d.last() {
            let s0 = select(v0, d0);
            assert forall|i: int, j: int| 0 <= i < j < s0.len() + 1 implies lt(
                #[trigger] s0.push(v.last())[i],
                #[trigger] s0.push(v.last())[j],
            ) by {
                if j == s0.len() {
                    lemma_select_contains(v0, d0, s0[i]);
                    assert(s0.contains(s0[i]));
                    let k = choose|k: int| 0 <= k < v0.len() && d0[k] && #[trigger] v0[k] == s0[i];
                    assert(v[k] == s0[i]);
                }
            }
        }
    }
}

/// In a sequence without repeats, a value is chosen exactly if its position is.
proof fn lemma_select_at(v: Seq<PayloadV>, d: Seq<bool>, i: int)
    requires
        v.len() == d.len(),
        sorted(v),
        0 <= i < v.len(),
    ensures
        select(v, d).contains(v[i]) == d[i],
{
    lemma_select_contains(v, d, v[i]);
    lemma_sorted_no_dup(v);
    if select(v, d).contains(v[i]) {
        let k = choose|k: int| 0 <= k < v.len() && d[k] && #[trigger] v[k] == v[i];
        assert(k == i);
    }
}

/// The values of a block’s items.
proof fn lemma_block_items(b: Block)
    requires
        b.wf(),
    ensures
        vals(block_items(b)) == b@,
        block_items(b).len() == b@.len(),
{
    b.lemma_view();
    lemma_vals_subrange(b.pack_items(), b.start_index() as int, b.end_index() as int);
}

/// The items of blocks after adding a block.
proof fn lemma_set_items_push(bs: Seq<Block>, b: Block)
    ensures
        set_items(bs.push(b)) == set_items(bs) + block_items(b),
{
    assert(bs.push(b).map_values(|b: Block| block_items(b)) =~= bs.map_values(
        |b: Block| block_items(b),
    ).push(block_items(b)));
    bs.map_values(|b: Block| block_items(b)).lemma_flatten_push(block_items(b));
}

/// The items of blocks are those of the first `j` blocks followed by those
/// of the rest.
proof fn lemma_set_items_split(bs: Seq<Block>, j: int)
    requires
        0 <= j <= bs.len(),
    ensures
        set_items(bs) == set_items(bs.subrange(0, j)) + set_items(bs.subrange(j, bs.len() as int)),
{
    let pre = bs.subrange(0, j);
    let post = bs.subrange(j, bs.len() as int);
    assert(bs.map_values(|b: Block| block_items(b)) =~= pre.map_values(|b: Block| block_items(b))
        + post.map_values(|b: Block| block_items(b)));
    vstd::seq_lib::lemma_flatten_concat(
        pre.map_values(|b: Block| block_items(b)),
        post.map_values(|b: Block| block_items(b)),
    );
}

/// The values of the items of blocks are the values of the blocks.
proof fn lemma_set_items(bs: Seq<Block>)
    requires
        forall|b: int| 0 <= b < bs.len() ==> (#[trigger] bs[b]).wf(),
    ensures
        vals(set_items(bs)) == flat(bs),
        set_items(bs).len() == flat(bs).len(),
    decreases bs.len(),
{
    if bs.len() == 0 {
        assert(bs.map_values(|b: Block| block_items(b)) =~= Seq::<Seq<Payload>>::empty());
        assert(bviews(bs) =~= Seq::<Seq<PayloadV>>::empty());
        assert(vals(set_items(bs)) =~= flat(bs));
    } else {
        let b0 = bs.drop_last();
        let last = bs.last();
        assert(bs =~= b0.push(last));
        lemma_set_items(b0);
        lemma_set_items_push(b0, last);
        lemma_bviews_push(b0, last);
        lemma_block_items(last);
        assert(vals(set_items(b0) + block_items(last)) =~= vals(set_items(b0)) + vals(
            block_items(last),
        ));
    }
}

impl PayloadSet {
    /// The items of the set, in order.
    pub closed spec fn items(&self) -> Seq<Payload> {
        set_items(self.blocks@)
    }

    /// The values of the set’s items are the set’s values.
    pub proof fn lemma_items(&self)
        requires
            self.wf(),
        ensures
            vals(self.items()) == self@,
            self.items().len() == self@.len(),
    {
        lemma_set_items(self.blocks@);
    }

    /// Returns a builder based on the set.
    pub fn to_builder(&self) -> (res: SetBuilder)
        requires
            self.wf(),
        ensures
            res.wf(),
            res@ == bviews(self.blocks()),
            res@.flatten() == self@,
    {
        let mut res = SetBuilder::empty();
        res.insert_set(self.share());
        proof {
            assert(Seq::<Seq<PayloadV>>::empty() + bviews(self.blocks()) =~= bviews(self.blocks()));
        }
        res
    }

    /// Returns a set which has this set and the other set merged.
    ///
    /// The two sets may overlap.
    pub fn merge(&self, other: &PayloadSet) -> (res: PayloadSet)
        requires
            self.wf(),
            other.wf(),
            self@.len() + other@.len() <= usize::MAX,
        ensures
            res.wf(),
            res.blocks_nonempty(),
            res@.to_set() == self@.to_set() + other@.to_set(),
    {
        let mut res = self.to_builder();
        res.insert_set(other.share());
        proof {
            seq_to_set_distributes_over_add(self@, other@);
        }
        res.finalize()
    }

    /// Returns a set with the indicated elements removed.
    ///
    /// Each element in the current set is presented to the closure once,
    /// in order, and only those for which the closure returns `true` are
    /// added to the returned set.
    pub fn filter(&self, retain: impl Fn(&Payload) -> bool) -> (res: PayloadSet)
        requires
            self.wf(),
            forall|k: int| 0 <= k < self.items().len() ==> call_requires(retain, (&self.items()[k],)),
        ensures
            res.wf(),
            res.blocks_nonempty(),
            res@.len() <= self@.len(),
            forall|x: PayloadV| res@.contains(x) ==> self@.contains(x),
            forall|i: int|
                0 <= i < self@.len() ==> call_ensures(
                    retain,
                    (&self.items()[i],),
                    res@.contains(#[trigger] self@[i]),
                ),
    {
        // We go over the blocks and for each block over its items, adding
        // each run of retained items to the result as a block of its own.
        let blocks = self.as_blocks();
        let ghost bs = self.blocks@;
        let mut res: Vec<Block> = Vec::new();
        let mut res_len: usize = 0;
        let ghost mut itp: Seq<Payload> = Seq::empty();
        let ghost mut dec: Seq<bool> = Seq::empty();
        proof {
            lemma_set_items(bs);
            assert(bs.subrange(0, 0).map_values(|b: Block| block_items(b)) =~= Seq::<
                Seq<Payload>,
            >::empty());
            assert(itp =~= set_items(bs.subrange(0, 0)));
            assert(bviews(res@) =~= Seq::<Seq<PayloadV>>::empty());
            assert(flat(res@) =~= select(vals(itp), dec));
        }
        let mut b: usize = 0;
        while b < blocks.len()
            invariant
                self.wf(),
                blocks@ == bs,
                bs == self.blocks(),
                b <= bs.len(),
                forall|k: int| 0 <= k < self.items().len() ==> call_requires(retain, (&self.items()[k],)),
                itp == set_items(bs.subrange(0, b as int)),
                dec.len() == itp.len(),
                forall|k: int| 0 <= k < itp.len() ==> call_ensures(retain, (&itp[k],), dec[k]),
                flat(res@) == select(vals(itp), dec),
                forall|r: int| 0 <= r < res@.len() ==> (#[trigger] res@[r]).wf(),
                forall|r: int| 0 <= r < res@.len() ==> (#[trigger] res@[r])@.len() > 0,
                res_len == flat(res@).len(),
            decreases bs.len() - b,
        {
            let block = &blocks[b];
            let st = block.start;
            let en = block.end;
            let ghost prefix = itp;
            let ghost bv = bs[b as int]@;
            proof {
                assert(bs[b as int].wf());
                block.lemma_view();
                lemma_block_items(*block);
                lemma_set_items(bs.subrange(0, b as int));
                lemma_set_items(bs);
                assert(bs.subrange(0, b + 1) =~= bs.subrange(0, b as int).push(*block));
                lemma_set_items_push(bs.subrange(0, b as int), *block);
                lemma_set_items(bs.subrange(0, b + 1));
                let pre = bs.subrange(0, b + 1);
                let post = bs.subrange(b + 1, bs.len() as int);
                assert(bviews(bs) =~= bviews(pre) + bviews(post));
                lemma_flatten_concat(bviews(pre), bviews(post));
                assert(flat(pre) =~= flat(bs).subrange(0, flat(pre).len() as int));
                lemma_sorted_subrange(flat(bs), 0, flat(pre).len() as int);
                assert(bv.subrange(0, 0) =~= Seq::<PayloadV>::empty());
                assert(block_items(*block).subrange(0, 0) =~= Seq::<Payload>::empty());
                assert(prefix + block_items(*block).subrange(0, 0) =~= prefix);
                assert(flat(res@) + bv.subrange(0, 0) =~= flat(res@));
            }
            let mut run_start = st;
            let mut i = st;
            while i < en
                invariant
                    self.wf(),
                    block.wf(),
                    *block == bs[b as int],
                    bv == block@,
                    st == block.start_index(),
                    en == block.end_index(),
                    st <= run_start <= i <= en,
                    forall|k: int| 0 <= k < self.items().len() ==> call_requires(retain, (&self.items()[k],)),
                    b < bs.len(),
                    bs == self.blocks(),
                    prefix == set_items(bs.subrange(0, b as int)),
                    itp == prefix + block_items(*block).subrange(0, i - st),
                    vals(prefix + block_items(*block)).len() <= self@.len(),
                    sorted(vals(prefix + block_items(*block))),
                    dec.len() == itp.len(),
                    forall|k: int| 0 <= k < itp.len() ==> call_ensures(retain, (&itp[k],), dec[k]),
                    flat(res@) + bv.subrange(run_start - st, i - st) == select(vals(itp), dec),
                    forall|r: int| 0 <= r < res@.len() ==> (#[trigger] res@[r]).wf(),
                    forall|r: int| 0 <= r < res@.len() ==> (#[trigger] res@[r])@.len() > 0,
                    res_len == flat(res@).len(),
                decreases en - i,
            {
                let item = &block.pack.items[i];
                proof {
                    lemma_block_items(*block);
                    let bi = block_items(*block);
                    assert(bi[i - st] == *item);
                    lemma_set_items_split(bs, b + 1);
                    assert(bs.subrange(0, b + 1) =~= bs.subrange(0, b as int).push(*block));
                    lemma_set_items_push(bs.subrange(0, b as int), *block);
                    assert(self.items()[itp.len() as int] == *item);
                }
                let keep = retain(item);
                proof {
                    block.lemma_view();
                    lemma_block_items(*block);
                    let bi = block_items(*block);
                    assert(bi.subrange(0, i + 1 - st) =~= bi.subrange(0, i - st).push(*item));
                    assert(itp.push(*item) =~= prefix + bi.subrange(0, i + 1 - st));
                    assert(vals(itp.push(*item)) =~= vals(itp).push(item@));
                    assert(item@ == bv[i - st]);
                    lemma_select_push(vals(itp), dec, item@, keep);
                    let all = prefix + bi;
                    assert(vals(itp.push(*item)) =~= vals(all).subrange(0, itp.len() + 1 as int));
                    lemma_sorted_subrange(vals(all), 0, itp.len() + 1 as int);
                    lemma_select_sorted(vals(itp.push(*item)), dec.push(keep));
                    lemma_select_contains(vals(itp.push(*item)), dec.push(keep), item@);
                }
                if keep {
                    proof {
                        assert(bv.subrange(run_start - st, i + 1 - st) =~= bv.subrange(
                            run_start - st,
                            i - st,
                        ).push(bv[i - st]));
                        itp = itp.push(*item);
                        dec = dec.push(true);
                    }
                } else {
                    if run_start < i {
                        let new_block = block.pack.block(run_start..i);
                        let len = new_block.len();
                        proof {
                            lemma_bviews_push(res@, new_block);
                            assert(new_block@ =~= bv.subrange(run_start - st, i - st));
                        }
                        res_len = res_len + len;
                        res.push(new_block);
                    }
                    proof {
                        assert(bv.subrange(i + 1 - st, i + 1 - st) =~= Seq::<PayloadV>::empty());
                        assert(bv.subrange(run_start - st, run_start - st) =~= Seq::<PayloadV>::empty());
                        itp = itp.push(*item);
                        dec = dec.push(false);
                    }
                    run_start = i + 1;
                }
                i = i + 1;
            }
            if run_start < en {
                let new_block = block.pack.block(run_start..en);
                let len = new_block.len();
                proof {
                    lemma_bviews_push(res@, new_block);
                    block.lemma_view();
                    assert(new_block@ =~= bv.subrange(run_start - st, en - st));
                    lemma_select_contains(vals(itp), dec, bv[run_start - st]);
                }
                res_len = res_len + len;
                res.push(new_block);
            }
            proof {
                lemma_block_items(*block);
                assert(block_items(*block).subrange(0, en - st) =~= block_items(*block));
                assert(bs.subrange(0, b + 1) =~= bs.subrange(0, b as int).push(*block));
                lemma_set_items_push(bs.subrange(0, b as int), *block);
                if run_start >= en {
                    assert(bv.subrange(run_start - st, en - st) =~= Seq::<PayloadV>::empty());
                    assert(flat(res@) + Seq::<PayloadV>::empty() =~= flat(res@));
                }
            }
            b = b + 1;
        }
        proof {
            assert(bs.subrange(0, bs.len() as int) =~= bs);
            lemma_set_items(bs);
            lemma_select_sorted(vals(itp), dec);
            lemma_select_contains(vals(itp), dec, self@[0]);
            assert forall|x: PayloadV| flat(res@).contains(x) implies self@.contains(x) by {
                lemma_select_contains(vals(itp), dec, x);
            }
            assert forall|i: int| 0 <= i < self@.len() implies call_ensures(
                retain,
                (&self.items()[i],),
                flat(res@).contains(#[trigger] self@[i]),
            ) by {
                lemma_select_at(vals(itp), dec, i);
            }
        }
        PayloadSet::from_blocks(res, res_len)
    }
}


//============ Diff ==========================================================

/// A set with the announcements `a` added and the withdrawals `w` removed.
pub open spec fn applied(a: Set<PayloadV>, w: Set<PayloadV>, s: Set<PayloadV>) -> Set<PayloadV> {
    s.union(a).difference(w)
}

/// A diff applies to a set strictly if nothing it announces is in the set
/// already and everything it withdraws is in the set or announced.
pub open spec fn applies(a: Set<PayloadV>, w: Set<PayloadV>, s: Set<PayloadV>) -> bool {
    a.disjoint(s) && w.subset_of(s.union(a))
}

/// A diff `(a1, w1)` can follow a diff `(a0, w0)` if it neither announces
/// again what was announced nor withdraws again what was withdrawn.
pub open spec fn chains(
    a0: Set<PayloadV>,
    w0: Set<PayloadV>,
    a1: Set<PayloadV>,
    w1: Set<PayloadV>,
) -> bool {
    a1.disjoint(a0) && w1.disjoint(w0)
}

/// The change repeats an announcement or a withdrawal of `(a0, w0)`.
pub open spec fn repeats(a0: Set<PayloadV>, w0: Set<PayloadV>, change: (PayloadV, Action)) -> bool {
    if change.1 == Action::Announce {
        a0.contains(change.0)
    } else {
        w0.contains(change.0)
    }
}

/// Adding the changes of the diff `(da, dw)` one by one, in the diff’s
/// order, to a builder that held `(a0, w0)` stopped with the builder
/// holding `(a, w)`: the first `k` announcements and `l` withdrawals of the
/// diff were added, none of them repeating one the builder held from the
/// start, and the next change repeated one.
pub open spec fn stopped_at(
    a0: Set<PayloadV>,
    w0: Set<PayloadV>,
    da: Seq<PayloadV>,
    dw: Seq<PayloadV>,
    k: int,
    l: int,
    a: Set<PayloadV>,
    w: Set<PayloadV>,
) -> bool {
    let changes = diff_seq(da, dw);
    let rest = diff_seq(da.subrange(k, da.len() as int), dw.subrange(l, dw.len() as int));
    &&& 0 <= k <= da.len()
    &&& 0 <= l <= dw.len()
    &&& changes.subrange(k + l, changes.len() as int) == rest
    &&& forall|m: int| 0 <= m < k + l ==> !repeats(a0, w0, #[trigger] changes[m])
    &&& rest.len() > 0
    &&& repeats(a0, w0, rest[0])
    &&& a == chained_announced(a0, w0, da.subrange(0, k).to_set(), dw.subrange(0, l).to_set())
    &&& w == chained_withdrawn(a0, w0, da.subrange(0, k).to_set(), dw.subrange(0, l).to_set())
}

/// The announcements of diff `(a0, w0)` followed by diff `(a1, w1)`.
///
/// An announcement that is withdrawn again drops out, as does a withdrawal
/// that is announced again.
pub open spec fn chained_announced(
    a0: Set<PayloadV>,
    w0: Set<PayloadV>,
    a1: Set<PayloadV>,
    w1: Set<PayloadV>,
) -> Set<PayloadV> {
    a0.difference(w1).union(a1.difference(w0))
}

/// The withdrawals of diff `(a0, w0)` followed by diff `(a1, w1)`.
pub open spec fn chained_withdrawn(
    a0: Set<PayloadV>,
    w0: Set<PayloadV>,
    a1: Set<PayloadV>,
    w1: Set<PayloadV>,
) -> Set<PayloadV> {
    w0.difference(a1).union(w1.difference(a0))
}

/// The changes of a diff with the sorted announcements `a` and
/// withdrawals `w`, in the order of their items.
///
/// Of two equal items, the withdrawal comes first.
pub open spec fn diff_seq(a: Seq<PayloadV>, w: Seq<PayloadV>) -> Seq<(PayloadV, Action)>
    decreases a.len() + w.len(),
{
    if a.len() == 0 && w.len() == 0 {
        Seq::empty()
    } else if w.len() == 0 || (a.len() > 0 && lt(a[0], w[0])) {
        seq![(a[0], Action::Announce)] + diff_seq(a.drop_first(), w)
    } else {
        seq![(w[0], Action::Withdraw)] + diff_seq(a, w.drop_first())
    }
}

/// Every change of a diff appears once.
pub proof fn lemma_diff_seq_len(a: Seq<PayloadV>, w: Seq<PayloadV>)
    ensures
        diff_seq(a, w).len() == a.len() + w.len(),
    decreases a.len() + w.len(),
{
    if a.len() == 0 && w.len() == 0 {
    } else if w.len() == 0 || (a.len() > 0 && lt(a[0], w[0])) {
        lemma_diff_seq_len(a.drop_first(), w);
    } else {
        lemma_diff_seq_len(a, w.drop_first());
    }
}

/// The first change of a diff, and what follows it.
proof fn lemma_diff_seq_step(a: Seq<PayloadV>, w: Seq<PayloadV>)
    ensures
        a.len() > 0 && (w.len() == 0 || lt(a[0], w[0])) ==> diff_seq(a, w)[0] == (
            a[0],
            Action::Announce,
        ) && diff_seq(a, w).drop_first() == diff_seq(a.drop_first(), w),
        w.len() > 0 && (a.len() == 0 || !lt(a[0], w[0])) ==> diff_seq(a, w)[0] == (
            w[0],
            Action::Withdraw,
        ) && diff_seq(a, w).drop_first() == diff_seq(a, w.drop_first()),
{
    if a.len() > 0 && (w.len() == 0 || lt(a[0], w[0])) {
        assert(diff_seq(a, w).drop_first() =~= diff_seq(a.drop_first(), w));
    }
    if w.len() > 0 && (a.len() == 0 || !lt(a[0], w[0])) {
        assert(diff_seq(a, w).drop_first() =~= diff_seq(a, w.drop_first()));
    }
}

/// The differences between two payload sets.
///
/// This is a list of additions to a set called _announcements_ and a list
/// of removals called _withdrawals._ When iterated over, these two are
/// provided as a single list of pairs of [`Payload`] and [`Action`]s in
/// order of the payload. This makes it relatively safe to apply
/// non-atomically.
#[derive(Clone, Debug)]
pub struct Diff {
    /// The announced elements.
    announced: Pack,

    /// The withdrawn elements.
    withdrawn: Pack,
}

impl Diff {
    /// The announced values, in order.
    pub closed spec fn announced(&self) -> Seq<PayloadV> {
        self.announced@
    }

    /// The withdrawn values, in order.
    pub closed spec fn withdrawn(&self) -> Seq<PayloadV> {
        self.withdrawn@
    }

    /// Both lists are sorted and no item is both announced and withdrawn.
    pub closed spec fn wf(&self) -> bool {
        &&& self.announced.wf()
        &&& self.withdrawn.wf()
        &&& self.announced@.to_set().disjoint(self.withdrawn@.to_set())
    }

    /// What a valid diff consists of.
    pub proof fn lemma_wf(&self)
        requires
            self.wf(),
        ensures
            sorted(self.announced()),
            sorted(self.withdrawn()),
            self.announced().to_set().disjoint(self.withdrawn().to_set()),
    {
    }

    /// Creates a diff from its parts.
    fn from_packs(announced: Pack, withdrawn: Pack) -> (res: Diff)
        requires
            announced.wf(),
            withdrawn.wf(),
            announced@.to_set().disjoint(withdrawn@.to_set()),
        ensures
            res.wf(),
            res.announced() == announced@,
            res.withdrawn() == withdrawn@,
    {
        Diff { announced, withdrawn }
    }

    /// Returns another reference to the same diff.
    pub(crate) fn share(&self) -> (res: Diff)
        ensures
            res == *self,
    {
        Diff { announced: self.announced.share(), withdrawn: self.withdrawn.share() }
    }

    /// Returns the number of changes in the diff.
    pub fn len(&self) -> (res: usize)
        requires
            self.announced().len() + self.withdrawn().len() <= usize::MAX,
        ensures
            res == self.announced().len() + self.withdrawn().len(),
    {
        self.announced.len() + self.withdrawn.len()
    }

    /// Returns whether the diff contains no changes at all.
    pub fn is_empty(&self) -> (res: bool)
        ensures
            res == (self.announced().len() == 0 && self.withdrawn().len() == 0),
    {
        self.announced.is_empty() && self.withdrawn.is_empty()
    }

    /// Returns an iterator over the diff’s changes.
    pub fn iter(&self) -> (res: DiffIter<'_>)
        requires
            self.wf(),
        ensures
            res.wf(),
            res.diff() == *self,
            res.pos_announced() == 0,
            res.pos_withdrawn() == 0,
            res.rest() == diff_seq(self.announced(), self.withdrawn()),
    {
        let res = DiffIter { diff: self, a: 0, w: 0 };
        proof {
            assert(self.announced@.subrange(0, self.announced@.len() as int) =~= self.announced@);
            assert(self.withdrawn@.subrange(0, self.withdrawn@.len() as int) =~= self.withdrawn@);
        }
        res
    }

    /// Returns an owned iterator over the diff’s changes.
    pub fn owned_iter(&self) -> (res: OwnedDiffIter)
        requires
            self.wf(),
        ensures
            res.wf(),
            res.rest_announced() == self.announced(),
            res.rest_withdrawn() == self.withdrawn(),
    {
        OwnedDiffIter::new(self.share())
    }

    /// Converts the diff into an owned iterator.
    pub fn into_owned_iter(self) -> (res: OwnedDiffIter)
        requires
            self.wf(),
        ensures
            res.wf(),
            res.rest_announced() == self.announced(),
            res.rest_withdrawn() == self.withdrawn(),
    {
        OwnedDiffIter::new(self)
    }
}

impl Default for Diff {
    fn default() -> (res: Diff)
        ensures
            res.wf(),
            res.announced() == Seq::<PayloadV>::empty(),
            res.withdrawn() == Seq::<PayloadV>::empty(),
    {
        let announced = Pack::default();
        let withdrawn = Pack::default();
        proof {
            assert(announced@.to_set() =~= Set::<PayloadV>::empty());
        }
        Diff::from_packs(announced, withdrawn)
    }
}

//============ DiffIter ======================================================

/// An iterator over the content of a diff.
pub struct DiffIter<'a> {
    /// The diff.
    diff: &'a Diff,

    /// The position in the announcements.
    a: usize,

    /// The position in the withdrawals.
    w: usize,
}

impl<'a> DiffIter<'a> {
    /// The positions lie within the diff.
    pub closed spec fn wf(&self) -> bool {
        &&& self.diff.wf()
        &&& self.a <= self.diff.announced@.len()
        &&& self.w <= self.diff.withdrawn@.len()
    }

    /// The diff iterated over.
    pub closed spec fn diff(&self) -> Diff {
        *self.diff
    }

    /// The number of announcements handed out so far.
    pub closed spec fn pos_announced(&self) -> int {
        self.a as int
    }

    /// The number of withdrawals handed out so far.
    pub closed spec fn pos_withdrawn(&self) -> int {
        self.w as int
    }

    /// The announcements still to come.
    pub open spec fn rest_announced(&self) -> Seq<PayloadV> {
        self.diff().announced().subrange(
            self.pos_announced(),
            self.diff().announced().len() as int,
        )
    }

    /// The withdrawals still to come.
    pub open spec fn rest_withdrawn(&self) -> Seq<PayloadV> {
        self.diff().withdrawn().subrange(
            self.pos_withdrawn(),
            self.diff().withdrawn().len() as int,
        )
    }

    /// The changes still to come.
    pub open spec fn rest(&self) -> Seq<(PayloadV, Action)> {
        diff_seq(self.rest_announced(), self.rest_withdrawn())
    }

    /// Returns the next change.
    pub fn next(&mut self) -> (res: Option<(&'a Payload, Action)>)
        requires
            old(self).wf(),
        ensures
            final(self).wf(),
            final(self).diff() == old(self).diff(),
            old(self).rest().len() == 0 ==> res is None && final(self).rest() == old(self).rest(),
            old(self).rest().len() > 0 ==> res is Some && res.unwrap().0@ == old(self).rest()[0].0
                && res.unwrap().1 == old(self).rest()[0].1 && final(self).rest() == old(self).rest().drop_first(),
            res is Some && res.unwrap().1 == Action::Announce ==> final(self).pos_announced()
                == old(self).pos_announced() + 1 && final(self).pos_withdrawn() == old(self).pos_withdrawn() && res.unwrap().0@ == old(self).rest_announced()[0],
            res is Some && res.unwrap().1 == Action::Withdraw ==> final(self).pos_withdrawn()
                == old(self).pos_withdrawn() + 1 && final(self).pos_announced() == old(self).pos_announced() && res.unwrap().0@ == old(self).rest_withdrawn()[0],
            res is None ==> final(self).pos_announced() == old(self).pos_announced()
                && final(self).pos_withdrawn() == old(self).pos_withdrawn(),
    {
        let diff: &'a Diff = self.diff;
        proof {
            lemma_diff_seq_step(self.rest_announced(), self.rest_withdrawn());
            lemma_diff_seq_len(self.rest_announced(), self.rest_withdrawn());
            if self.a < diff.announced@.len() {
                assert(self.rest_announced().drop_first() =~= diff.announced@.subrange(
                    self.a + 1,
                    diff.announced@.len() as int,
                ));
            }
            if self.w < diff.withdrawn@.len() {
                assert(self.rest_withdrawn().drop_first() =~= diff.withdrawn@.subrange(
                    self.w + 1,
                    diff.withdrawn@.len() as int,
                ));
            }
        }
        let a = self.a;
        let w = self.w;
        if a < diff.announced.len() {
            let x: &'a Payload = &diff.announced.items[a];
            if w < diff.withdrawn.len() {
                let y: &'a Payload = &diff.withdrawn.items[w];
                if less(x, y) {
                    self.a = a + 1;
                    Some((x, Action::Announce))
                } else {
                    self.w = w + 1;
                    Some((y, Action::Withdraw))
                }
            } else {
                self.a = a + 1;
                Some((x, Action::Announce))
            }
        } else if w < diff.withdrawn.len() {
            let y: &'a Payload = &diff.withdrawn.items[w];
            self.w = w + 1;
            Some((y, Action::Withdraw))
        } else {
            None
        }
    }
}

//============ OwnedDiffIter =================================================

/// An owned iterator-like over the content of a diff.
pub struct OwnedDiffIter {
    announced: OwnedBlockIter,
    withdrawn: OwnedBlockIter,
}

impl OwnedDiffIter {
    /// Both parts are valid.
    pub closed spec fn wf(&self) -> bool {
        &&& self.announced.wf()
        &&& self.withdrawn.wf()
    }

    /// The announcements still to come.
    pub closed spec fn rest_announced(&self) -> Seq<PayloadV> {
        self.announced.rest()
    }

    /// The withdrawals still to come.
    pub closed spec fn rest_withdrawn(&self) -> Seq<PayloadV> {
        self.withdrawn.rest()
    }

    /// The changes still to come.
    pub open spec fn rest(&self) -> Seq<(PayloadV, Action)> {
        diff_seq(self.rest_announced(), self.rest_withdrawn())
    }

    fn new(diff: Diff) -> (res: OwnedDiffIter)
        requires
            diff.wf(),
        ensures
            res.wf(),
            res.rest_announced() == diff.announced(),
            res.rest_withdrawn() == diff.withdrawn(),
    {
        OwnedDiffIter { announced: diff.announced.owned_iter(), withdrawn: diff.withdrawn.owned_iter() }
    }

    /// Peeks at the next change.
    pub fn peek(&self) -> (res: Option<(&Payload, Action)>)
        requires
            self.wf(),
        ensures
            self.rest().len() == 0 ==> res is None,
            self.rest().len() > 0 ==> res is Some && res.unwrap().0@ == self.rest()[0].0
                && res.unwrap().1 == self.rest()[0].1,
    {
        proof {
            lemma_diff_seq_step(self.rest_announced(), self.rest_withdrawn());
            lemma_diff_seq_len(self.rest_announced(), self.rest_withdrawn());
        }
        match (self.announced.peek(), self.withdrawn.peek()) {
            (Some(some), None) => Some((some, Action::Announce)),
            (None, Some(some)) => Some((some, Action::Withdraw)),
            (Some(announced), Some(withdrawn)) => {
                if less(announced, withdrawn) {
                    Some((announced, Action::Announce))
                } else {
                    Some((withdrawn, Action::Withdraw))
                }
            },
            (None, None) => None,
        }
    }

    /// Returns the next change.
    pub fn next(&mut self) -> (res: Option<(&Payload, Action)>)
        requires
            old(self).wf(),
        ensures
            final(self).wf(),
            old(self).rest().len() == 0 ==> res is None && final(self).rest() == old(self).rest(),
            old(self).rest().len() > 0 ==> res is Some && res.unwrap().0@ == old(self).rest()[0].0
                && res.unwrap().1 == old(self).rest()[0].1 && final(self).rest() == old(self).rest().drop_first(),
    {
        proof {
            lemma_diff_seq_step(self.rest_announced(), self.rest_withdrawn());
            lemma_diff_seq_len(self.rest_announced(), self.rest_withdrawn());
        }
        let take_announced = match (self.announced.peek(), self.withdrawn.peek()) {
            (Some(_), None) => Some(true),
            (None, Some(_)) => Some(false),
            (Some(announced), Some(withdrawn)) => Some(less(announced, withdrawn)),
            (None, None) => None,
        };
        match take_announced {
            Some(true) => match self.announced.next() {
                Some(item) => Some((item, Action::Announce)),
                None => None,
            },
            Some(false) => match self.withdrawn.next() {
                Some(item) => Some((item, Action::Withdraw)),
                None => None,
            },
            None => None,
        }
    }
}


//============ DiffBuilder ===================================================

/// The next item of a sorted sequence is new to the part before it, and
/// not in a disjoint sequence.
proof fn lemma_next_fresh(s: Seq<PayloadV>, t: Seq<PayloadV>, k: int, l: int)
    requires
        sorted(s),
        s.to_set().disjoint(t.to_set()),
        0 <= k < s.len(),
        0 <= l <= t.len(),
    ensures
        !s.subrange(0, k).to_set().contains(s[k]),
        !t.subrange(0, l).to_set().contains(s[k]),
        s.subrange(0, k + 1).to_set() == s.subrange(0, k).to_set().insert(s[k]),
{
    let x = s[k];
    if s.subrange(0, k).to_set().contains(x) {
        let i = choose|i: int| 0 <= i < k && s.subrange(0, k)[i] == x;
        assert(s[i] == x);
        lemma_lt_irrefl(x);
    }
    if t.subrange(0, l).to_set().contains(x) {
        let i = choose|i: int| 0 <= i < l && t.subrange(0, l)[i] == x;
        assert(t.to_set().contains(t[i]));
        assert(s.to_set().contains(s[k]));
    }
    assert(s.subrange(0, k + 1) =~= s.subrange(0, k).push(x));
    s.subrange(0, k).lemma_push_to_set_commute(x);
}

/// A builder for a diff.
#[derive(Clone, Debug)]
pub struct DiffBuilder {
    announced: PackBuilder,
    withdrawn: PackBuilder,
}

impl DiffBuilder {
    /// The values announced so far.
    pub closed spec fn announced(&self) -> Set<PayloadV> {
        self.announced@
    }

    /// The values withdrawn so far.
    pub closed spec fn withdrawn(&self) -> Set<PayloadV> {
        self.withdrawn@
    }

    /// Both parts are valid and no value is both announced and withdrawn.
    pub closed spec fn wf(&self) -> bool {
        &&& self.announced.wf()
        &&& self.withdrawn.wf()
        &&& self.announced@.disjoint(self.withdrawn@)
    }

    /// Creates an empty builder.
    pub fn empty() -> (res: DiffBuilder)
        ensures
            res.wf(),
            res.announced() == Set::<PayloadV>::empty(),
            res.withdrawn() == Set::<PayloadV>::empty(),
    {
        DiffBuilder { announced: PackBuilder::empty(), withdrawn: PackBuilder::empty() }
    }

    /// Returns the number of changes in the diff.
    pub fn len(&self) -> (res: usize)
        requires
            self.wf(),
            self.announced().len() + self.withdrawn().len() <= usize::MAX,
        ensures
            res == self.announced().len() + self.withdrawn().len(),
    {
        self.announced.len() + self.withdrawn.len()
    }

    /// Returns whether the builder is currently empty.
    pub fn is_empty(&self) -> (res: bool)
        requires
            self.wf(),
        ensures
            res == (self.announced().len() == 0 && self.withdrawn().len() == 0),
    {
        self.announced.is_empty() && self.withdrawn.is_empty()
    }

    /// The outcome of adding a change for value `p` to the builder `old`,
    /// giving this builder and the result `res`.
    pub open spec fn push_result(
        self,
        old: DiffBuilder,
        p: PayloadV,
        action: Action,
        res: Result<(), PayloadError>,
    ) -> bool {
        let unchanged = self.announced() == old.announced() && self.withdrawn() == old.withdrawn();
        if action == Action::Announce {
            if old.withdrawn().contains(p) {
                res == Err::<(), PayloadError>(PayloadError::Corrupt) && unchanged
            } else if old.announced().contains(p) {
                res == Err::<(), PayloadError>(PayloadError::DuplicateAnnounce) && unchanged
            } else {
                res == Ok::<(), PayloadError>(()) && self.announced() == old.announced().insert(p)
                    && self.withdrawn() == old.withdrawn()
            }
        } else {
            if old.announced().contains(p) {
                res == Err::<(), PayloadError>(PayloadError::Corrupt) && unchanged
            } else if old.withdrawn().contains(p) {
                res == Err::<(), PayloadError>(PayloadError::DuplicateAnnounce) && unchanged
            } else {
                res == Ok::<(), PayloadError>(()) && self.withdrawn() == old.withdrawn().insert(p)
                    && self.announced() == old.announced()
            }
        }
    }

    /// Adds a change to the diff.
    ///
    /// The method fails if there already is an action for the given payload
    /// element: with [`PayloadError::Corrupt`] if it is the opposite action,
    /// with [`PayloadError::DuplicateAnnounce`] if it is the same.
    pub fn push(&mut self, payload: Payload, action: Action) -> (res: Result<(), PayloadError>)
        requires
            old(self).wf(),
        ensures
            final(self).wf(),
            final(self).push_result(*old(self), payload@, action, res),
            final(self).announced().finite() && final(self).withdrawn().finite(),
            res is Ok ==> final(self).announced().len() + final(self).withdrawn().len()
                == old(self).announced().len() + old(self).withdrawn().len() + 1,
    {
        proof {
            vstd::seq_lib::seq_to_set_is_finite(vals(self.announced.items@));
            vstd::seq_lib::seq_to_set_is_finite(vals(self.withdrawn.items@));
        }
        match action {
            Action::Announce => {
                if self.withdrawn.contains(&payload) {
                    return Err(PayloadError::Corrupt);
                }
                self.announced.insert(payload)
            },
            Action::Withdraw => {
                if self.announced.contains(&payload) {
                    return Err(PayloadError::Corrupt);
                }
                self.withdrawn.insert(payload)
            },
        }
    }

    /// Adds another diff to this diff.
    ///
    /// The `diff` is added as if it were the next step in a chain of diffs.
    /// That is, if it announces elements previously withdrawn or withdraws
    /// elements previously announced, these are simply dropped from the
    /// builder. It fails if it announces an element announced already or
    /// withdraws one withdrawn already. The changes are added in the order
    /// of the diff, and those before the failing one stay added.
    pub fn push_diff(&mut self, diff: &Diff) -> (res: Result<(), PayloadError>)
        requires
            old(self).wf(),
            diff.wf(),
        ensures
            final(self).wf(),
            res is Ok <==> chains(
                old(self).announced(),
                old(self).withdrawn(),
                diff.announced().to_set(),
                diff.withdrawn().to_set(),
            ),
            res is Err ==> res == Err::<(), PayloadError>(PayloadError::DuplicateAnnounce),
            res is Err ==> exists|k: int, l: int|
                stopped_at(
                    old(self).announced(),
                    old(self).withdrawn(),
                    diff.announced(),
                    diff.withdrawn(),
                    k,
                    l,
                    final(self).announced(),
                    final(self).withdrawn(),
                ),
            res is Ok ==> final(self).announced() == chained_announced(
                old(self).announced(),
                old(self).withdrawn(),
                diff.announced().to_set(),
                diff.withdrawn().to_set(),
            ) && final(self).withdrawn() == chained_withdrawn(
                old(self).announced(),
                old(self).withdrawn(),
                diff.announced().to_set(),
                diff.withdrawn().to_set(),
            ),
    {
        let ghost a0 = self.announced@;
        let ghost w0 = self.withdrawn@;
        let ghost da = diff.announced();
        let ghost dw = diff.withdrawn();
        let mut iter = diff.iter();
        let ghost changes = diff_seq(da, dw);
        proof {
            lemma_diff_seq_len(da, dw);
            assert(changes.subrange(0, changes.len() as int) =~= changes);
            diff.lemma_wf();
            assert(da.subrange(0, 0).to_set() =~= Set::<PayloadV>::empty());
            assert(dw.subrange(0, 0).to_set() =~= Set::<PayloadV>::empty());
            assert(self.announced@ =~= chained_announced(a0, w0, Set::empty(), Set::empty()));
            assert(self.withdrawn@ =~= chained_withdrawn(a0, w0, Set::empty(), Set::empty()));
        }
        loop
            invariant
                iter.wf(),
                iter.diff() == *diff,
                diff.wf(),
                da == diff.announced(),
                dw == diff.withdrawn(),
                sorted(da),
                sorted(dw),
                da.to_set().disjoint(dw.to_set()),
                0 <= iter.pos_announced() <= da.len(),
                0 <= iter.pos_withdrawn() <= dw.len(),
                changes == diff_seq(da, dw),
                changes.len() == da.len() + dw.len(),
                iter.rest() == changes.subrange(
                    iter.pos_announced() + iter.pos_withdrawn(),
                    changes.len() as int,
                ),
                forall|m: int|
                    0 <= m < iter.pos_announced() + iter.pos_withdrawn() ==> !repeats(
                        a0,
                        w0,
                        #[trigger] changes[m],
                    ),
                self.wf(),
                a0 == old(self).announced(),
                w0 == old(self).withdrawn(),
                a0.disjoint(w0),
                da.subrange(0, iter.pos_announced()).to_set().disjoint(a0),
                dw.subrange(0, iter.pos_withdrawn()).to_set().disjoint(w0),
                self.announced@ == chained_announced(
                    a0,
                    w0,
                    da.subrange(0, iter.pos_announced()).to_set(),
                    dw.subrange(0, iter.pos_withdrawn()).to_set(),
                ),
                self.withdrawn@ == chained_withdrawn(
                    a0,
                    w0,
                    da.subrange(0, iter.pos_announced()).to_set(),
                    dw.subrange(0, iter.pos_withdrawn()).to_set(),
                ),
            ensures
                iter.pos_announced() == da.len(),
                iter.pos_withdrawn() == dw.len(),
            decreases da.len() - iter.pos_announced() + dw.len() - iter.pos_withdrawn(),
        {
            let ghost k = iter.pos_announced();
            let ghost l = iter.pos_withdrawn();
            let ghost pa = da.subrange(0, k).to_set();
            let ghost pw = dw.subrange(0, l).to_set();
            let ghost rest0 = iter.rest();
            proof {
                lemma_diff_seq_len(iter.rest_announced(), iter.rest_withdrawn());
            }
            match iter.next() {
                None => {
                    break;
                },
                Some((payload, Action::Announce)) => {
                    let ghost x = payload@;
                    proof {
                        assert(x == da[k]);
                        lemma_next_fresh(da, dw, k, l);
                        diff.lemma_wf();
                    }
                    if self.withdrawn.remove(payload).is_err() {
                        match self.announced.insert(copy_payload(payload)) {
                            Err(err) => {
                                proof {
                                    assert(a0.contains(x));
                                    assert(da.to_set().contains(da[k]));
                                    assert(stopped_at(a0, w0, da, dw, k, l, self.announced(), self.withdrawn()));
                                }
                                return Err(err);
                            },
                            Ok(()) => {},
                        }
                    }
                    proof {
                        let pa2 = da.subrange(0, k + 1).to_set();
                        assert(changes[k + l] == rest0[0]);
                        assert(!a0.contains(x));
                        assert(changes.subrange(k + l + 1, changes.len() as int) =~= changes.subrange(
                            k + l,
                            changes.len() as int,
                        ).drop_first());
                        assert(pa2.disjoint(a0));
                        assert(self.announced@ =~= chained_announced(a0, w0, pa2, pw));
                        assert(self.withdrawn@ =~= chained_withdrawn(a0, w0, pa2, pw));
                    }
                },
                Some((payload, Action::Withdraw)) => {
                    let ghost x = payload@;
                    proof {
                        assert(x == dw[l]);
                        lemma_next_fresh(dw, da, l, k);
                        diff.lemma_wf();
                    }
                    if self.announced.remove(payload).is_err() {
                        match self.withdrawn.insert(copy_payload(payload)) {
                            Err(err) => {
                                proof {
                                    assert(w0.contains(x));
                                    assert(dw.to_set().contains(dw[l]));
                                    assert(stopped_at(a0, w0, da, dw, k, l, self.announced(), self.withdrawn()));
                                }
                                return Err(err);
                            },
                            Ok(()) => {},
                        }
                    }
                    proof {
                        let pw2 = dw.subrange(0, l + 1).to_set();
                        assert(changes[k + l] == rest0[0]);
                        assert(!w0.contains(x));
                        assert(changes.subrange(k + l + 1, changes.len() as int) =~= changes.subrange(
                            k + l,
                            changes.len() as int,
                        ).drop_first());
                        assert(pw2.disjoint(w0));
                        assert(self.announced@ =~= chained_announced(a0, w0, pa, pw2));
                        assert(self.withdrawn@ =~= chained_withdrawn(a0, w0, pa, pw2));
                    }
                },
            }
        }
        proof {
            assert(da.subrange(0, da.len() as int) =~= da);
            assert(dw.subrange(0, dw.len() as int) =~= dw);
        }
        Ok(())
    }

    /// Converts the builder into a diff.
    pub fn finalize(self) -> (res: Diff)
        requires
            self.wf(),
        ensures
            res.wf(),
            res.announced().to_set() == self.announced(),
            res.withdrawn().to_set() == self.withdrawn(),
    {
        Diff::from_packs(self.announced.finalize(), self.withdrawn.finalize())
    }
}

impl Default for DiffBuilder {
    fn default() -> (res: DiffBuilder)
        ensures
            res.wf(),
            res.announced() == Set::<PayloadV>::empty(),
            res.withdrawn() == Set::<PayloadV>::empty(),
    {
        DiffBuilder::empty()
    }
}


//============ Comparing sets ================================================

/// A value that comes before all of a sorted sequence is not in it.
proof fn lemma_before_not_in(x: PayloadV, s: Seq<PayloadV>)
    requires
        sorted(s),
        s.len() > 0 ==> lt(x, s[0]),
    ensures
        !s.to_set().contains(x),
{
    if s.to_set().contains(x) {
        let i = choose|i: int| 0 <= i < s.len() && s[i] == x;
        if i > 0 {
            lemma_lt_trans(x, s[0], s[i]);
        }
        lemma_lt_irrefl(x);
    }
}

/// A value that comes after all of a sequence is not in it.
proof fn lemma_after_not_in(x: PayloadV, s: Seq<PayloadV>)
    requires
        forall|i: int| 0 <= i < s.len() ==> lt(#[trigger] s[i], x),
    ensures
        !s.to_set().contains(x),
{
    if s.to_set().contains(x) {
        let i = choose|i: int| 0 <= i < s.len() && s[i] == x;
        assert(lt(s[i], x));
        lemma_lt_irrefl(x);
    }
}

/// The state of comparing two sorted sequences after taking the first
/// value off one or both of them.
pub open spec fn compare_state(
    so: Seq<PayloadV>,
    ta: Seq<PayloadV>,
    cs: Seq<PayloadV>,
    ct: Seq<PayloadV>,
    rs: Seq<PayloadV>,
    rt: Seq<PayloadV>,
) -> bool {
    &&& so == cs + rs
    &&& ta == ct + rt
    &&& all_before(cs, rt)
    &&& all_before(ct, rs)
}

/// Taking the smaller first value keeps the comparison state, and that
/// value is only in its own sequence.
proof fn lemma_compare_step(
    so: Seq<PayloadV>,
    ta: Seq<PayloadV>,
    cs: Seq<PayloadV>,
    ct: Seq<PayloadV>,
    rs: Seq<PayloadV>,
    rt: Seq<PayloadV>,
)
    requires
        compare_state(so, ta, cs, ct, rs, rt),
        sorted(so),
        sorted(ta),
        rs.len() > 0,
        rt.len() > 0 ==> lt(rs[0], rt[0]),
    ensures
        compare_state(so, ta, cs.push(rs[0]), ct, rs.drop_first(), rt),
        !ta.to_set().contains(rs[0]),
{
    let x = rs[0];
    lemma_sorted_subrange(ta, ct.len() as int, ta.len() as int);
    assert(rt =~= ta.subrange(ct.len() as int, ta.len() as int));
    lemma_sorted_subrange(so, cs.len() as int, so.len() as int);
    assert(rs =~= so.subrange(cs.len() as int, so.len() as int));
    assert(so =~= cs.push(x) + rs.drop_first());
    assert forall|i: int, j: int| 0 <= i < cs.len() + 1 && 0 <= j < rt.len() implies lt(
        #[trigger] cs.push(x)[i],
        #[trigger] rt[j],
    ) by {
        if i == cs.len() && j > 0 {
            lemma_lt_trans(x, rt[0], rt[j]);
        }
    }
    assert forall|i: int, j: int| 0 <= i < ct.len() && 0 <= j < rs.len() - 1 implies lt(
        #[trigger] ct[i],
        #[trigger] rs.drop_first()[j],
    ) by {
        assert(rs.drop_first()[j] == rs[j + 1]);
    }
    lemma_before_not_in(x, rt);
    assert forall|i: int| 0 <= i < ct.len() implies lt(#[trigger] ct[i], x) by {
        assert(lt(ct[i], rs[0]));
    }
    lemma_after_not_in(x, ct);
    seq_to_set_distributes_over_add(ct, rt);
}

/// Taking equal first values keeps the comparison state.
proof fn lemma_compare_equal(
    so: Seq<PayloadV>,
    ta: Seq<PayloadV>,
    cs: Seq<PayloadV>,
    ct: Seq<PayloadV>,
    rs: Seq<PayloadV>,
    rt: Seq<PayloadV>,
)
    requires
        compare_state(so, ta, cs, ct, rs, rt),
        sorted(so),
        sorted(ta),
        rs.len() > 0,
        rt.len() > 0,
        rs[0] == rt[0],
    ensures
        compare_state(
            so,
            ta,
            cs.push(rs[0]),
            ct.push(rt[0]),
            rs.drop_first(),
            rt.drop_first(),
        ),
{
    let x = rs[0];
    lemma_sorted_subrange(ta, ct.len() as int, ta.len() as int);
    assert(rt =~= ta.subrange(ct.len() as int, ta.len() as int));
    lemma_sorted_subrange(so, cs.len() as int, so.len() as int);
    assert(rs =~= so.subrange(cs.len() as int, so.len() as int));
    assert(so =~= cs.push(x) + rs.drop_first());
    assert(ta =~= ct.push(x) + rt.drop_first());
    assert forall|i: int, j: int| 0 <= i < cs.len() + 1 && 0 <= j < rt.len() - 1 implies lt(
        #[trigger] cs.push(x)[i],
        #[trigger] rt.drop_first()[j],
    ) by {
        assert(rt.drop_first()[j] == rt[j + 1]);
    }
    assert forall|i: int, j: int| 0 <= i < ct.len() + 1 && 0 <= j < rs.len() - 1 implies lt(
        #[trigger] ct.push(x)[i],
        #[trigger] rs.drop_first()[j],
    ) by {
        assert(rs.drop_first()[j] == rs[j + 1]);
    }
}

impl PayloadSet {
    /// Returns the diff to get from `other` to `self`.
    ///
    /// The diff announces what is in `self` but not in `other` and
    /// withdraws what is in `other` but not in `self`.
    pub fn diff_from(&self, other: &PayloadSet) -> (res: Diff)
        requires
            self.wf(),
            other.wf(),
        ensures
            res.wf(),
            res.announced().to_set() == self@.to_set().difference(other@.to_set()),
            res.withdrawn().to_set() == other@.to_set().difference(self@.to_set()),
    {
        let mut diff = DiffBuilder::empty();
        let mut source = other.iter();
        let mut target = self.iter();
        let ghost so = other@;
        let ghost ta = self@;
        let ghost mut cs: Seq<PayloadV> = Seq::empty();
        let ghost mut ct: Seq<PayloadV> = Seq::empty();
        proof {
            assert(so =~= cs + source.rest());
            assert(ta =~= ct + target.rest());
            assert(diff.announced() =~= ct.to_set().difference(so.to_set()));
            assert(diff.withdrawn() =~= cs.to_set().difference(ta.to_set()));
        }
        // Process items while there’s some left in either set. Where only
        // one set has items left, they are withdrawn or announced.
        loop
            invariant
                source.wf(),
                target.wf(),
                diff.wf(),
                sorted(so),
                sorted(ta),
                compare_state(so, ta, cs, ct, source.rest(), target.rest()),
                diff.announced() == ct.to_set().difference(so.to_set()),
                diff.withdrawn() == cs.to_set().difference(ta.to_set()),
            ensures
                source.rest().len() == 0,
                target.rest().len() == 0,
            decreases source.rest().len() + target.rest().len(),
        {
            let ghost rs = source.rest();
            let ghost rt = target.rest();
            match (source.peek(), target.peek()) {
                (Some(source_item), Some(target_item)) => {
                    match compare(source_item, target_item) {
                        Order::Less => {
                            proof {
                                lemma_compare_step(so, ta, cs, ct, rs, rt);
                                seq_to_set_distributes_over_add(ct, rt);
                                assert(!diff.announced().contains(source_item@));
                            }
                            diff.withdrawn.insert_unchecked(copy_payload(source_item));
                            source.next();
                            proof {
                                seq_to_set_distributes_over_add(cs, rs);
                                cs.lemma_push_to_set_commute(rs[0]);
                                assert(diff.withdrawn() =~= cs.push(rs[0]).to_set().difference(
                                    ta.to_set(),
                                ));
                                cs = cs.push(rs[0]);
                            }
                        },
                        Order::Equal => {
                            proof {
                                lemma_compare_equal(so, ta, cs, ct, rs, rt);
                                seq_to_set_distributes_over_add(cs, rs);
                                seq_to_set_distributes_over_add(ct, rt);
                                cs.lemma_push_to_set_commute(rs[0]);
                                ct.lemma_push_to_set_commute(rt[0]);
                                assert(so.to_set().contains(rs[0]));
                                assert(ta.to_set().contains(rt[0]));
                                assert(diff.withdrawn() =~= cs.push(rs[0]).to_set().difference(
                                    ta.to_set(),
                                ));
                                assert(diff.announced() =~= ct.push(rt[0]).to_set().difference(
                                    so.to_set(),
                                ));
                                cs = cs.push(rs[0]);
                                ct = ct.push(rt[0]);
                            }
                            source.next();
                            target.next();
                        },
                        Order::Greater => {
                            proof {
                                lemma_compare_step(ta, so, ct, cs, rt, rs);
                                seq_to_set_distributes_over_add(cs, rs);
                                assert(!diff.withdrawn().contains(target_item@));
                            }
                            diff.announced.insert_unchecked(copy_payload(target_item));
                            target.next();
                            proof {
                                ct.lemma_push_to_set_commute(rt[0]);
                                assert(diff.announced() =~= ct.push(rt[0]).to_set().difference(
                                    so.to_set(),
                                ));
                                ct = ct.push(rt[0]);
                            }
                        },
                    }
                },
                (Some(source_item), None) => {
                    proof {
                        lemma_compare_step(so, ta, cs, ct, rs, rt);
                        seq_to_set_distributes_over_add(ct, rt);
                        assert(!diff.announced().contains(source_item@));
                    }
                    diff.withdrawn.insert_unchecked(copy_payload(source_item));
                    source.next();
                    proof {
                        cs.lemma_push_to_set_commute(rs[0]);
                        assert(diff.withdrawn() =~= cs.push(rs[0]).to_set().difference(
                            ta.to_set(),
                        ));
                        cs = cs.push(rs[0]);
                    }
                },
                (None, Some(target_item)) => {
                    proof {
                        lemma_compare_step(ta, so, ct, cs, rt, rs);
                        seq_to_set_distributes_over_add(cs, rs);
                        assert(!diff.withdrawn().contains(target_item@));
                    }
                    diff.announced.insert_unchecked(copy_payload(target_item));
                    target.next();
                    proof {
                        ct.lemma_push_to_set_commute(rt[0]);
                        assert(diff.announced() =~= ct.push(rt[0]).to_set().difference(
                            so.to_set(),
                        ));
                        ct = ct.push(rt[0]);
                    }
                },
                (None, None) => {
                    break;
                },
            }
        }
        proof {
            assert(cs =~= so);
            assert(ct =~= ta);
        }
        diff.finalize()
    }
}


//============ Applying diffs ================================================

/// Returns whether a pack holds an item with the value of `p`.
fn pack_contains(pack: &Pack, p: &Payload) -> (res: bool)
    requires
        pack.wf(),
    ensures
        res == pack@.to_set().contains(p@),
{
    let (found, pos) = find(pack.as_slice(), p);
    proof {
        if found {
            assert(pack@[pos as int] == p@);
            assert(pack@.to_set().contains(pack@[pos as int]));
        } else {
            lemma_sorted_contains(pack.items(), p@, pos as int);
        }
    }
    found
}

/// Returns whether a set holds an item with the value of `p`.
fn set_contains(set: &PayloadSet, p: &Payload) -> (res: bool)
    requires
        set.wf(),
    ensures
        res == set@.contains(p@),
{
    let blocks = set.as_blocks();
    let mut b: usize = 0;
    proof {
        lemma_flatten_contains(bviews(set.blocks()), p@);
    }
    while b < blocks.len()
        invariant
            set.wf(),
            blocks@ == set.blocks(),
            b <= blocks@.len(),
            forall|c: int, k: int|
                0 <= c < b && 0 <= k < blocks@[c]@.len() ==> #[trigger] blocks@[c]@[k] != p@,
        decreases blocks@.len() - b,
    {
        let block = &blocks[b];
        proof {
            assert(set.blocks()[b as int].wf());
            block.lemma_view();
        }
        let slice = block.as_slice();
        let (found, pos) = find(slice, p);
        if found {
            proof {
                assert(vals(slice@)[pos as int] == p@);
                assert(bviews(set.blocks())[b as int][pos as int] == p@);
                lemma_flatten_contains(bviews(set.blocks()), p@);
            }
            return true;
        }
        proof {
            assert forall|k: int| 0 <= k < block@.len() implies #[trigger] block@[k] != p@ by {
                assert(vals(slice@)[k] == slice@[k]@);
                lemma_lt_irrefl(p@);
            }
        }
        b = b + 1;
    }
    proof {
        if set@.contains(p@) {
            let (c, k) = choose|c: int, k: int|
                0 <= c < bviews(set.blocks()).len() && 0 <= k < bviews(set.blocks())[c].len()
                    && #[trigger] bviews(set.blocks())[c][k] == p@;
            assert(blocks@[c]@[k] == p@);
        }
    }
    false
}

/// The values of a set without those of a pack.
proof fn lemma_filtered(set: PayloadSet, res: PayloadSet, w: Set<PayloadV>)
    requires
        set.wf(),
        res.wf(),
        forall|x: PayloadV| res@.contains(x) ==> set@.contains(x),
        forall|i: int|
            0 <= i < set@.len() ==> (res@.contains(#[trigger] set@[i]) <==> !w.contains(
                set.items()[i]@,
            )),
    ensures
        res@.to_set() == set@.to_set().difference(w),
{
    set.lemma_items();
    assert forall|x: PayloadV| #[trigger] res@.to_set().contains(x) <==> set@.to_set().difference(
        w,
    ).contains(x) by {
        if res@.contains(x) {
            let i = choose|i: int| 0 <= i < set@.len() && set@[i] == x;
            assert(set.items()[i]@ == set@[i]);
        }
        if set@.contains(x) && !w.contains(x) {
            let i = choose|i: int| 0 <= i < set@.len() && set@[i] == x;
            assert(set.items()[i]@ == set@[i]);
        }
    }
    assert(res@.to_set() =~= set@.to_set().difference(w));
}

impl Diff {
    /// Returns a new diff by extending this diff with additional changes.
    ///
    /// This will result in an error if the diffs cannot be added to each
    /// other.
    pub fn extend(&self, additional: &Diff) -> (res: Result<Diff, PayloadError>)
        requires
            self.wf(),
            additional.wf(),
        ensures
            res is Ok <==> chains(
                self.announced().to_set(),
                self.withdrawn().to_set(),
                additional.announced().to_set(),
                additional.withdrawn().to_set(),
            ),
            res is Err ==> res == Err::<Diff, PayloadError>(PayloadError::DuplicateAnnounce),
            res matches Ok(d) ==> d.wf() && d.announced().to_set() == chained_announced(
                self.announced().to_set(),
                self.withdrawn().to_set(),
                additional.announced().to_set(),
                additional.withdrawn().to_set(),
            ) && d.withdrawn().to_set() == chained_withdrawn(
                self.announced().to_set(),
                self.withdrawn().to_set(),
                additional.announced().to_set(),
                additional.withdrawn().to_set(),
            ),
    {
        let mut builder = DiffBuilder::empty();
        let ghost a0 = self.announced().to_set();
        let ghost w0 = self.withdrawn().to_set();
        proof {
            assert(chains(Set::empty(), Set::empty(), a0, w0));
            assert(chained_announced(Set::empty(), Set::empty(), a0, w0) =~= a0);
            assert(chained_withdrawn(Set::empty(), Set::empty(), a0, w0) =~= w0);
        }
        match builder.push_diff(self) {
            Err(err) => {
                return Err(err);
            },
            Ok(()) => {},
        }
        match builder.push_diff(additional) {
            Err(err) => {
                return Err(err);
            },
            Ok(()) => {},
        }
        Ok(builder.finalize())
    }

    /// Applies the diff to a set returning a new set.
    ///
    /// Fails with [`PayloadError::DuplicateAnnounce`] if an announced item
    /// is in the set already and otherwise with
    /// [`PayloadError::UnknownWithdraw`] if a withdrawn item is neither in
    /// the set nor announced.
    pub fn apply(&self, set: &PayloadSet) -> (res: Result<PayloadSet, PayloadError>)
        requires
            self.wf(),
            set.wf(),
            set@.len() + self.announced().len() <= usize::MAX,
        ensures
            res is Ok <==> applies(
                self.announced().to_set(),
                self.withdrawn().to_set(),
                set@.to_set(),
            ),
            !self.announced().to_set().disjoint(set@.to_set()) ==> res == Err::<
                PayloadSet,
                PayloadError,
            >(PayloadError::DuplicateAnnounce),
            self.announced().to_set().disjoint(set@.to_set()) && !self.withdrawn().to_set().subset_of(
                set@.to_set().union(self.announced().to_set()),
            ) ==> res == Err::<PayloadSet, PayloadError>(PayloadError::UnknownWithdraw),
            res matches Ok(r) ==> r.wf() && r@.to_set() == applied(
                self.announced().to_set(),
                self.withdrawn().to_set(),
                set@.to_set(),
            ),
    {
        let ghost a = self.announced().to_set();
        let ghost w = self.withdrawn().to_set();
        let ghost s = set@.to_set();
        let mut res = set.to_builder();
        let ghost b0 = res;
        match res.try_insert_pack(self.announced.share()) {
            Err(_) => {
                proof {
                    let x = choose|x: PayloadV| #[trigger] s.contains(x) && self.announced@.contains(x);
                    assert(a.contains(x));
                }
                return Err(PayloadError::DuplicateAnnounce);
            },
            Ok(()) => {},
        }
        proof {
            assert(b0.contents() == s);
            assert forall|x: PayloadV| a.contains(x) implies !s.contains(x) by {
                assert(self.announced@.contains(x));
                assert(!(b0.contents().contains(x) && self.announced@.contains(x)));
            }
            lemma_flatten_push(bviews(set.blocks()), self.announced@);
            seq_to_set_distributes_over_add(set@, self.announced@);
        }
        let res = res.finalize();
        let withdrawn = &self.withdrawn;
        let retain = |item: &Payload| -> (keep: bool)
            requires
                withdrawn.wf(),
            ensures
                keep == !withdrawn@.to_set().contains(item@),
        {
            !pack_contains(withdrawn, item)
        };
        let filtered = res.filter(retain);
        proof {
            lemma_filtered(res, filtered, w);
        }

        // Everything withdrawn must have been there.
        let mut i: usize = 0;
        while i < withdrawn.len()
            invariant
                withdrawn.wf(),
                res.wf(),
                *withdrawn == self.withdrawn,
                withdrawn@ == self.withdrawn(),
                a == self.announced().to_set(),
                w == self.withdrawn().to_set(),
                s == set@.to_set(),
                a.disjoint(s),
                res@.to_set() == s.union(a),
                i <= withdrawn@.len(),
                forall|k: int| 0 <= k < i ==> res@.contains(#[trigger] withdrawn@[k]),
            decreases withdrawn@.len() - i,
        {
            proof {
                withdrawn.lemma_view();
            }
            if !set_contains(&res, &withdrawn.items[i]) {
                proof {
                    assert(w.contains(withdrawn@[i as int]));
                    assert(!res@.to_set().contains(withdrawn@[i as int]));
                }
                return Err(PayloadError::UnknownWithdraw);
            }
            i = i + 1;
        }
        proof {
            assert forall|x: PayloadV| w.contains(x) implies s.union(a).contains(x) by {
                let k = choose|k: int| 0 <= k < withdrawn@.len() && withdrawn@[k] == x;
                assert(res@.contains(withdrawn@[k]));
                assert(res@.to_set().contains(x));
            }
            assert(filtered@.to_set() =~= applied(a, w, s));
        }
        Ok(filtered)
    }

    /// Applies the diff to a set ignoring overlaps and missing items.
    pub fn apply_relaxed(&self, set: &PayloadSet) -> (res: PayloadSet)
        requires
            self.wf(),
            set.wf(),
            set@.len() + self.announced().len() <= usize::MAX,
        ensures
            res.wf(),
            res@.to_set() == applied(
                self.announced().to_set(),
                self.withdrawn().to_set(),
                set@.to_set(),
            ),
    {
        let mut res = set.to_builder();
        res.insert_pack(self.announced.share());
        proof {
            lemma_flatten_push(bviews(set.blocks()), self.announced@);
            seq_to_set_distributes_over_add(set@, self.announced@);
        }
        let res = res.finalize();
        let withdrawn = &self.withdrawn;
        let retain = |item: &Payload| -> (keep: bool)
            requires
                withdrawn.wf(),
            ensures
                keep == !withdrawn@.to_set().contains(item@),
        {
            !pack_contains(withdrawn, item)
        };
        let filtered = res.filter(retain);
        proof {
            lemma_filtered(res, filtered, self.withdrawn().to_set());
            assert(filtered@.to_set() =~= applied(
                self.announced().to_set(),
                self.withdrawn().to_set(),
                set@.to_set(),
            ));
        }
        filtered
    }
}


//============ Update ========================================================

/// An update of a unit’s payload data.
///
/// An update keeps both the set and optional diff behind an arc and can thus
/// be copied cheaply.
#[derive(Clone, Debug)]
pub struct Update {
    /// The serial number of this update.
    serial: u32,

    /// The new payload set.
    set: PayloadSet,

    /// The optional diff from the previous update.
    diff: Option<Diff>,
}

impl Update {
    /// The serial number of the update.
    pub closed spec fn serial_spec(&self) -> u32 {
        self.serial
    }

    /// The payload set of the update.
    pub closed spec fn set_spec(&self) -> PayloadSet {
        self.set
    }

    /// The diff from the previous update, if any.
    pub closed spec fn diff_spec(&self) -> Option<Diff> {
        self.diff
    }

    /// The set and the diff are valid.
    pub open spec fn wf(&self) -> bool {
        &&& self.set_spec().wf()
        &&& self.diff_spec() matches Some(d) ==> d.wf()
    }

    /// Creates a new update.
    pub fn new(serial: u32, set: PayloadSet, diff: Option<Diff>) -> (res: Update)
        ensures
            res.serial_spec() == serial,
            res.set_spec() == set,
            res.diff_spec() == diff,
    {
        Update { serial, set, diff }
    }

    /// Returns the serial number of the update.
    pub fn serial(&self) -> (res: u32)
        ensures
            res == self.serial_spec(),
    {
        self.serial
    }

    /// Returns the payload set of the update.
    pub fn set(&self) -> (res: &PayloadSet)
        ensures
            *res == self.set_spec(),
    {
        &self.set
    }

    /// Converts the update into the payload set.
    pub fn into_set(self) -> (res: PayloadSet)
        ensures
            res == self.set_spec(),
    {
        self.set
    }

    /// Returns the diff if it can be used for the given serial.
    ///
    /// The method will return the diff if it is present and if the given
    /// serial is one less than the update’s serial.
    pub fn get_usable_diff(&self, serial: u32) -> (res: Option<&Diff>)
        ensures
            res == (if self.diff_spec() is Some && (serial as int + 1) % 0x1_0000_0000
                == self.serial_spec() {
                Some(&self.diff_spec().unwrap())
            } else {
                None::<&Diff>
            }),
    {
        match &self.diff {
            Some(diff) => {
                if serial_add(serial, 1) == self.serial {
                    Some(diff)
                } else {
                    None
                }
            },
            None => None,
        }
    }

    /// Applies a diff to the update.
    ///
    /// The update will retain its current serial number.
    pub fn apply_diff_relaxed(&mut self, diff: &Diff)
        requires
            old(self).wf(),
            diff.wf(),
            old(self).set_spec()@.len() + diff.announced().len() <= usize::MAX,
        ensures
            final(self).wf(),
            final(self).serial_spec() == old(self).serial_spec(),
            final(self).diff_spec() is None,
            final(self).set_spec()@.to_set() == applied(
                diff.announced().to_set(),
                diff.withdrawn().to_set(),
                old(self).set_spec()@.to_set(),
            ),
    {
        self.set = diff.apply_relaxed(&self.set);
        self.diff = None;
    }
}

//============ Laws ==========================================================

/// A set is determined by its values: two valid sets with the same values
/// hold the same items in the same order.
pub proof fn law_set_determined(a: PayloadSet, b: PayloadSet)
    requires
        a.wf(),
        b.wf(),
        a@.to_set() == b@.to_set(),
    ensures
        a@ == b@,
{
    lemma_sorted_unique(a@, b@);
}

/// Applying the diff from one set to another to the first set gives the
/// second set, and the diff applies strictly.
pub proof fn law_diff_then_apply(target: Set<PayloadV>, source: Set<PayloadV>)
    ensures
        applies(target.difference(source), source.difference(target), source),
        applied(target.difference(source), source.difference(target), source) == target,
{
    assert(applied(target.difference(source), source.difference(target), source) =~= target);
}

/// Applying the diff from a valid set to another valid set to the first one
/// gives a valid set that holds the items of the second one in the same
/// order.
pub proof fn law_diff_then_apply_items(source: PayloadSet, target: PayloadSet, res: PayloadSet)
    requires
        source.wf(),
        target.wf(),
        res.wf(),
        res@.to_set() == applied(
            target@.to_set().difference(source@.to_set()),
            source@.to_set().difference(target@.to_set()),
            source@.to_set(),
        ),
    ensures
        res@ == target@,
{
    law_diff_then_apply(target@.to_set(), source@.to_set());
    lemma_sorted_unique(res@, target@);
}

/// The diff from a first set to a second one, extended by the diff from the
/// second set to a third one, is the diff from the first set to the third
/// one, and the extension succeeds.
pub proof fn law_extend_diffs(s1: Set<PayloadV>, s2: Set<PayloadV>, s3: Set<PayloadV>)
    ensures
        chains(s2.difference(s1), s1.difference(s2), s3.difference(s2), s2.difference(s3)),
        chained_announced(s2.difference(s1), s1.difference(s2), s3.difference(s2), s2.difference(s3))
            == s3.difference(s1),
        chained_withdrawn(s2.difference(s1), s1.difference(s2), s3.difference(s2), s2.difference(s3))
            == s1.difference(s3),
{
    assert(chained_announced(
        s2.difference(s1),
        s1.difference(s2),
        s3.difference(s2),
        s2.difference(s3),
    ) =~= s3.difference(s1));
    assert(chained_withdrawn(
        s2.difference(s1),
        s1.difference(s2),
        s3.difference(s2),
        s2.difference(s3),
    ) =~= s1.difference(s3));
}

/// Merging two valid sets gives the same items in the same order whichever
/// of them comes first: each valid set holding the union of their values.
pub proof fn law_merge_symmetric(a: PayloadSet, b: PayloadSet, ab: PayloadSet, ba: PayloadSet)
    requires
        a.wf(),
        b.wf(),
        ab.wf(),
        ba.wf(),
        ab@.to_set() == a@.to_set() + b@.to_set(),
        ba@.to_set() == b@.to_set() + a@.to_set(),
    ensures
        ab@ == ba@,
{
    assert(a@.to_set() + b@.to_set() =~= b@.to_set() + a@.to_set());
    lemma_sorted_unique(ab@, ba@);
}

/// A diff from a set to itself is empty.
pub proof fn law_diff_to_self(s: Set<PayloadV>)
    ensures
        s.difference(s) == Set::<PayloadV>::empty(),
{
    assert(s.difference(s) =~= Set::<PayloadV>::empty());
}

/// Applying two diffs one after the other is the same as applying the
/// first one extended by the second one, and the extension succeeds.
pub proof fn law_extend_then_apply(
    s: Set<PayloadV>,
    a0: Set<PayloadV>,
    w0: Set<PayloadV>,
    a1: Set<PayloadV>,
    w1: Set<PayloadV>,
)
    requires
        a0.disjoint(w0),
        a1.disjoint(w1),
        applies(a0, w0, s),
        applies(a1, w1, applied(a0, w0, s)),
    ensures
        chains(a0, w0, a1, w1),
        applies(
            chained_announced(a0, w0, a1, w1),
            chained_withdrawn(a0, w0, a1, w1),
            s,
        ),
        applied(chained_announced(a0, w0, a1, w1), chained_withdrawn(a0, w0, a1, w1), s)
            == applied(a1, w1, applied(a0, w0, s)),
{
    let s1 = applied(a0, w0, s);
    let ca = chained_announced(a0, w0, a1, w1);
    let cw = chained_withdrawn(a0, w0, a1, w1);
    assert forall|x: PayloadV| a1.contains(x) implies !a0.contains(x) by {
        if a0.contains(x) {
            assert(s1.contains(x));
        }
    }
    assert forall|x: PayloadV| w1.contains(x) implies !w0.contains(x) by {
        assert(s1.union(a1).contains(x));
    }
    assert forall|x: PayloadV| ca.contains(x) implies !s.contains(x) by {
        if a1.contains(x) && !w0.contains(x) && s.contains(x) {
            assert(s1.contains(x));
        }
    }
    assert forall|x: PayloadV| cw.contains(x) implies s.union(ca).contains(x) by {
        if w1.contains(x) && !a0.contains(x) {
            assert(s1.union(a1).contains(x));
        }
    }
    assert(applied(ca, cw, s) =~= applied(a1, w1, s1));
}

/// What applying a diff does to each value: what the diff announces is in
/// the result, what it withdraws is not, and any other value is in the
/// result if it was in the set.
pub proof fn law_applied_content(a: Set<PayloadV>, w: Set<PayloadV>, s: Set<PayloadV>, x: PayloadV)
    requires
        a.disjoint(w),
    ensures
        a.contains(x) ==> applied(a, w, s).contains(x),
        w.contains(x) ==> !applied(a, w, s).contains(x),
        !a.contains(x) && !w.contains(x) ==> (applied(a, w, s).contains(x) == s.contains(x)),
{
}

} // verus!
