//! Spreading layer downloads over a fixed number of queues, splitting the large layers.
use std::collections::VecDeque;

use vstd::multiset::Multiset;
use vstd::prelude::*;

use crate::image_ref::ImageReference;
use crate::types::Descriptor;

verus! {

/// A whole layer to download: bytes `start..end` of the blob `digest`.
#[derive(Debug)]
pub struct DownloadedInfo {
    pub start: u64,
    pub end: u64,
    pub size: u64,
    pub registry: String,
    pub repository: String,
    pub digest: String,
}

/// One half of a split layer: bytes `start..end` of the blob `digest`.
#[derive(Debug)]
pub struct SplitDownloadedInfo {
    pub start: u64,
    pub end: u64,
    pub size: u64,
    pub registry: String,
    pub repository: String,
    pub digest: String,
}

/// An entry of a download queue.
#[derive(Debug)]
pub enum QueueItem {
    Whole(DownloadedInfo),
    Split(SplitDownloadedInfo),
    Descriptor(Descriptor),
}

/// The number of bytes an entry stands for: its byte range, or a descriptor's size.
pub open spec fn item_size(it: QueueItem) -> int {
    match it {
        QueueItem::Whole(d) => d.end - d.start,
        QueueItem::Split(d) => d.end - d.start,
        QueueItem::Descriptor(d) => d.size as int,
    }
}

/// A byte range does not end before it starts.
pub open spec fn item_ok(it: QueueItem) -> bool {
    match it {
        QueueItem::Whole(d) => d.start <= d.end,
        QueueItem::Split(d) => d.start <= d.end,
        QueueItem::Descriptor(_) => true,
    }
}

impl QueueItem {
    /// The number of bytes this entry stands for.
    pub fn size(&self) -> (res: u64)
        requires
            item_ok(*self),
        ensures
            res == item_size(*self),
    {
        match self {
            QueueItem::Whole(d) => d.end - d.start,
            QueueItem::Split(d) => d.end - d.start,
            QueueItem::Descriptor(d) => d.size,
        }
    }
}

/// The bytes a queue stands for.
pub open spec fn items_total(s: Seq<QueueItem>) -> int
    decreases s.len(),
{
    if s.len() == 0 {
        0
    } else {
        items_total(s.drop_last()) + item_size(s.last())
    }
}

/// The bytes all queues stand for.
pub open spec fn queues_total(qs: Seq<Seq<QueueItem>>) -> int
    decreases qs.len(),
{
    if qs.len() == 0 {
        0
    } else {
        queues_total(qs.drop_last()) + items_total(qs.last())
    }
}

/// The queues as sequences of entries.
pub open spec fn queue_items(q: Seq<VecDeque<QueueItem>>) -> Seq<Seq<QueueItem>> {
    Seq::new(q.len(), |i: int| q[i]@)
}

/// Every entry is a proper range, and each queue stands for at most `u64::MAX` bytes.
pub open spec fn queues_fit(qs: Seq<Seq<QueueItem>>) -> bool {
    &&& forall|i: int, k: int|
        0 <= i < qs.len() && 0 <= k < qs[i].len() ==> item_ok(#[trigger] qs[i][k])
    &&& forall|i: int| 0 <= i < qs.len() ==> items_total(#[trigger] qs[i]) <= u64::MAX
}

/// `i` is the first of the queues with the smallest total.
pub open spec fn is_min_queue(qs: Seq<Seq<QueueItem>>, i: int) -> bool {
    &&& 0 <= i < qs.len()
    &&& forall|j: int| 0 <= j < qs.len() ==> items_total(qs[i]) <= items_total(#[trigger] qs[j])
    &&& forall|j: int| 0 <= j < i ==> items_total(qs[i]) < items_total(#[trigger] qs[j])
}

/// The first of the queues with the smallest total (for a nonempty list of queues).
pub open spec fn min_queue(qs: Seq<Seq<QueueItem>>) -> int {
    choose|i: int| is_min_queue(qs, i)
}

/// A first queue of smallest total is the one `min_queue` names.
pub proof fn lemma_min_queue_is(qs: Seq<Seq<QueueItem>>, i: int)
    requires
        is_min_queue(qs, i),
    ensures
        min_queue(qs) == i,
{
    let k = min_queue(qs);
    assert(is_min_queue(qs, k));
    if k < i {
        assert(items_total(qs[i]) < items_total(qs[k]));
    } else if i < k {
        assert(items_total(qs[k]) < items_total(qs[i]));
    }
}

proof fn lemma_items_total_prefix(s: Seq<QueueItem>, k: int)
    requires
        0 <= k <= s.len(),
        forall|j: int| 0 <= j < s.len() ==> item_ok(#[trigger] s[j]),
    ensures
        0 <= items_total(s.take(k)) <= items_total(s),
    decreases s.len(),
{
    if s.len() > 0 {
        assert(item_ok(s[s.len() - 1]));
        if k == s.len() {
            assert(s.take(k) =~= s);
            lemma_items_total_prefix(s.drop_last(), k - 1);
            assert(s.drop_last().take(k - 1) =~= s.take(k - 1));
            assert(s.drop_last().take(k - 1) =~= s.drop_last());
        } else {
            lemma_items_total_prefix(s.drop_last(), k);
            assert(s.drop_last().take(k) =~= s.take(k));
        }
    }
}

/// Adding an entry to one queue adds its size to the total of all queues.
pub proof fn lemma_queues_total_push(qs: Seq<Seq<QueueItem>>, i: int, it: QueueItem)
    requires
        0 <= i < qs.len(),
    ensures
        queues_total(qs.update(i, qs[i].push(it))) == queues_total(qs) + item_size(it),
    decreases qs.len(),
{
    let u = qs.update(i, qs[i].push(it));
    assert(qs[i].push(it).drop_last() =~= qs[i]);
    if i == qs.len() - 1 {
        assert(u.drop_last() =~= qs.drop_last());
    } else {
        lemma_queues_total_push(qs.drop_last(), i, it);
        assert(u.drop_last() =~= qs.drop_last().update(i, qs[i].push(it)));
    }
}

/// The two halves of a layer: bytes `0..size/2` and `size/2..size`. As in the recorded
/// size field of each half, `size` is `start + end`.
pub open spec fn spec_split_halves(image: ImageReference, layer: Descriptor) -> (
    SplitDownloadedInfo,
    SplitDownloadedInfo,
) {
    let half = (layer.size / 2) as u64;
    (
        SplitDownloadedInfo {
            start: 0,
            end: half,
            size: half,
            registry: image.registry,
            repository: image.repository,
            digest: layer.digest,
        },
        SplitDownloadedInfo {
            start: half,
            end: layer.size,
            size: (half + layer.size) as u64,
            registry: image.registry,
            repository: image.repository,
            digest: layer.digest,
        },
    )
}

/// A layer downloaded in one piece: bytes `0..size`.
pub open spec fn spec_whole(image: ImageReference, layer: Descriptor) -> DownloadedInfo {
    DownloadedInfo {
        start: 0,
        end: layer.size,
        size: layer.size,
        registry: image.registry,
        repository: image.repository,
        digest: layer.digest,
    }
}

/// Adds an entry to the first queue with the smallest total.
pub open spec fn spec_place(qs: Seq<Seq<QueueItem>>, it: QueueItem) -> Seq<Seq<QueueItem>> {
    let i = min_queue(qs);
    qs.update(i, qs[i].push(it))
}

/// Schedules one layer: split in halves, each placed in turn, or placed whole.
pub open spec fn spec_schedule_layer(
    qs: Seq<Seq<QueueItem>>,
    image: ImageReference,
    layer: Descriptor,
    split: bool,
) -> Seq<Seq<QueueItem>> {
    if split {
        let (l1, l2) = spec_split_halves(image, layer);
        spec_place(spec_place(qs, QueueItem::Split(l1)), QueueItem::Split(l2))
    } else {
        spec_place(qs, QueueItem::Whole(spec_whole(image, layer)))
    }
}

/// Schedules layers in order.
pub open spec fn spec_schedule_all(
    qs: Seq<Seq<QueueItem>>,
    image: ImageReference,
    layers: Seq<(Descriptor, bool)>,
) -> Seq<Seq<QueueItem>>
    decreases layers.len(),
{
    if layers.len() == 0 {
        qs
    } else {
        let prev = spec_schedule_all(qs, image, layers.drop_last());
        spec_schedule_layer(prev, image, layers.last().0, layers.last().1)
    }
}

/// Inserts a layer into a list sorted by size, after every layer of at most its size.
pub open spec fn insert_by_size(s: Seq<(Descriptor, bool)>, x: (Descriptor, bool)) -> Seq<
    (Descriptor, bool),
>
    decreases s.len(),
{
    if s.len() == 0 {
        seq![x]
    } else if s.last().0.size > x.0.size {
        insert_by_size(s.drop_last(), x).push(s.last())
    } else {
        s.push(x)
    }
}

/// Layers sorted by size, layers of equal size keeping their order (a stable sort).
pub open spec fn sort_by_size(s: Seq<(Descriptor, bool)>) -> Seq<(Descriptor, bool)>
    decreases s.len(),
{
    if s.len() == 0 {
        s
    } else {
        insert_by_size(sort_by_size(s.drop_last()), s.last())
    }
}

pub open spec fn sorted_by_size(s: Seq<(Descriptor, bool)>) -> bool {
    forall|i: int, j: int| 0 <= i <= j < s.len() ==> s[i].0.size <= s[j].0.size
}

/// Inserting before the first of the trailing layers that are larger.
proof fn lemma_insert_by_size_at(s: Seq<(Descriptor, bool)>, x: (Descriptor, bool), p: int)
    requires
        0 <= p <= s.len(),
        forall|k: int| p <= k < s.len() ==> s[k].0.size > x.0.size,
        p > 0 ==> s[p - 1].0.size <= x.0.size,
    ensures
        insert_by_size(s, x) == s.insert(p, x),
    decreases s.len(),
{
    if s.len() == 0 {
        assert(s.insert(p, x) =~= seq![x]);
    } else if p == s.len() {
        assert(s.insert(p, x) =~= s.push(x));
    } else {
        lemma_insert_by_size_at(s.drop_last(), x, p);
        assert(s.insert(p, x) =~= s.drop_last().insert(p, x).push(s.last()));
    }
}

proof fn lemma_insert_position(s: Seq<(Descriptor, bool)>, x: (Descriptor, bool)) -> (p: int)
    requires
        sorted_by_size(s),
    ensures
        0 <= p <= s.len(),
        forall|k: int| p <= k < s.len() ==> s[k].0.size > x.0.size,
        forall|k: int| 0 <= k < p ==> s[k].0.size <= x.0.size,
    decreases s.len(),
{
    if s.len() == 0 {
        0
    } else if s.last().0.size > x.0.size {
        let d = s.drop_last();
        assert(sorted_by_size(d)) by {
            assert forall|i: int, j: int| 0 <= i <= j < d.len() implies d[i].0.size <= d[j].0.size by {
                assert(d[i] == s[i] && d[j] == s[j]);
            }
        }
        let p = lemma_insert_position(d, x);
        assert forall|k: int| p <= k < s.len() implies s[k].0.size > x.0.size by {
            if k < s.len() - 1 {
                assert(d[k] == s[k]);
            }
        }
        assert forall|k: int| 0 <= k < p implies s[k].0.size <= x.0.size by {
            assert(d[k] == s[k]);
        }
        p
    } else {
        assert forall|k: int| 0 <= k < s.len() implies s[k].0.size <= x.0.size by {
            assert(s[k].0.size <= s[s.len() - 1].0.size);
        }
        s.len() as int
    }
}

/// Inserting keeps a list sorted by size and adds exactly the one layer.
pub proof fn lemma_insert_by_size(s: Seq<(Descriptor, bool)>, x: (Descriptor, bool))
    requires
        sorted_by_size(s),
    ensures
        sorted_by_size(insert_by_size(s, x)),
        insert_by_size(s, x).to_multiset() == s.to_multiset().insert(x),
{
    broadcast use vstd::seq_lib::group_to_multiset_ensures;

    let p = lemma_insert_position(s, x);
    if p > 0 {
        assert(s[p - 1].0.size <= x.0.size);
    }
    lemma_insert_by_size_at(s, x, p);
    let t = s.insert(p, x);
    assert(t.remove(p) =~= s);
    assert(t[p] == x);
    assert(t.to_multiset().remove(x) =~= s.to_multiset());
    assert(t.to_multiset().contains(x)) by {
        assert(t.contains(x));
    }
    assert(t.to_multiset() =~= s.to_multiset().insert(x));
}

/// Sorting yields a list sorted by size holding the same layers.
pub proof fn lemma_sort_by_size(s: Seq<(Descriptor, bool)>)
    ensures
        sorted_by_size(sort_by_size(s)),
        sort_by_size(s).to_multiset() == s.to_multiset(),
    decreases s.len(),
{
    broadcast use vstd::seq_lib::group_to_multiset_ensures;

    if s.len() > 0 {
        lemma_sort_by_size(s.drop_last());
        lemma_insert_by_size(sort_by_size(s.drop_last()), s.last());
        assert(s =~= s.drop_last().push(s.last()));
    } else {
        assert(s.to_multiset() =~= vstd::multiset::Multiset::empty());
    }
}

/// The layers of size `v`, in their order.
pub open spec fn of_size(s: Seq<(Descriptor, bool)>, v: u64) -> Seq<(Descriptor, bool)>
    decreases s.len(),
{
    if s.len() == 0 {
        s
    } else if s.last().0.size == v {
        of_size(s.drop_last(), v).push(s.last())
    } else {
        of_size(s.drop_last(), v)
    }
}

proof fn lemma_of_size_push(s: Seq<(Descriptor, bool)>, x: (Descriptor, bool), v: u64)
    ensures
        of_size(s.push(x), v) == (if x.0.size == v {
            of_size(s, v).push(x)
        } else {
            of_size(s, v)
        }),
{
    assert(s.push(x).drop_last() =~= s);
}

proof fn lemma_of_size_insert(s: Seq<(Descriptor, bool)>, x: (Descriptor, bool), v: u64)
    ensures
        of_size(insert_by_size(s, x), v) == (if x.0.size == v {
            of_size(s, v).push(x)
        } else {
            of_size(s, v)
        }),
    decreases s.len(),
{
    if s.len() == 0 {
        lemma_of_size_push(s, x, v);
        assert(s.push(x) =~= seq![x]);
    } else if s.last().0.size > x.0.size {
        let d = s.drop_last();
        lemma_of_size_insert(d, x, v);
        lemma_of_size_push(insert_by_size(d, x), s.last(), v);
        lemma_of_size_push(d, s.last(), v);
        assert(d.push(s.last()) =~= s);
    } else {
        lemma_of_size_push(s, x, v);
    }
}

/// The sort is stable: for every size, the layers of that size keep their order.
pub proof fn lemma_sort_by_size_stable(s: Seq<(Descriptor, bool)>, v: u64)
    ensures
        of_size(sort_by_size(s), v) == of_size(s, v),
    decreases s.len(),
{
    if s.len() > 0 {
        let d = s.drop_last();
        lemma_sort_by_size_stable(d, v);
        lemma_of_size_insert(sort_by_size(d), s.last(), v);
        lemma_of_size_push(d, s.last(), v);
        assert(d.push(s.last()) =~= s);
    }
}

/// Inserts a layer into a vector sorted by size, as `insert_by_size` states.
fn insert_sorted(v: &mut Vec<(Descriptor, bool)>, x: (Descriptor, bool))
    ensures
        final(v)@ == insert_by_size(old(v)@, x),
{
    let mut j: usize = v.len();
    while j > 0 && v[j - 1].0.size > x.0.size
        invariant
            j <= v.len(),
            forall|k: int| j <= k < v.len() ==> v@[k].0.size > x.0.size,
        decreases j,
    {
        j = j - 1;
    }
    proof {
        lemma_insert_by_size_at(v@, x, j as int);
    }
    v.insert(j, x);
}

/// Sorts layers by size, keeping layers of equal size in their order.
pub fn sort_layers_by_size(layers: Vec<(Descriptor, bool)>) -> (res: Vec<(Descriptor, bool)>)
    ensures
        res@ == sort_by_size(layers@),
{
    let ghost all = layers@;
    let mut rest = layers;
    let mut out: Vec<(Descriptor, bool)> = Vec::new();
    assert(all.take(0) =~= Seq::<(Descriptor, bool)>::empty());
    while rest.len() > 0
        invariant
            rest@ == all.skip(all.len() - rest@.len()),
            rest@.len() <= all.len(),
            out@ == sort_by_size(all.take(all.len() - rest@.len())),
        decreases rest.len(),
    {
        let ghost done = all.len() - rest@.len();
        let x = rest.remove(0);
        proof {
            assert(x == all[done]);
            assert(all.take(done + 1).drop_last() =~= all.take(done));
            assert(all.skip(done + 1) =~= rest@);
        }
        insert_sorted(&mut out, x);
    }
    proof {
        assert(all.take(all.len() as int) =~= all);
    }
    out
}

/// The bytes of a list of layers.
pub open spec fn layers_total(s: Seq<Descriptor>) -> int
    decreases s.len(),
{
    if s.len() == 0 {
        0
    } else {
        layers_total(s.drop_last()) + s.last().size
    }
}

proof fn lemma_layers_total_prefix(s: Seq<Descriptor>, k: int)
    requires
        0 <= k <= s.len(),
    ensures
        0 <= layers_total(s.take(k)) <= layers_total(s),
    decreases s.len(),
{
    if s.len() > 0 {
        if k == s.len() {
            assert(s.take(k) =~= s);
            lemma_layers_total_prefix(s.drop_last(), k - 1);
            assert(s.drop_last().take(k - 1) =~= s.drop_last());
        } else {
            lemma_layers_total_prefix(s.drop_last(), k);
            assert(s.drop_last().take(k) =~= s.take(k));
        }
    }
}

/// Whether the sizes of the layers add up to at most `u64::MAX`.
fn layers_sum_fits(layers: &Vec<Descriptor>) -> (res: bool)
    ensures
        res == (layers_total(layers@) <= u64::MAX),
{
    let mut sum: u64 = 0;
    let mut k: usize = 0;
    assert(layers@.take(0) =~= Seq::<Descriptor>::empty());
    while k < layers.len()
        invariant
            k <= layers@.len(),
            sum == layers_total(layers@.take(k as int)),
        decreases layers@.len() - k,
    {
        proof {
            assert(layers@.take(k + 1).drop_last() =~= layers@.take(k as int));
        }
        match sum.checked_add(layers[k].size) {
            Some(v) => {
                sum = v;
            },
            None => {
                proof {
                    lemma_layers_total_prefix(layers@, k + 1);
                }
                return false;
            },
        }
        k = k + 1;
    }
    proof {
        assert(layers@.take(layers@.len() as int) =~= layers@);
    }
    true
}

/// The bytes of a list of layers with their split flags.
pub open spec fn pairs_total(s: Seq<(Descriptor, bool)>) -> int
    decreases s.len(),
{
    if s.len() == 0 {
        0
    } else {
        pairs_total(s.drop_last()) + s.last().0.size
    }
}

/// Each layer with its flag.
pub open spec fn pair_up(layers: Seq<Descriptor>, flags: Seq<bool>) -> Seq<(Descriptor, bool)> {
    Seq::new(layers.len(), |i: int| (layers[i], flags[i]))
}

proof fn lemma_pairs_total_pair_up(layers: Seq<Descriptor>, flags: Seq<bool>)
    requires
        layers.len() == flags.len(),
    ensures
        pairs_total(pair_up(layers, flags)) == layers_total(layers),
    decreases layers.len(),
{
    if layers.len() > 0 {
        lemma_pairs_total_pair_up(layers.drop_last(), flags.drop_last());
        assert(pair_up(layers, flags).drop_last() =~= pair_up(layers.drop_last(), flags.drop_last()));
    }
}

proof fn lemma_pairs_total_insert(s: Seq<(Descriptor, bool)>, x: (Descriptor, bool))
    ensures
        pairs_total(insert_by_size(s, x)) == pairs_total(s) + x.0.size,
    decreases s.len(),
{
    if s.len() == 0 {
        assert(seq![x].drop_last() =~= Seq::<(Descriptor, bool)>::empty());
        assert(pairs_total(seq![x]) == pairs_total(seq![x].drop_last()) + x.0.size);
        assert(insert_by_size(s, x) == seq![x]);
    } else if s.last().0.size > x.0.size {
        let d = s.drop_last();
        lemma_pairs_total_insert(d, x);
        let i = insert_by_size(d, x);
        assert(insert_by_size(s, x) == i.push(s.last()));
        assert(i.push(s.last()).drop_last() =~= i);
        assert(pairs_total(i.push(s.last())) == pairs_total(i) + s.last().0.size);
    } else {
        assert(insert_by_size(s, x) == s.push(x));
        assert(s.push(x).drop_last() =~= s);
        assert(pairs_total(s.push(x)) == pairs_total(s) + x.0.size);
    }
}

proof fn lemma_pairs_total_sort(s: Seq<(Descriptor, bool)>)
    ensures
        pairs_total(sort_by_size(s)) == pairs_total(s),
    decreases s.len(),
{
    if s.len() > 0 {
        lemma_pairs_total_sort(s.drop_last());
        lemma_pairs_total_insert(sort_by_size(s.drop_last()), s.last());
    }
}

/// Scheduling keeps the number of queues, and adds to their total exactly the bytes of the
/// scheduled layers: splitting a layer loses no byte and adds none.
pub proof fn lemma_schedule_conserves_bytes(
    qs: Seq<Seq<QueueItem>>,
    image: ImageReference,
    layers: Seq<(Descriptor, bool)>,
)
    requires
        qs.len() > 0,
    ensures
        spec_schedule_all(qs, image, layers).len() == qs.len(),
        queues_total(spec_schedule_all(qs, image, layers)) == queues_total(qs) + pairs_total(
            layers,
        ),
    decreases layers.len(),
{
    if layers.len() > 0 {
        lemma_schedule_conserves_bytes(qs, image, layers.drop_last());
        let prev = spec_schedule_all(qs, image, layers.drop_last());
        let layer = layers.last().0;
        lemma_place_total(prev, QueueItem::Whole(spec_whole(image, layer)));
        let (l1, l2) = spec_split_halves(image, layer);
        lemma_place_total(prev, QueueItem::Split(l1));
        lemma_place_total(spec_place(prev, QueueItem::Split(l1)), QueueItem::Split(l2));
    }
}

/// The entries that scheduling a layer adds: its two halves, or the whole layer.
pub open spec fn pieces_of(image: ImageReference, layer: Descriptor, split: bool) -> Multiset<QueueItem> {
    if split {
        let (l1, l2) = spec_split_halves(image, layer);
        Multiset::singleton(QueueItem::Split(l1)).insert(QueueItem::Split(l2))
    } else {
        Multiset::singleton(QueueItem::Whole(spec_whole(image, layer)))
    }
}

/// The entries that scheduling the layers adds, all together.
pub open spec fn layer_pieces(image: ImageReference, layers: Seq<(Descriptor, bool)>) -> Multiset<
    QueueItem,
>
    decreases layers.len(),
{
    if layers.len() == 0 {
        Multiset::empty()
    } else {
        layer_pieces(image, layers.drop_last()).add(
            pieces_of(image, layers.last().0, layers.last().1),
        )
    }
}

/// `it` is one of the entries that scheduling the layer adds.
pub open spec fn is_piece(image: ImageReference, layer: (Descriptor, bool), it: QueueItem) -> bool {
    if layer.1 {
        it == QueueItem::Split(spec_split_halves(image, layer.0).0) || it == QueueItem::Split(
            spec_split_halves(image, layer.0).1,
        )
    } else {
        it == QueueItem::Whole(spec_whole(image, layer.0))
    }
}

/// The entry names the layer's blob at the image's registry and repository.
pub open spec fn carries_layer(image: ImageReference, layer: Descriptor, it: QueueItem) -> bool {
    match it {
        QueueItem::Whole(d) => d.digest == layer.digest && d.registry == image.registry
            && d.repository == image.repository,
        QueueItem::Split(d) => d.digest == layer.digest && d.registry == image.registry
            && d.repository == image.repository,
        QueueItem::Descriptor(_) => false,
    }
}

/// The entries of the first `n` queues of `new` beyond the length of those of `old`.
pub open spec fn added_entries(old: Seq<Seq<QueueItem>>, new: Seq<Seq<QueueItem>>, n: int) -> Multiset<
    QueueItem,
>
    decreases n,
{
    if n <= 0 {
        Multiset::empty()
    } else {
        added_entries(old, new, n - 1).add(new[n - 1].skip(old[n - 1].len() as int).to_multiset())
    }
}

proof fn lemma_added_entries_push(
    old: Seq<Seq<QueueItem>>,
    r: Seq<Seq<QueueItem>>,
    m: int,
    it: QueueItem,
    n: int,
)
    requires
        0 <= m < r.len(),
        r.len() == old.len(),
        0 <= n <= r.len(),
        old[m].len() <= r[m].len(),
    ensures
        added_entries(old, r.update(m, r[m].push(it)), n) == (if n > m {
            added_entries(old, r, n).insert(it)
        } else {
            added_entries(old, r, n)
        }),
    decreases n,
{
    broadcast use vstd::multiset::group_multiset_axioms;

    let u = r.update(m, r[m].push(it));
    if n > 0 {
        lemma_added_entries_push(old, r, m, it, n - 1);
        let k = old[n - 1].len() as int;
        if n - 1 == m {
            assert(u[m].skip(k) =~= r[m].skip(k).push(it));
            r[m].skip(k).to_multiset_ensures();
            assert(added_entries(old, u, n) =~= added_entries(old, r, n).insert(it));
        } else {
            assert(u[n - 1] == r[n - 1]);
            if n > m {
                assert(added_entries(old, u, n) =~= added_entries(old, r, n).insert(it));
            } else {
                assert(added_entries(old, u, n) =~= added_entries(old, r, n));
            }
        }
    }
}

/// Placing an entry keeps the old queues as prefixes, adds just that entry, and
/// leaves every earlier entry where it was.
proof fn lemma_place_layout(old: Seq<Seq<QueueItem>>, r: Seq<Seq<QueueItem>>, it: QueueItem)
    requires
        old.len() > 0,
        r.len() == old.len(),
        forall|i: int| 0 <= i < old.len() ==> old[i].is_prefix_of(#[trigger] r[i]),
    ensures
        spec_place(r, it).len() == old.len(),
        forall|i: int| 0 <= i < old.len() ==> old[i].is_prefix_of(#[trigger] spec_place(r, it)[i]),
        added_entries(old, spec_place(r, it), old.len() as int) == added_entries(
            old,
            r,
            old.len() as int,
        ).insert(it),
        forall|i: int, j: int|
            0 <= i < old.len() && 0 <= j < spec_place(r, it)[i].len() ==> (j < r[i].len()
                && #[trigger] spec_place(r, it)[i][j] == r[i][j]) || spec_place(r, it)[i][j]
                == it,
{
    lemma_min_queue_exists(r);
    let m = min_queue(r);
    let p = spec_place(r, it);
    assert(old[m].is_prefix_of(r[m]));
    assert forall|i: int| 0 <= i < old.len() implies old[i].is_prefix_of(#[trigger] p[i]) by {
        assert(old[i].is_prefix_of(r[i]));
        if i == m {
            assert(old[i] =~= p[i].subrange(0, old[i].len() as int)) by {
                assert(old[i] =~= r[i].subrange(0, old[i].len() as int));
            }
        }
    }
    lemma_added_entries_push(old, r, m, it, old.len() as int);
}

/// What scheduling does to the queues: their number stays; each old queue stays a prefix
/// of its new queue; the entries added are exactly the pieces of the layers, two halves
/// for a layer to split and the whole range for any other; and every added entry is a
/// piece of one of the layers, naming its blob at the image's registry and repository.
pub proof fn lemma_schedule_layout(
    qs: Seq<Seq<QueueItem>>,
    image: ImageReference,
    layers: Seq<(Descriptor, bool)>,
)
    requires
        qs.len() > 0,
    ensures
        spec_schedule_all(qs, image, layers).len() == qs.len(),
        forall|i: int|
            0 <= i < qs.len() ==> qs[i].is_prefix_of(#[trigger] spec_schedule_all(qs, image, layers)[i]),
        added_entries(qs, spec_schedule_all(qs, image, layers), qs.len() as int) == layer_pieces(
            image,
            layers,
        ),
        forall|i: int, j: int|
            0 <= i < qs.len() && qs[i].len() <= j < spec_schedule_all(qs, image, layers)[i].len()
                ==> exists|k: int|
                0 <= k < layers.len() && is_piece(
                    image,
                    layers[k],
                    #[trigger] spec_schedule_all(qs, image, layers)[i][j],
                ) && carries_layer(image, layers[k].0, spec_schedule_all(qs, image, layers)[i][j]),
    decreases layers.len(),
{
    broadcast use vstd::multiset::group_multiset_axioms;

    let n = qs.len() as int;
    let r = spec_schedule_all(qs, image, layers);
    if layers.len() == 0 {
        assert forall|i: int| 0 <= i < n implies qs[i].is_prefix_of(#[trigger] r[i]) by {
            assert(qs[i] =~= r[i].subrange(0, qs[i].len() as int));
        }
        assert forall|k: int| 0 <= k <= n implies added_entries(qs, r, k) =~= Multiset::<
            QueueItem,
        >::empty() by {
            lemma_added_entries_none(qs, k);
        }
    } else {
        let d = layers.drop_last();
        lemma_schedule_layout(qs, image, d);
        let prev = spec_schedule_all(qs, image, d);
        let last = layers.last();
        let layer = last.0;
        if last.1 {
            let (l1, l2) = spec_split_halves(image, layer);
            let p1 = spec_place(prev, QueueItem::Split(l1));
            lemma_place_layout(qs, prev, QueueItem::Split(l1));
            lemma_place_layout(qs, p1, QueueItem::Split(l2));
            assert(r == spec_place(p1, QueueItem::Split(l2)));
            assert(added_entries(qs, r, n) =~= layer_pieces(image, layers));
            assert forall|i: int, j: int| 0 <= i < n && qs[i].len() <= j < r[i].len() implies exists|
                k: int,
            |
                0 <= k < layers.len() && is_piece(image, layers[k], #[trigger] r[i][j])
                    && carries_layer(image, layers[k].0, r[i][j]) by {
                if j < p1[i].len() && r[i][j] == p1[i][j] {
                    if j < prev[i].len() && p1[i][j] == prev[i][j] {
                        let k = choose|k: int|
                            0 <= k < d.len() && is_piece(image, d[k], #[trigger] prev[i][j])
                                && carries_layer(image, d[k].0, prev[i][j]);
                        assert(layers[k] == d[k]);
                    } else {
                        assert(is_piece(image, layers[layers.len() - 1], r[i][j]));
                    }
                } else {
                    assert(is_piece(image, layers[layers.len() - 1], r[i][j]));
                }
            }
        } else {
            let w = QueueItem::Whole(spec_whole(image, layer));
            lemma_place_layout(qs, prev, w);
            assert(added_entries(qs, r, n) =~= layer_pieces(image, layers));
            assert forall|i: int, j: int| 0 <= i < n && qs[i].len() <= j < r[i].len() implies exists|
                k: int,
            |
                0 <= k < layers.len() && is_piece(image, layers[k], #[trigger] r[i][j])
                    && carries_layer(image, layers[k].0, r[i][j]) by {
                if j < prev[i].len() && r[i][j] == prev[i][j] {
                    let k = choose|k: int|
                        0 <= k < d.len() && is_piece(image, d[k], #[trigger] prev[i][j])
                            && carries_layer(image, d[k].0, prev[i][j]);
                    assert(layers[k] == d[k]);
                } else {
                    assert(is_piece(image, layers[layers.len() - 1], r[i][j]));
                }
            }
        }
    }
}

proof fn lemma_added_entries_none(qs: Seq<Seq<QueueItem>>, k: int)
    requires
        0 <= k <= qs.len(),
    ensures
        added_entries(qs, qs, k) =~= Multiset::<QueueItem>::empty(),
    decreases k,
{
    broadcast use vstd::multiset::group_multiset_axioms;

    if k > 0 {
        lemma_added_entries_none(qs, k - 1);
        let q = qs[k - 1];
        assert(q.skip(q.len() as int) =~= Seq::<QueueItem>::empty());
        assert(Seq::<QueueItem>::empty().to_multiset() =~= Multiset::<QueueItem>::empty()) by {
            Seq::<QueueItem>::empty().to_multiset_ensures();
        }
    }
}

proof fn lemma_place_total(qs: Seq<Seq<QueueItem>>, it: QueueItem)
    requires
        qs.len() > 0,
    ensures
        spec_place(qs, it).len() == qs.len(),
        queues_total(spec_place(qs, it)) == queues_total(qs) + item_size(it),
{
    lemma_min_queue_exists(qs);
    lemma_queues_total_push(qs, min_queue(qs), it);
}

/// A nonempty list of queues has a first queue of smallest total.
pub proof fn lemma_min_queue_exists(qs: Seq<Seq<QueueItem>>)
    requires
        qs.len() > 0,
    ensures
        is_min_queue(qs, min_queue(qs)),
    decreases qs.len(),
{
    if qs.len() == 1 {
        assert(is_min_queue(qs, 0));
    } else {
        let d = qs.drop_last();
        lemma_min_queue_exists(d);
        let m = min_queue(d);
        assert(d[m] == qs[m]);
        let last = qs.len() - 1;
        if items_total(qs[last]) < items_total(qs[m]) {
            assert forall|j: int| 0 <= j < qs.len() implies items_total(qs[last]) <= items_total(
                #[trigger] qs[j],
            ) by {
                if j < last {
                    assert(d[j] == qs[j]);
                }
            }
            assert forall|j: int| 0 <= j < last implies items_total(qs[last]) < items_total(
                #[trigger] qs[j],
            ) by {
                assert(d[j] == qs[j]);
            }
            assert(is_min_queue(qs, last));
        } else {
            assert forall|j: int| 0 <= j < qs.len() implies items_total(qs[m]) <= items_total(
                #[trigger] qs[j],
            ) by {
                if j < last {
                    assert(d[j] == qs[j]);
                }
            }
            assert forall|j: int| 0 <= j < m implies items_total(qs[m]) < items_total(
                #[trigger] qs[j],
            ) by {
                assert(d[j] == qs[j]);
            }
            assert(is_min_queue(qs, m));
        }
    }
}

/// Each layer with its flag, in order.
fn zip_flags(layers: Vec<Descriptor>, flags: Vec<bool>) -> (res: Vec<(Descriptor, bool)>)
    requires
        layers@.len() == flags@.len(),
    ensures
        res@ == pair_up(layers@, flags@),
{
    let ghost pairs = pair_up(layers@, flags@);
    let n = layers.len();
    let mut zipped: Vec<(Descriptor, bool)> = Vec::new();
    let mut rest = layers;
    let mut k: usize = 0;
    assert(layers@.skip(0) =~= layers@);
    while rest.len() > 0
        invariant
            pairs == pair_up(layers@, flags@),
            layers@.len() == flags@.len(),
            n == layers@.len(),
            k + rest@.len() == n,
            rest@ == layers@.skip(k as int),
            zipped@ == pairs.take(k as int),
        decreases rest.len(),
    {
        let d = rest.remove(0);
        proof {
            assert(d == layers@[k as int]);
            assert(layers@.skip(k + 1) =~= rest@);
        }
        zipped.push((d, flags[k]));
        proof {
            assert(zipped@ =~= pairs.take(k + 1));
        }
        k = k + 1;
    }
    proof {
        assert(pairs.take(k as int) =~= pairs);
    }
    zipped
}

/// Every entry of every queue is a proper range.
pub open spec fn items_ok(qs: Seq<Seq<QueueItem>>) -> bool {
    forall|i: int, k: int| 0 <= i < qs.len() && 0 <= k < qs[i].len() ==> item_ok(#[trigger] qs[i][k])
}

/// Scheduling one layer stays within `u64`: the queues fit (`queues_fit`) when the least
/// loaded queue is chosen for it; for a split layer, the size recorded for the second half,
/// `size / 2 + size`, fits, and the queues fit again when the second half's queue is chosen.
pub open spec fn layer_fits(
    qs: Seq<Seq<QueueItem>>,
    image: ImageReference,
    layer: Descriptor,
    split: bool,
) -> bool {
    &&& queues_fit(qs)
    &&& split ==> {
        &&& layer.size / 2 + layer.size <= u64::MAX
        &&& queues_fit(spec_place(qs, QueueItem::Split(spec_split_halves(image, layer).0)))
    }
}

/// Scheduling layers in order stays within `u64` at every step.
pub open spec fn schedule_fits(
    qs: Seq<Seq<QueueItem>>,
    image: ImageReference,
    layers: Seq<(Descriptor, bool)>,
) -> bool
    decreases layers.len(),
{
    if layers.len() == 0 {
        true
    } else {
        schedule_fits(qs, image, layers.drop_last()) && layer_fits(
            spec_schedule_all(qs, image, layers.drop_last()),
            image,
            layers.last().0,
            layers.last().1,
        )
    }
}

proof fn lemma_schedule_fits_prefix(
    qs: Seq<Seq<QueueItem>>,
    image: ImageReference,
    layers: Seq<(Descriptor, bool)>,
    k: int,
)
    requires
        0 < k <= layers.len(),
        schedule_fits(qs, image, layers),
    ensures
        schedule_fits(qs, image, layers.take(k)),
        layer_fits(
            spec_schedule_all(qs, image, layers.take(k - 1)),
            image,
            layers[k - 1].0,
            layers[k - 1].1,
        ),
    decreases layers.len(),
{
    if k == layers.len() {
        assert(layers.take(k) =~= layers);
        assert(layers.take(k - 1) =~= layers.drop_last());
    } else {
        let d = layers.drop_last();
        assert(d.take(k) =~= layers.take(k));
        assert(d.take(k - 1) =~= layers.take(k - 1));
        lemma_schedule_fits_prefix(qs, image, d, k);
    }
}

proof fn lemma_schedule_conserves_all(
    qs: Seq<Seq<QueueItem>>,
    image: ImageReference,
    layers: Seq<(Descriptor, bool)>,
)
    ensures
        (layers.len() > 0 ==> qs.len() > 0) ==> spec_schedule_all(qs, image, layers).len()
            == qs.len() && queues_total(spec_schedule_all(qs, image, layers)) == queues_total(qs)
            + pairs_total(layers),
{
    if layers.len() == 0 {
    } else if qs.len() > 0 {
        lemma_schedule_conserves_bytes(qs, image, layers);
    }
}

/// Placing an entry adds its size to the total of the chosen queue only, and keeps
/// every entry a proper range when the new one is.
proof fn lemma_place_totals(qs: Seq<Seq<QueueItem>>, it: QueueItem)
    requires
        qs.len() > 0,
    ensures
        0 <= min_queue(qs) < qs.len(),
        spec_place(qs, it).len() == qs.len(),
        forall|j: int|
            0 <= j < qs.len() ==> items_total(#[trigger] spec_place(qs, it)[j]) == items_total(
                qs[j],
            ) + (if j == min_queue(qs) {
                item_size(it)
            } else {
                0
            }),
        items_ok(qs) && item_ok(it) ==> items_ok(spec_place(qs, it)),
{
    lemma_min_queue_exists(qs);
    let m = min_queue(qs);
    let p = spec_place(qs, it);
    assert(qs[m].push(it).drop_last() =~= qs[m]);
    if items_ok(qs) && item_ok(it) {
        assert forall|i: int, k: int| 0 <= i < p.len() && 0 <= k < p[i].len() implies item_ok(
            #[trigger] p[i][k],
        ) by {
            if i != m || k < qs[i].len() {
                assert(p[i][k] == qs[i][k]);
            }
        }
    }
}

/// Whether an entry is a proper range.
fn item_is_ok(it: &QueueItem) -> (res: bool)
    ensures
        res == item_ok(*it),
{
    match it {
        QueueItem::Whole(d) => d.start <= d.end,
        QueueItem::Split(d) => d.start <= d.end,
        QueueItem::Descriptor(_) => true,
    }
}

/// The bytes of a queue, when its entries are proper ranges and their sum fits in `u64`.
fn checked_queue_total(q: &VecDeque<QueueItem>) -> (res: Option<u64>)
    ensures
        match res {
            Some(t) => (forall|k: int| 0 <= k < q@.len() ==> item_ok(#[trigger] q@[k])) && t
                == items_total(q@),
            None => !((forall|k: int| 0 <= k < q@.len() ==> item_ok(#[trigger] q@[k]))
                && items_total(q@) <= u64::MAX),
        },
{
    let mut sum: u64 = 0;
    let mut k: usize = 0;
    assert(q@.take(0) =~= Seq::<QueueItem>::empty());
    while k < q.len()
        invariant
            k <= q@.len(),
            forall|j: int| 0 <= j < k ==> item_ok(#[trigger] q@[j]),
            sum == items_total(q@.take(k as int)),
        decreases q@.len() - k,
    {
        if !item_is_ok(&q[k]) {
            return None;
        }
        proof {
            assert(q@.take(k + 1).drop_last() =~= q@.take(k as int));
        }
        match sum.checked_add(q[k].size()) {
            Some(v) => {
                sum = v;
            },
            None => {
                proof {
                    if forall|j: int| 0 <= j < q@.len() ==> item_ok(#[trigger] q@[j]) {
                        lemma_items_total_prefix(q@, k + 1);
                    }
                }
                return None;
            },
        }
        k = k + 1;
    }
    proof {
        assert(q@.take(q@.len() as int) =~= q@);
    }
    Some(sum)
}

/// Whether every total is at most `u64::MAX`.
fn all_within(totals: &Vec<u128>) -> (res: bool)
    ensures
        res == forall|j: int| 0 <= j < totals@.len() ==> totals@[j] <= u64::MAX,
{
    let mut i: usize = 0;
    while i < totals.len()
        invariant
            i <= totals@.len(),
            forall|j: int| 0 <= j < i ==> totals@[j] <= u64::MAX,
        decreases totals@.len() - i,
    {
        if totals[i] > u64::MAX as u128 {
            return false;
        }
        i = i + 1;
    }
    true
}

/// The first position of the smallest total.
fn first_min(totals: &Vec<u128>) -> (m: usize)
    requires
        totals@.len() > 0,
    ensures
        m < totals@.len(),
        forall|j: int| 0 <= j < totals@.len() ==> totals@[m as int] <= totals@[j],
        forall|j: int| 0 <= j < m ==> totals@[m as int] < totals@[j],
{
    let mut m: usize = 0;
    let mut i: usize = 1;
    while i < totals.len()
        invariant
            1 <= i <= totals@.len(),
            m < i,
            forall|j: int| 0 <= j < i ==> totals@[m as int] <= totals@[j],
            forall|j: int| 0 <= j < m ==> totals@[m as int] < totals@[j],
        decreases totals@.len() - i,
    {
        if totals[i] < totals[m] {
            m = i;
        }
        i = i + 1;
    }
    m
}

/// Queues of entries to download.
pub struct DownloadScheduler {
    pub queue: Vec<VecDeque<QueueItem>>,
}

/// The bytes a queue stands for.
fn queue_total(q: &VecDeque<QueueItem>) -> (res: u64)
    requires
        forall|k: int| 0 <= k < q@.len() ==> item_ok(#[trigger] q@[k]),
        items_total(q@) <= u64::MAX,
    ensures
        res == items_total(q@),
{
    let mut sum: u64 = 0;
    let mut k: usize = 0;
    assert(q@.take(0) =~= Seq::<QueueItem>::empty());
    while k < q.len()
        invariant
            k <= q@.len(),
            forall|j: int| 0 <= j < q@.len() ==> item_ok(#[trigger] q@[j]),
            items_total(q@) <= u64::MAX,
            sum == items_total(q@.take(k as int)),
        decreases q@.len() - k,
    {
        proof {
            lemma_items_total_prefix(q@, k + 1);
            assert(q@.take(k + 1).drop_last() =~= q@.take(k as int));
        }
        sum = sum + q[k].size();
        k = k + 1;
    }
    proof {
        assert(q@.take(q@.len() as int) =~= q@);
    }
    sum
}

impl DownloadScheduler {
    /// A scheduler with `k` empty queues.
    pub fn new(k: usize) -> (res: DownloadScheduler)
        ensures
            res.queue@.len() == k,
            forall|i: int| 0 <= i < k ==> (#[trigger] res.queue@[i])@.len() == 0,
    {
        let mut queue: Vec<VecDeque<QueueItem>> = Vec::new();
        let mut i: usize = 0;
        while i < k
            invariant
                i <= k,
                queue@.len() == i,
                forall|j: int| 0 <= j < i ==> (#[trigger] queue@[j])@.len() == 0,
            decreases k - i,
        {
            queue.push(VecDeque::new());
            i = i + 1;
        }
        DownloadScheduler { queue }
    }

    /// The first queue with the smallest total, if there is a queue.
    pub fn get_min_size_queue_index(&self) -> (res: Option<usize>)
        requires
            queues_fit(queue_items(self.queue@)),
        ensures
            match res {
                Some(i) => is_min_queue(queue_items(self.queue@), i as int),
                None => self.queue@.len() == 0,
            },
    {
        let ghost qs = queue_items(self.queue@);
        let n = self.queue.len();
        if n == 0 {
            return None;
        }
        proof {
            lemma_items_total_prefix(qs[0], 0);
            assert(qs[0].take(0) =~= Seq::<QueueItem>::empty());
        }
        let mut best: usize = 0;
        let mut best_total: u64 = queue_total(&self.queue[0]);
        let mut i: usize = 1;
        while i < n
            invariant
                n == qs.len(),
                qs == queue_items(self.queue@),
                queues_fit(qs),
                1 <= i <= n,
                best < i,
                best_total == items_total(qs[best as int]),
                forall|j: int| 0 <= j < i ==> best_total <= items_total(#[trigger] qs[j]),
                forall|j: int| 0 <= j < best ==> best_total < items_total(#[trigger] qs[j]),
            decreases n - i,
        {
            proof {
                assert(qs[i as int] == self.queue@[i as int]@);
                assert forall|k: int| 0 <= k < qs[i as int].len() implies item_ok(
                    #[trigger] qs[i as int][k],
                ) by {
                    assert(item_ok(qs[i as int][k]));
                }
                lemma_items_total_prefix(qs[i as int], 0);
                assert(qs[i as int].take(0) =~= Seq::<QueueItem>::empty());
            }
            let t = queue_total(&self.queue[i]);
            if t < best_total {
                best = i;
                best_total = t;
            }
            i = i + 1;
        }
        Some(best)
    }

    /// The same choice as [`DownloadScheduler::get_min_size_queue_index`].
    pub fn _get_min_size_queue_index(&self) -> (res: Option<usize>)
        requires
            queues_fit(queue_items(self.queue@)),
        ensures
            match res {
                Some(i) => is_min_queue(queue_items(self.queue@), i as int),
                None => self.queue@.len() == 0,
            },
    {
        self.get_min_size_queue_index()
    }

    /// The two halves of a layer to download.
    pub fn splite_layer(&self, image: &ImageReference, layer: &Descriptor) -> (res: (
        SplitDownloadedInfo,
        SplitDownloadedInfo,
    ))
        requires
            layer.size / 2 + layer.size <= u64::MAX,
        ensures
            res == spec_split_halves(*image, *layer),
    {
        let start1: u64 = 0;
        let end1: u64 = layer.size / 2;
        let start2: u64 = end1;
        let end2: u64 = layer.size;
        let l1 = SplitDownloadedInfo {
            start: start1,
            end: end1,
            size: start1 + end1,
            registry: image.registry.clone(),
            repository: image.repository.clone(),
            digest: layer.digest.clone(),
        };
        let l2 = SplitDownloadedInfo {
            start: start2,
            end: end2,
            size: start2 + end2,
            registry: image.registry.clone(),
            repository: image.repository.clone(),
            digest: layer.digest.clone(),
        };
        (l1, l2)
    }

    /// Adds an entry to the first queue with the smallest total.
    fn place(&mut self, item: QueueItem)
        requires
            old(self).queue@.len() > 0,
            queues_fit(queue_items(old(self).queue@)),
        ensures
            queue_items(final(self).queue@) == spec_place(queue_items(old(self).queue@), item),
            final(self).queue@.len() == old(self).queue@.len(),
    {
        let ghost qs = queue_items(self.queue@);
        let i = self.get_min_size_queue_index().unwrap();
        proof {
            lemma_min_queue_is(qs, i as int);
        }
        let mut q = self.queue.remove(i);
        q.push_back(item);
        self.queue.insert(i, q);
        proof {
            let nq = queue_items(self.queue@);
            assert(nq =~= qs.update(i as int, qs[i as int].push(item)));
        }
    }

    /// Whether layers in schedule order can be placed within `u64`, as `schedule_fits` says.
    fn fits_sorted(&self, sorted: &Vec<(Descriptor, bool)>, image: &ImageReference) -> (ok: bool)
        ensures
            ok == ((sorted@.len() > 0 ==> self.queue@.len() > 0) && schedule_fits(
                queue_items(self.queue@),
                *image,
                sorted@,
            )),
    {
        let ghost qs0 = queue_items(self.queue@);
        let ghost order = sorted@;
        if sorted.len() == 0 {
            return true;
        }
        let n = self.queue.len();
        if n == 0 {
            return false;
        }
        proof {
            assert(order.take(1).drop_last() =~= order.take(0));
            assert(order.take(0) =~= Seq::<(Descriptor, bool)>::empty());
        }
        let mut totals: Vec<u128> = Vec::new();
        let mut i: usize = 0;
        while i < n
            invariant
                order == sorted@,
                order.len() > 0,
                n == qs0.len(),
                qs0 == queue_items(self.queue@),
                totals@.len() == i,
                i <= n,
                forall|j: int| 0 <= j < i ==> totals@[j] == items_total(#[trigger] qs0[j]),
                forall|j: int| 0 <= j < i ==> #[trigger] totals@[j] <= u64::MAX,
                forall|j: int, k: int|
                    0 <= j < i && 0 <= k < qs0[j].len() ==> item_ok(#[trigger] qs0[j][k]),
            decreases n - i,
        {
            proof {
                assert(qs0[i as int] == self.queue@[i as int]@);
            }
            match checked_queue_total(&self.queue[i]) {
                Some(t) => {
                    totals.push(t as u128);
                },
                None => {
                    proof {
                        assert(!queues_fit(qs0));
                        if schedule_fits(qs0, *image, order) {
                            lemma_schedule_fits_prefix(qs0, *image, order, 1);
                            assert(order.take(0) =~= Seq::<(Descriptor, bool)>::empty());
                            assert(spec_schedule_all(qs0, *image, order.take(0)) == qs0);
                            assert(false);
                        }
                    }
                    return false;
                },
            }
            i = i + 1;
        }
        let mut k: usize = 0;
        assert(spec_schedule_all(qs0, *image, order.take(0)) == qs0);
        while k < sorted.len()
            invariant
                order == sorted@,
                qs0 == queue_items(self.queue@),
                n == qs0.len(),
                n > 0,
                k <= order.len(),
                totals@.len() == n,
                spec_schedule_all(qs0, *image, order.take(k as int)).len() == n,
                forall|j: int|
                    0 <= j < n ==> #[trigger] totals@[j] == items_total(
                        spec_schedule_all(qs0, *image, order.take(k as int))[j],
                    ),
                forall|j: int| 0 <= j < n ==> #[trigger] totals@[j] <= 2 * u64::MAX,
                items_ok(spec_schedule_all(qs0, *image, order.take(k as int))),
                schedule_fits(qs0, *image, order.take(k as int)),
            decreases order.len() - k,
        {
            let ghost st = spec_schedule_all(qs0, *image, order.take(k as int));
            let ghost layer = order[k as int].0;
            let ghost split = order[k as int].1;
            proof {
                assert(order.take(k + 1).drop_last() =~= order.take(k as int));
                assert(order.take(k + 1).last() == order[k as int]);
                assert(spec_schedule_all(qs0, *image, order.take(k + 1)) == spec_schedule_layer(
                    st,
                    *image,
                    layer,
                    split,
                ));
                assert(schedule_fits(qs0, *image, order.take(k + 1)) == (schedule_fits(
                    qs0,
                    *image,
                    order.take(k as int),
                ) && layer_fits(st, *image, layer, split)));
                if schedule_fits(qs0, *image, order) {
                    lemma_schedule_fits_prefix(qs0, *image, order, k + 1);
                }
            }
            if !all_within(&totals) {
                proof {
                    let j = choose|j: int| 0 <= j < totals@.len() && !(totals@[j] <= u64::MAX);
                    assert(items_total(st[j]) > u64::MAX);
                    assert(!queues_fit(st));
                    if schedule_fits(qs0, *image, order) {
                        lemma_schedule_fits_prefix(qs0, *image, order, k + 1);
                        assert(order.take(k + 1 - 1) =~= order.take(k as int));
                        assert(layer_fits(st, *image, layer, split));
                        assert(false);
                    }
                }
                return false;
            }
            proof {
                assert(queues_fit(st)) by {
                    assert forall|j: int| 0 <= j < st.len() implies items_total(#[trigger] st[j])
                        <= u64::MAX by {
                        assert(totals@[j] <= u64::MAX);
                    }
                }
            }
            let m = first_min(&totals);
            proof {
                assert(is_min_queue(st, m as int)) by {
                    assert forall|j: int| 0 <= j < st.len() implies items_total(st[m as int])
                        <= items_total(#[trigger] st[j]) by {
                        assert(totals@[j] == items_total(st[j]));
                    }
                    assert forall|j: int| 0 <= j < m implies items_total(st[m as int])
                        < items_total(#[trigger] st[j]) by {
                        assert(totals@[j] == items_total(st[j]));
                    }
                }
                lemma_min_queue_is(st, m as int);
            }
            let size = sorted[k].0.size;
            if sorted[k].1 {
                if size / 2 > u64::MAX - size {
                    proof {
                        if schedule_fits(qs0, *image, order) {
                            lemma_schedule_fits_prefix(qs0, *image, order, k + 1);
                            assert(order.take(k + 1 - 1) =~= order.take(k as int));
                            assert(layer_fits(st, *image, layer, split));
                            assert(false);
                        }
                    }
                    return false;
                }
                let half = size / 2;
                let ghost l1 = QueueItem::Split(spec_split_halves(*image, layer).0);
                let ghost l2 = QueueItem::Split(spec_split_halves(*image, layer).1);
                let ghost st1 = spec_place(st, l1);
                proof {
                    lemma_place_totals(st, l1);
                }
                let t = totals[m] + half as u128;
                totals.set(m, t);
                proof {
                    assert forall|j: int| 0 <= j < n implies #[trigger] totals@[j] == items_total(
                        st1[j],
                    ) by {}
                }
                if !all_within(&totals) {
                    proof {
                        let j = choose|j: int| 0 <= j < totals@.len() && !(totals@[j] <= u64::MAX);
                        assert(items_total(st1[j]) > u64::MAX);
                        assert(!queues_fit(st1));
                        if schedule_fits(qs0, *image, order) {
                            lemma_schedule_fits_prefix(qs0, *image, order, k + 1);
                            assert(order.take(k + 1 - 1) =~= order.take(k as int));
                            assert(layer_fits(st, *image, layer, split));
                            assert(false);
                        }
                    }
                    return false;
                }
                let m2 = first_min(&totals);
                proof {
                    assert(is_min_queue(st1, m2 as int)) by {
                        assert forall|j: int| 0 <= j < st1.len() implies items_total(
                            st1[m2 as int],
                        ) <= items_total(#[trigger] st1[j]) by {
                            assert(totals@[j] == items_total(st1[j]));
                        }
                        assert forall|j: int| 0 <= j < m2 implies items_total(st1[m2 as int])
                            < items_total(#[trigger] st1[j]) by {
                            assert(totals@[j] == items_total(st1[j]));
                        }
                    }
                    lemma_min_queue_is(st1, m2 as int);
                    lemma_place_totals(st1, l2);
                    assert(queues_fit(st1)) by {
                        assert forall|j: int| 0 <= j < st1.len() implies items_total(
                            #[trigger] st1[j],
                        ) <= u64::MAX by {
                            assert(totals@[j] == items_total(st1[j]));
                        }
                    }
                }
                let t2 = totals[m2] + (size - half) as u128;
                totals.set(m2, t2);
            } else {
                let ghost w = QueueItem::Whole(spec_whole(*image, layer));
                proof {
                    lemma_place_totals(st, w);
                }
                let t = totals[m] + size as u128;
                totals.set(m, t);
            }
            k = k + 1;
        }
        proof {
            assert(order.take(order.len() as int) =~= order);
        }
        true
    }

    /// Schedules one layer: split in halves, each put on the then least loaded queue,
    /// or put whole on the least loaded queue.
    fn schedule_one(&mut self, layer: Descriptor, split: bool, image: &ImageReference)
        requires
            old(self).queue@.len() > 0,
            layer_fits(queue_items(old(self).queue@), *image, layer, split),
        ensures
            queue_items(final(self).queue@) == spec_schedule_layer(
                queue_items(old(self).queue@),
                *image,
                layer,
                split,
            ),
            final(self).queue@.len() == old(self).queue@.len(),
    {
        if split {
            let (l1, l2) = self.splite_layer(image, &layer);
            self.place(QueueItem::Split(l1));
            self.place(QueueItem::Split(l2));
        } else {
            let whole = DownloadedInfo {
                start: 0,
                end: layer.size,
                size: layer.size,
                registry: image.registry.clone(),
                repository: image.repository.clone(),
                digest: layer.digest.clone(),
            };
            self.place(QueueItem::Whole(whole));
        }
    }

    /// Places layers already in schedule order.
    fn place_sorted(&mut self, sorted: Vec<(Descriptor, bool)>, image: &ImageReference)
        requires
            sorted@.len() > 0 ==> old(self).queue@.len() > 0,
            schedule_fits(queue_items(old(self).queue@), *image, sorted@),
        ensures
            queue_items(final(self).queue@) == spec_schedule_all(
                queue_items(old(self).queue@),
                *image,
                sorted@,
            ),
            final(self).queue@.len() == old(self).queue@.len(),
    {
        let ghost qs0 = queue_items(self.queue@);
        let ghost order = sorted@;
        let total = sorted.len();
        let mut todo = sorted;
        let mut done: usize = 0;
        assert(order.take(0) =~= Seq::<(Descriptor, bool)>::empty());
        assert(order.skip(0) =~= order);
        while todo.len() > 0
            invariant
                total == order.len(),
                done + todo@.len() == total,
                todo@ == order.skip(done as int),
                total > 0 ==> qs0.len() > 0,
                schedule_fits(qs0, *image, order),
                queue_items(self.queue@) == spec_schedule_all(qs0, *image, order.take(done as int)),
                self.queue@.len() == qs0.len(),
            decreases todo.len(),
        {
            let (layer, split) = todo.remove(0);
            proof {
                assert((layer, split) == order[done as int]);
                assert(order.skip(done + 1) =~= todo@);
                assert(order.take(done + 1).drop_last() =~= order.take(done as int));
                lemma_schedule_fits_prefix(qs0, *image, order, done + 1);
            }
            self.schedule_one(layer, split, image);
            done = done + 1;
        }
        proof {
            assert(order.take(order.len() as int) =~= order);
        }
    }

    /// Spreads layers over the queues, smallest layers first: a layer flagged in
    /// `above_mean` is split in two halves, each put on the then least loaded queue;
    /// any other layer goes whole onto the least loaded queue.
    ///
    /// `above_mean[k]` tells whether layer `k` is larger than the mean layer size.
    /// The layer sizes must add up within `u64`, there must be a queue when there is a
    /// layer, each queue's total must fit in `u64` whenever a least loaded queue is
    /// chosen, and so must the recorded size of a second half (`schedule_fits`).
    /// Without layers nothing is asked of the queues, and nothing changes.
    pub fn schedule(&mut self, layers: Vec<Descriptor>, image: &ImageReference, above_mean: Vec<bool>)
        requires
            layers@.len() == above_mean@.len(),
            layers_total(layers@) <= u64::MAX,
            layers@.len() > 0 ==> old(self).queue@.len() > 0,
            schedule_fits(
                queue_items(old(self).queue@),
                *image,
                sort_by_size(pair_up(layers@, above_mean@)),
            ),
        ensures
            queue_items(final(self).queue@) == spec_schedule_all(
                queue_items(old(self).queue@),
                *image,
                sort_by_size(pair_up(layers@, above_mean@)),
            ),
            final(self).queue@.len() == old(self).queue@.len(),
            queues_total(queue_items(final(self).queue@)) == queues_total(
                queue_items(old(self).queue@),
            ) + layers_total(layers@),
    {
        let ghost qs0 = queue_items(self.queue@);
        let ghost pairs = pair_up(layers@, above_mean@);
        let ghost layer_seq = layers@;
        let ghost flags = above_mean@;
        let zipped = zip_flags(layers, above_mean);
        let sorted = sort_layers_by_size(zipped);
        proof {
            lemma_sort_by_size(pairs);
            lemma_pairs_total_sort(pairs);
            lemma_pairs_total_pair_up(layer_seq, flags);
            lemma_schedule_conserves_all(qs0, *image, sorted@);
        }
        self.place_sorted(sorted, image);
    }

    /// Schedules the layers as [`DownloadScheduler::schedule`] does when its condition
    /// holds, and reports whether it did; otherwise the queues are left as they are.
    pub fn try_schedule(
        &mut self,
        layers: Vec<Descriptor>,
        image: &ImageReference,
        above_mean: Vec<bool>,
    ) -> (scheduled: bool)
        requires
            layers@.len() == above_mean@.len(),
        ensures
            scheduled == (layers_total(layers@) <= u64::MAX && (layers@.len() > 0 ==> old(
                self,
            ).queue@.len() > 0) && schedule_fits(
                queue_items(old(self).queue@),
                *image,
                sort_by_size(pair_up(layers@, above_mean@)),
            )),
            scheduled ==> queue_items(final(self).queue@) == spec_schedule_all(
                queue_items(old(self).queue@),
                *image,
                sort_by_size(pair_up(layers@, above_mean@)),
            ),
            scheduled ==> queues_total(queue_items(final(self).queue@)) == queues_total(
                queue_items(old(self).queue@),
            ) + layers_total(layers@),
            !scheduled ==> final(self).queue@ == old(self).queue@,
    {
        let ghost qs0 = queue_items(self.queue@);
        let ghost pairs = pair_up(layers@, above_mean@);
        let ghost layer_seq = layers@;
        let ghost flags = above_mean@;
        if !layers_sum_fits(&layers) {
            return false;
        }
        let zipped = zip_flags(layers, above_mean);
        let sorted = sort_layers_by_size(zipped);
        proof {
            lemma_sort_by_size(pairs);
            lemma_pairs_total_sort(pairs);
            lemma_pairs_total_pair_up(layer_seq, flags);
            lemma_schedule_conserves_all(qs0, *image, sorted@);
        }
        if !self.fits_sorted(&sorted, image) {
            return false;
        }
        self.place_sorted(sorted, image);
        true
    }

    /// Joining downloaded halves is not done yet.
    pub fn concat_layer(&self) {
    }

    /// Running the downloads is not done yet.
    pub fn run() {
    }
}

} // verus!
