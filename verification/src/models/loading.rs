//! Loads the weights of a model in order, all or none.

use vstd::prelude::*;

use crate::error::{DType, ErrorView, EyebrowseError, Result};
use crate::gpu::device::{same_but, Device, DeviceView};
use crate::gpu::memory::Term;
use crate::gpu::tensor::Tensor;
use crate::models::upload::{
    floats, half_shape, half_words, raw_to_f32, single_words, upload_f16, upload_f32,
};
use crate::source::{layer_name, WeightSource};
use crate::text::{cat3, decimal};

verus! {

/// How a weight is wanted: uploaded as packed halves, uploaded in single precision, or as the
/// single number that it holds.
#[derive(Clone, Copy, Debug, PartialEq, Eq, Structural)]
pub enum Want {
    Halves,
    Singles,
    Number,
}

/// A weight that a model needs.
#[derive(Debug)]
pub struct Item {
    pub name: String,
    pub want: Want,
}

/// An [`Item`] with its name as a sequence of characters.
pub struct ItemView {
    pub name: Seq<char>,
    pub want: Want,
}

impl View for Item {
    type V = ItemView;

    open spec fn view(&self) -> ItemView {
        ItemView { name: self.name@, want: self.want }
    }
}

/// Needed weights, by their views.
pub open spec fn item_list(items: Seq<Item>) -> Seq<ItemView> {
    items.map_values(|i: Item| i@)
}

/// A weight that was loaded.
#[derive(Debug)]
pub enum Loaded {
    Tensor(Tensor),
    Number(u32),
}

/// The words that a weight consists of, where the source has it and it can be had as wanted.
pub open spec fn weight<S: WeightSource>(src: S, item: ItemView) -> Option<Seq<u32>> {
    match src.spec_raw(item.name) {
        None => None,
        Some(raw) => match item.want {
            Want::Halves => half_words(raw).ok(),
            Want::Singles => single_words(raw).ok(),
            Want::Number => match floats(raw) {
                Ok(x) => if x.len() > 0 {
                    Some(seq![x[0]])
                } else {
                    None
                },
                Err(_) => None,
            },
        },
    }
}

/// Whether this is an error for a weight that cannot be had.
pub open spec fn weight_refusal<S: WeightSource>(src: S, item: ItemView, e: ErrorView) -> bool {
    match src.spec_raw(item.name) {
        None => src.spec_refusal(item.name, e),
        Some(raw) => match item.want {
            Want::Halves => half_words(raw) == Err::<Seq<u32>, ErrorView>(e),
            Want::Singles => single_words(raw) == Err::<Seq<u32>, ErrorView>(e),
            Want::Number => match floats(raw) {
                Ok(x) => x.len() == 0 && e == ErrorView::Load(
                    "tensor "@ + item.name + " is empty"@,
                ),
                Err(x) => e == x,
            },
        },
    }
}

/// The first of the first `n` weights that cannot be had, or `n` where all can.
pub open spec fn first_gap<S: WeightSource>(src: S, items: Seq<ItemView>, n: int) -> int
    decreases n,
{
    if n <= 0 {
        0
    } else {
        let before = first_gap(src, items, n - 1);
        if before < n - 1 {
            before
        } else if weight(src, items[n - 1]) is None {
            n - 1
        } else {
            n
        }
    }
}

proof fn lemma_first_gap_stays<S: WeightSource>(src: S, items: Seq<ItemView>, k: int, n: int)
    requires
        0 <= k < n,
        first_gap(src, items, k) == k,
        weight(src, items[k]) is None,
    ensures
        first_gap(src, items, n) == k,
    decreases n,
{
    if n > k + 1 {
        lemma_first_gap_stays(src, items, k, n - 1);
    }
}

/// Where no weight is missing, all can be had; else the weights before the first gap can and that
/// at the gap cannot.
pub proof fn lemma_first_gap<S: WeightSource>(src: S, items: Seq<ItemView>, n: int)
    requires
        0 <= n <= items.len(),
    ensures
        0 <= first_gap(src, items, n) <= n,
        forall|i: int|
            0 <= i < first_gap(src, items, n) ==> weight(src, #[trigger] items[i]) is Some,
        first_gap(src, items, n) < n ==> weight(src, items[first_gap(src, items, n)]) is None,
    decreases n,
{
    if n > 0 {
        lemma_first_gap(src, items, n - 1);
    }
}

/// Whether a loaded weight consists of these words.
pub open spec fn consists(l: Loaded, words: Seq<u32>, d: DeviceView) -> bool {
    match l {
        Loaded::Tensor(t) => t.ok(d) && t.in_dev(d) == Term::Words(words),
        Loaded::Number(x) => words.len() > 0 && x == words[0],
    }
}

/// Whether a loaded weight is in this buffer.
pub open spec fn lies_in(l: Loaded, id: usize) -> bool {
    match l {
        Loaded::Tensor(t) => t.buffer == id,
        Loaded::Number(_) => false,
    }
}

/// The shape of the tensor of a weight.
pub open spec fn weight_shape<S: WeightSource>(src: S, item: ItemView) -> Seq<usize> {
    let raw = src.spec_raw(item.name)->Some_0;
    match item.want {
        Want::Halves => half_shape(raw),
        _ => raw.shape,
    }
}

/// The type of the elements of the tensor of a weight.
pub open spec fn weight_dtype(want: Want) -> DType {
    match want {
        Want::Halves => DType::U32,
        _ => DType::F32,
    }
}

/// Whether a tensor has the shape and the element type of a weight.
#[verifier::opaque]
pub open spec fn made_as<S: WeightSource>(t: Tensor, src: S, item: ItemView) -> bool {
    t.shape@ == weight_shape(src, item) && t.dtype == weight_dtype(item.want)
}

/// Whether a weight was loaded as it was wanted.
pub open spec fn as_wanted<S: WeightSource>(l: Loaded, src: S, item: ItemView) -> bool {
    match item.want {
        Want::Number => l is Number,
        _ => l matches Loaded::Tensor(t) && made_as(t, src, item),
    }
}

/// Whether `b` is `a` with these weights loaded, each in a new buffer of its own.
pub open spec fn all_loaded<S: WeightSource>(
    src: S,
    items: Seq<ItemView>,
    v: Seq<Loaded>,
    a: DeviceView,
    b: DeviceView,
) -> bool {
    &&& as_listed(src, items, v, b)
    &&& apart_from(v, a)
    &&& same_but(a, b, Set::empty())
    &&& joined(v, a, b)
}

/// Whether loaded weights are those of a list.
pub open spec fn as_listed<S: WeightSource>(
    src: S,
    items: Seq<ItemView>,
    v: Seq<Loaded>,
    d: DeviceView,
) -> bool {
    &&& v.len() == items.len()
    &&& forall|i: int|
        #![trigger v[i]]
        #![trigger items[i]]
        0 <= i < v.len() ==> weight(src, items[i]) is Some && consists(
            v[i],
            weight(src, items[i])->Some_0,
            d,
        ) && as_wanted(v[i], src, items[i])
}

/// Whether `b` has in use what `a` has and the buffers of loaded weights.
pub open spec fn joined(v: Seq<Loaded>, a: DeviceView, b: DeviceView) -> bool {
    forall|id: usize|
        #![trigger b.live.contains(id)]
        b.live.contains(id) <==> a.live.contains(id) || among(v, id)
}

/// Whether one of loaded weights is in this buffer.
pub open spec fn among(v: Seq<Loaded>, id: usize) -> bool {
    exists|i: int| 0 <= i < v.len() && lies_in(#[trigger] v[i], id)
}

/// Whether loaded weights are in buffers of their own that were not in use before.
pub open spec fn apart_from(v: Seq<Loaded>, a: DeviceView) -> bool {
    &&& forall|i: int, id: usize|
        0 <= i < v.len() && lies_in(#[trigger] v[i], id) ==> !#[trigger] a.live.contains(id)
    &&& forall|i: int, j: int, id: usize|
        0 <= i < v.len() && 0 <= j < v.len() && i != j && #[trigger] lies_in(v[i], id)
            ==> !#[trigger] lies_in(v[j], id)
}

/// Loads one weight.
fn load_item<S: WeightSource>(dev: &mut Device, src: &S, item: &Item) -> (r: Result<Loaded>)
    requires
        old(dev)@.wf(),
    ensures
        final(dev)@.wf(),
        match r {
            Ok(l) => weight(*src, item@) is Some && consists(
                l,
                weight(*src, item@)->Some_0,
                final(dev)@,
            ) && as_wanted(l, *src, item@) && same_but(old(dev)@, final(dev)@, Set::empty()) && (
            forall|id: usize| #[trigger] lies_in(l, id) ==> !old(dev)@.live.contains(id)) && (
            forall|id: usize|
                #![trigger final(dev)@.live.contains(id)]
                final(dev)@.live.contains(id) <==> old(dev)@.live.contains(id) || lies_in(l, id)),
            Err(e) => weight(*src, item@) is None && weight_refusal(*src, item@, e@)
                && final(dev)@ == old(dev)@,
        },
{
    let raw = match src.raw(item.name.as_str()) {
        Ok(t) => t,
        Err(e) => return Err(e),
    };
    proof {
        reveal(made_as);
    }
    match item.want {
        Want::Halves => match upload_f16(dev, &raw) {
            Ok(t) => Ok(Loaded::Tensor(t)),
            Err(e) => Err(e),
        },
        Want::Singles => match upload_f32(dev, &raw) {
            Ok(t) => Ok(Loaded::Tensor(t)),
            Err(e) => Err(e),
        },
        Want::Number => match raw_to_f32(&raw) {
            Ok(x) => {
                if x.len() == 0 {
                    return Err(
                        EyebrowseError::Load(cat3("tensor ", item.name.as_str(), " is empty")),
                    );
                }
                Ok(Loaded::Number(x[0]))
            },
            Err(e) => Err(e),
        },
    }
}

/// Gives back weights that were loaded.
pub(crate) fn release<S: WeightSource>(
    dev: &mut Device,
    v: Vec<Loaded>,
    Ghost(src): Ghost<S>,
    Ghost(items): Ghost<Seq<ItemView>>,
    Ghost(a): Ghost<DeviceView>,
)
    requires
        old(dev)@.wf(),
        all_loaded(src, items, v@, a, old(dev)@),
    ensures
        final(dev)@.wf(),
        final(dev)@.live == a.live,
        same_but(a, final(dev)@, Set::empty()),
{
    let ghost mut n = items;
    let mut v = v;
    while v.len() > 0
        invariant
            dev@.wf(),
            all_loaded(src, n, v@, a, dev@),
        decreases v@.len(),
    {
        let ghost b = dev@;
        let ghost all = v@;
        let last = v.pop();
        match last {
            Some(Loaded::Tensor(t)) => {
                proof {
                    let i = all.len() - 1;
                    assert(all[i] == Loaded::Tensor(t));
                    assert(consists(all[i], weight(src, n[i])->Some_0, b));
                }
                t.recycle(dev);
                proof {
                    let c = dev@;
                    let i = all.len() - 1;
                    assert(lies_in(all[i], t.buffer));
                    assert forall|j: int| 0 <= j < v@.len() implies consists(
                        #[trigger] v@[j],
                        weight(src, n[j])->Some_0,
                        c,
                    ) by {
                        assert(v@[j] == all[j]);
                        assert(consists(all[j], weight(src, n[j])->Some_0, b));
                        if let Loaded::Tensor(u) = v@[j] {
                            assert(lies_in(all[j], u.buffer));
                        }
                    }
                    assert forall|id: usize|
                        #![trigger c.live.contains(id)]
                        c.live.contains(id) <==> a.live.contains(id) || among(v@, id) by {
                        if c.live.contains(id) && !a.live.contains(id) {
                            assert(b.live.contains(id));
                            let j = choose|j: int| 0 <= j < all.len() && lies_in(#[trigger] all[j], id);
                            assert(v@[j] == all[j]);
                        }
                        if among(v@, id) {
                            let j = choose|j: int| 0 <= j < v@.len() && lies_in(#[trigger] v@[j], id);
                            assert(lies_in(all[j], id));
                            assert(b.live.contains(id));
                        }
                        if a.live.contains(id) {
                            assert(b.live.contains(id));
                            assert(!a.live.contains(t.buffer));
                        }
                    }
                }
            },
            _ => {
                proof {
                    let i = all.len() - 1;
                    assert forall|j: int| 0 <= j < v@.len() implies consists(
                        #[trigger] v@[j],
                        weight(src, n[j])->Some_0,
                        b,
                    ) by {
                        assert(v@[j] == all[j]);
                    }
                    assert forall|id: usize|
                        #![trigger b.live.contains(id)]
                        b.live.contains(id) <==> a.live.contains(id) || among(v@, id) by {
                        if b.live.contains(id) && !a.live.contains(id) {
                            let j = choose|j: int| 0 <= j < all.len() && lies_in(#[trigger] all[j], id);
                            assert(all[i] is Number);
                            assert(v@[j] == all[j]);
                        }
                        if among(v@, id) {
                            let j = choose|j: int| 0 <= j < v@.len() && lies_in(#[trigger] v@[j], id);
                            assert(lies_in(all[j], id));
                        }
                    }
                }
            },
        }
        proof {
            let m = n.drop_last();
            assert forall|j: int|
                #![trigger v@[j]]
                #![trigger m[j]]
                0 <= j < v@.len() implies weight(src, m[j]) is Some && consists(
                v@[j],
                weight(src, m[j])->Some_0,
                dev@,
            ) && as_wanted(v@[j], src, m[j]) by {
                assert(m[j] == n[j]);
                assert(v@[j] == all[j]);
                assert(consists(all[j], weight(src, n[j])->Some_0, b));
            }
            assert forall|i: int, j: int, id: usize|
                0 <= i < v@.len() && 0 <= j < v@.len() && i != j && #[trigger] lies_in(
                    v@[i],
                    id,
                ) implies !#[trigger] lies_in(v@[j], id) by {
                assert(lies_in(all[i], id));
            }
            assert forall|i: int, id: usize|
                0 <= i < v@.len() && lies_in(#[trigger] v@[i], id) implies !#[trigger] a.live.contains(
                id,
            ) by {
                assert(lies_in(all[i], id));
            }
            let c = dev@;
            assert forall|id: usize|
                #![trigger c.holds(id)]
                #![trigger a.holds(id)]
                a.live.contains(id) implies c.holds(id) == a.holds(id) by {
                assert(b.live.contains(id));
                assert(b.holds(id) == a.holds(id));
            }
            assert(same_but(a, c, Set::empty()));
            assert(apart_from(v@, a));
            assert(as_listed(src, m, v@, c));
            assert(joined(v@, a, c));
            n = m;
        }
    }
    assert(dev@.live =~= a.live);
}

/// Loads weights in order. Where one cannot be had, those before it are given back.
pub fn load_items<S: WeightSource>(dev: &mut Device, src: &S, items: &Vec<Item>) -> (r: Result<
    Vec<Loaded>,
>)
    requires
        old(dev)@.wf(),
    ensures
        final(dev)@.wf(),
        match r {
            Ok(v) => first_gap(*src, item_list(items@), items@.len() as int) == items@.len()
                && all_loaded(*src, item_list(items@), v@, old(dev)@, final(dev)@),
            Err(e) => ({
                let gap = first_gap(*src, item_list(items@), items@.len() as int);
                &&& gap < items@.len()
                &&& weight_refusal(*src, item_list(items@)[gap], e@)
                &&& final(dev)@.live == old(dev)@.live
                &&& same_but(old(dev)@, final(dev)@, Set::empty())
            }),
        },
{
    let ghost a = dev@;
    let ghost list = item_list(items@);
    let mut v: Vec<Loaded> = Vec::new();
    let mut i: usize = 0;
    while i < items.len()
        invariant
            i <= items@.len(),
            a == old(dev)@,
            list == item_list(items@),
            dev@.wf(),
            first_gap(*src, list, i as int) == i,
            all_loaded(*src, list.take(i as int), v@, a, dev@),
        decreases items.len() - i,
    {
        let ghost b = dev@;
        let ghost before = v@;
        match load_item(dev, src, &items[i]) {
            Ok(l) => {
                v.push(l);
                proof {
                    let c = dev@;
                    let n = before.len() as int;
                    let m = list.take(i + 1);
                    assert(list[i as int] == items@[i as int]@);
                    assert forall|j: int|
                        #![trigger v@[j]]
                        #![trigger m[j]]
                        0 <= j < v@.len() implies weight(*src, m[j]) is Some && consists(
                        v@[j],
                        weight(*src, m[j])->Some_0,
                        c,
                    ) && as_wanted(v@[j], *src, m[j]) by {
                        if j < n {
                            assert(v@[j] == before[j]);
                            assert(list.take(i as int)[j] == m[j]);
                            assert(consists(before[j], weight(*src, m[j])->Some_0, b));
                        }
                    }
                    assert forall|j: int, id: usize|
                        0 <= j < v@.len() && lies_in(
                            #[trigger] v@[j],
                            id,
                        ) implies !#[trigger] a.live.contains(id) by {
                        if j < n {
                            assert(lies_in(before[j], id));
                        } else {
                            assert(lies_in(l, id));
                            if a.live.contains(id) {
                                assert(b.live.contains(id));
                            }
                        }
                    }
                    assert forall|j: int, k: int, id: usize|
                        0 <= j < v@.len() && 0 <= k < v@.len() && j != k && #[trigger] lies_in(
                            v@[j],
                            id,
                        ) implies !#[trigger] lies_in(v@[k], id) by {
                        if j < n && k < n {
                            assert(lies_in(before[j], id));
                        } else if j < n {
                            assert(lies_in(before[j], id));
                            assert(b.live.contains(id));
                        } else {
                            assert(lies_in(l, id));
                            if lies_in(v@[k], id) {
                                assert(lies_in(before[k], id));
                                assert(b.live.contains(id));
                            }
                        }
                    }
                    assert forall|id: usize|
                        #![trigger c.live.contains(id)]
                        c.live.contains(id) <==> a.live.contains(id) || among(v@, id) by {
                        if c.live.contains(id) && !a.live.contains(id) {
                            if lies_in(l, id) {
                                assert(lies_in(v@[n], id));
                            } else {
                                assert(b.live.contains(id));
                                let j = choose|j: int|
                                    0 <= j < before.len() && lies_in(#[trigger] before[j], id);
                                assert(v@[j] == before[j]);
                            }
                        }
                        if among(v@, id) {
                            let j = choose|j: int| 0 <= j < v@.len() && lies_in(#[trigger] v@[j], id);
                            if j < n {
                                assert(lies_in(before[j], id));
                                assert(b.live.contains(id));
                            } else {
                                assert(lies_in(l, id));
                            }
                        }
                        if a.live.contains(id) {
                            assert(b.live.contains(id));
                        }
                    }
                    assert forall|id: usize|
                        #![trigger c.holds(id)]
                        #![trigger a.holds(id)]
                        a.live.contains(id) implies c.holds(id) == a.holds(id) by {
                        assert(b.live.contains(id));
                        assert(b.holds(id) == a.holds(id));
                    }
                }
            },
            Err(e) => {
                proof {
                    assert(list[i as int] == items@[i as int]@);
                    lemma_first_gap_stays(*src, list, i as int, list.len() as int);
                }
                release::<S>(dev, v, Ghost(*src), Ghost(list.take(i as int)), Ghost(a));
                return Err(e);
            },
        }
        i = i + 1;
    }
    assert(list.take(i as int) =~= list);
    Ok(v)
}

/// Whether what is left of loaded weights, the next one at the end, is what is left of a list.
#[verifier::opaque]
pub open spec fn left<S: WeightSource>(
    src: S,
    rest: Seq<ItemView>,
    stock: Seq<Loaded>,
    d: DeviceView,
) -> bool {
    as_listed(src, rest, stock.reverse(), d)
}

/// Turns loaded weights around, so that the first one is at the end.
pub(crate) fn turned<S: WeightSource>(
    v: Vec<Loaded>,
    Ghost(src): Ghost<S>,
    Ghost(rest): Ghost<Seq<ItemView>>,
    Ghost(d): Ghost<DeviceView>,
) -> (r: Vec<Loaded>)
    requires
        as_listed(src, rest, v@, d),
    ensures
        left(src, rest, r@, d),
        r@ == v@.reverse(),
{
    let ghost all = v@;
    let mut v = v;
    let mut r: Vec<Loaded> = Vec::new();
    while v.len() > 0
        invariant
            v@.len() + r@.len() == all.len(),
            v@ == all.take(v@.len() as int),
            forall|k: int| 0 <= k < r@.len() ==> #[trigger] r@[k] == all[all.len() - 1 - k],
        decreases v@.len(),
    {
        let ghost before = v@;
        match v.pop() {
            Some(l) => {
                r.push(l);
            },
            None => {},
        }
        assert(v@ =~= all.take(v@.len() as int));
    }
    proof {
        reveal(left);
        assert(r@ =~= all.reverse());
        assert(r@.reverse() =~= all);
    }
    r
}

/// Takes the next of loaded weights, which is the tensor of item `k` of a list.
pub(crate) fn take_tensor<S: WeightSource>(
    stock: &mut Vec<Loaded>,
    Ghost(src): Ghost<S>,
    Ghost(list): Ghost<Seq<ItemView>>,
    Ghost(k): Ghost<int>,
    Ghost(d): Ghost<DeviceView>,
) -> (r: Tensor)
    requires
        0 <= k < list.len(),
        left(src, list.skip(k), old(stock)@, d),
        list[k].want != Want::Number,
    ensures
        left(src, list.skip(k + 1), final(stock)@, d),
        r.ok(d),
        r.in_dev(d) == weight_term(src, list[k]),
        made_as(r, src, list[k]),
{
    proof {
        lemma_left_next(src, list, k, stock@, d);
    }
    match stock.pop() {
        Some(Loaded::Tensor(t)) => t,
        _ => Tensor { buffer: 0, shape: Vec::new(), dtype: DType::F32 },
    }
}

/// Takes the next of loaded weights, which is the number of item `k` of a list.
pub(crate) fn take_number<S: WeightSource>(
    stock: &mut Vec<Loaded>,
    Ghost(src): Ghost<S>,
    Ghost(list): Ghost<Seq<ItemView>>,
    Ghost(k): Ghost<int>,
    Ghost(d): Ghost<DeviceView>,
) -> (r: u32)
    requires
        0 <= k < list.len(),
        left(src, list.skip(k), old(stock)@, d),
        list[k].want == Want::Number,
    ensures
        left(src, list.skip(k + 1), final(stock)@, d),
        r == weight(src, list[k])->Some_0[0],
{
    proof {
        lemma_left_next(src, list, k, stock@, d);
    }
    match stock.pop() {
        Some(Loaded::Number(x)) => x,
        _ => 0,
    }
}

/// What the buffer of a weight holds.
pub open spec fn weight_term<S: WeightSource>(src: S, item: ItemView) -> Term {
    Term::Words(weight(src, item)->Some_0)
}

/// The weight of a part of a layer.
pub open spec fn layer_item(layer: nat, part: Seq<char>, want: Want) -> ItemView {
    ItemView { name: layer_name(layer, part), want }
}

/// Adds a weight of a part of a layer to a list.
pub(crate) fn push_layer(items: &mut Vec<Item>, layer: usize, part: &str, want: Want)
    ensures
        item_list(final(items)@) == item_list(old(items)@).push(
            layer_item(layer as nat, part@, want),
        ),
{
    let mut name = cat3("model.layers.", decimal(layer as u64).as_str(), ".");
    name.append(part);
    name.append(".weight");
    let ghost before = item_list(items@);
    let ghost shown = ItemView { name: name@, want };
    items.push(Item { name, want });
    assert(item_list(items@) =~= before.push(shown));
}

/// Adds a weight to a list.
pub(crate) fn push_item(items: &mut Vec<Item>, name: &str, want: Want)
    ensures
        item_list(final(items)@) == item_list(old(items)@).push(ItemView { name: name@, want }),
{
    let ghost before = item_list(items@);
    items.push(Item { name: name.to_owned(), want });
    assert(item_list(items@) =~= before.push(ItemView { name: name@, want }));
}

proof fn lemma_left_next<S: WeightSource>(
    src: S,
    list: Seq<ItemView>,
    k: int,
    stock: Seq<Loaded>,
    d: DeviceView,
)
    requires
        0 <= k < list.len(),
        left(src, list.skip(k), stock, d),
    ensures
        stock.len() > 0,
        left(src, list.skip(k + 1), stock.drop_last(), d),
        weight(src, list[k]) is Some,
        consists(stock.last(), weight(src, list[k])->Some_0, d),
        as_wanted(stock.last(), src, list[k]),
{
    reveal(left);
    let v = stock.reverse();
    let rest = list.skip(k);
    assert(v.len() == stock.len());
    assert(v[0] == stock.last());
    assert(rest[0] == list[k]);
    let w = stock.drop_last().reverse();
    let m = list.skip(k + 1);
    assert(w.len() == m.len());
    assert forall|i: int|
        #![trigger w[i]]
        #![trigger m[i]]
        0 <= i < w.len() implies weight(src, m[i]) is Some && consists(
        w[i],
        weight(src, m[i])->Some_0,
        d,
    ) && as_wanted(w[i], src, m[i]) by {
        assert(w[i] == v[i + 1]);
        assert(m[i] == rest[i + 1]);
    }
}

/// Loaded weights stay what they are while only new buffers are used.
pub proof fn lemma_listed_kept<S: WeightSource>(
    src: S,
    items: Seq<ItemView>,
    v: Seq<Loaded>,
    a: DeviceView,
    b: DeviceView,
)
    requires
        as_listed(src, items, v, a),
        same_but(a, b, Set::empty()),
        forall|id: usize| #[trigger] a.live.contains(id) ==> b.live.contains(id),
    ensures
        as_listed(src, items, v, b),
{
    assert forall|i: int|
        #![trigger v[i]]
        #![trigger items[i]]
        0 <= i < v.len() implies weight(src, items[i]) is Some && consists(
        v[i],
        weight(src, items[i])->Some_0,
        b,
    ) && as_wanted(v[i], src, items[i]) by {
        assert(consists(v[i], weight(src, items[i])->Some_0, a));
    }
}

/// What is left of a list after `first` when `first + rest` is left of it.
pub proof fn lemma_skip_further<T>(list: Seq<T>, p: int, first: Seq<T>, rest: Seq<T>)
    requires
        0 <= p <= list.len(),
        list.skip(p) == first + rest,
    ensures
        p + first.len() <= list.len(),
        forall|j: int| 0 <= j < first.len() ==> list[p + j] == #[trigger] first[j],
        list.skip(p + first.len()) == rest,
{
    let tail = list.skip(p);
    assert(tail.len() == list.len() - p);
    assert forall|j: int| 0 <= j < first.len() implies list[p + j] == #[trigger] first[j] by {
        assert(tail[j] == list[p + j]);
    }
    let next = list.skip(p + first.len());
    assert forall|j: int| 0 <= j < rest.len() implies next[j] == #[trigger] rest[j] by {
        assert(next[j] == list[p + first.len() + j]);
        assert(tail[first.len() + j] == list[p + (first.len() + j)]);
    }
    assert(next =~= rest);
}

} // verus!
