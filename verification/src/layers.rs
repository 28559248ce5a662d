//! Layers of shapes: which part of every shape stays visible when the
//! shapes are stacked, later ones in front of earlier ones.

use crate::area::Area;
use crate::model::{
    area_cells, area_extents_overlap, area_has, area_ok, area_trimmed, is_cull,
    lemma_area_canonical, lemma_area_extents_apart, AreaView,
};
use crate::occlusion::{cull, lemma_area_trim_of_trimmed};
use crate::point::Point;
use vstd::prelude::*;

verus! {

/// A shape: its outline and the region inside it.
#[derive(Debug)]
pub struct Petal {
    pub skeleton: Vec<Point>,
    pub area: Area,
}

/// A shape as a value.
pub struct PetalView {
    pub skeleton: Seq<Point>,
    pub area: AreaView,
}

impl View for Petal {
    type V = PetalView;

    /// The points of the outline, and the region as a value.
    open spec fn view(&self) -> PetalView {
        PetalView { skeleton: self.skeleton@, area: self.area@ }
    }
}

impl Petal {
    /// A shape is well formed when its region is valid and trimmed.
    pub open spec fn wf(&self) -> bool {
        self.area.wf() && self.area.is_trimmed()
    }

    /// A shape of the given outline and region.
    #[must_use]
    pub fn new(skeleton: Vec<Point>, area: Area) -> (p: Self)
        ensures
            p.skeleton == skeleton,
            p.area == area,
    {
        Self { skeleton, area }
    }
}

/// What is left of a region behind the regions in front of it.
#[derive(Debug)]
pub enum CullingResult {
    /// Nothing is left.
    NoAreaVisible,
    /// No region in front intersects it: all of it is left.
    WholeAreaVisible,
    /// Some region in front intersects it, and this much is left.
    Culled(Area),
}

/// The views of a sequence of regions.
pub open spec fn area_views(areas: Seq<Area>) -> Seq<AreaView> {
    areas.map_values(|a: Area| a@)
}

/// The cells that at least one of the regions covers.
pub open spec fn cover(areas: Seq<AreaView>) -> Set<(int, int)> {
    Set::new(
        |c: (int, int)|
            exists|j: int| 0 <= j < areas.len() && area_has(#[trigger] areas[j], c.0, c.1),
    )
}

/// One more region covers its own cells besides.
pub proof fn lemma_cover_push(areas: Seq<AreaView>, a: AreaView)
    ensures
        cover(areas.push(a)) == cover(areas).union(area_cells(a)),
{
    let more = areas.push(a);
    assert forall|c: (int, int)| cover(more).contains(c) <==> (cover(areas).contains(c)
        || area_cells(a).contains(c)) by {
        if cover(more).contains(c) {
            let j = choose|j: int| 0 <= j < more.len() && area_has(#[trigger] more[j], c.0, c.1);
            if j < areas.len() {
                assert(area_has(areas[j], c.0, c.1));
            }
        }
        if cover(areas).contains(c) {
            let j = choose|j: int| 0 <= j < areas.len() && area_has(#[trigger] areas[j], c.0, c.1);
            assert(area_has(more[j], c.0, c.1));
        }
        if area_cells(a).contains(c) {
            assert(area_has(more[areas.len() as int], c.0, c.1));
        }
    }
    assert(cover(more) =~= cover(areas).union(area_cells(a)));
}

/// What is left of `back_area` behind all of `front_areas`.
///
/// The region is culled by every region in front whose extents overlap its
/// own, one after the other.
pub fn cull_back_area(back_area: &Area, front_areas: &Vec<Area>) -> (left: CullingResult)
    requires
        back_area.wf(),
        back_area.is_trimmed(),
        forall|j: int| 0 <= j < front_areas@.len() ==> (#[trigger] front_areas@[j]).wf(),
    ensures
        match left {
            CullingResult::NoAreaVisible => area_cells(back_area@).subset_of(
                cover(area_views(front_areas@)),
            ),
            CullingResult::WholeAreaVisible => {
                &&& area_cells(back_area@).disjoint(cover(area_views(front_areas@)))
                &&& forall|j: int|
                    0 <= j < front_areas@.len() ==> !area_extents_overlap(
                        back_area@,
                        #[trigger] area_views(front_areas@)[j],
                    )
            },
            CullingResult::Culled(a) => {
                &&& a.wf()
                &&& a.is_trimmed()
                &&& area_cells(a@) == area_cells(back_area@).difference(
                    cover(area_views(front_areas@)),
                )
                &&& exists|j: int|
                    0 <= j < front_areas@.len() && area_extents_overlap(
                        back_area@,
                        #[trigger] area_views(front_areas@)[j],
                    )
            },
        },
{
    let ghost fronts = area_views(front_areas@);
    let mut current: Option<Area> = None;
    let mut j: usize = 0;
    assert(cover(fronts.take(0)) =~= Set::empty());
    while j < front_areas.len()
        invariant
            j <= front_areas@.len(),
            fronts == area_views(front_areas@),
            back_area.wf(),
            back_area.is_trimmed(),
            forall|j: int| 0 <= j < front_areas@.len() ==> (#[trigger] front_areas@[j]).wf(),
            match current {
                Some(a) => {
                    &&& a.wf()
                    &&& a.is_trimmed()
                    &&& area_cells(a@) == area_cells(back_area@).difference(
                        cover(fronts.take(j as int)),
                    )
                    &&& exists|m: int|
                        0 <= m < j && area_extents_overlap(back_area@, #[trigger] fronts[m])
                },
                None => {
                    &&& area_cells(back_area@).disjoint(cover(fronts.take(j as int)))
                    &&& forall|m: int|
                        0 <= m < j ==> !area_extents_overlap(back_area@, #[trigger] fronts[m])
                },
            },
        decreases front_areas@.len() - j,
    {
        let front_area = &front_areas[j];
        proof {
            assert(fronts.take(j + 1) =~= fronts.take(j as int).push(fronts[j as int]));
            lemma_cover_push(fronts.take(j as int), fronts[j as int]);
            assert(front_area@ == fronts[j as int]);
        }
        if back_area.intersects(front_area) {
            let visible = match &current {
                Some(area) => cull(area, front_area),
                None => cull(back_area, front_area),
            };
            match visible {
                Some(area) => {
                    proof {
                        assert(area_cells(area@) =~= area_cells(back_area@).difference(
                            cover(fronts.take(j + 1)),
                        ));
                    }
                    current = Some(area);
                },
                None => {
                    proof {
                        assert forall|c: (int, int)|
                            area_cells(back_area@).contains(c) implies cover(fronts).contains(
                            c,
                        ) by {
                            if !cover(fronts.take(j as int)).contains(c) {
                                assert(area_cells(front_area@).contains(c));
                                assert(area_has(fronts[j as int], c.0, c.1));
                            } else {
                                let m = choose|m: int|
                                    0 <= m < fronts.take(j as int).len() && area_has(
                                        #[trigger] fronts.take(j as int)[m],
                                        c.0,
                                        c.1,
                                    );
                                assert(area_has(fronts[m], c.0, c.1));
                            }
                        }
                    }
                    return CullingResult::NoAreaVisible;
                },
            }
        } else {
            proof {
                lemma_area_extents_apart(back_area@, front_area@);
                match &current {
                    Some(a) => {
                        assert(area_cells(a@) =~= area_cells(back_area@).difference(
                            cover(fronts.take(j + 1)),
                        ));
                    },
                    None => {},
                }
            }
        }
        j += 1;
    }
    assert(fronts.take(j as int) =~= fronts);
    match current {
        Some(area) => CullingResult::Culled(area),
        None => CullingResult::WholeAreaVisible,
    }
}

/// The views of a sequence of shapes.
pub open spec fn petal_views(petals: Seq<Petal>) -> Seq<PetalView> {
    petals.map_values(|p: Petal| p@)
}

/// The views of a sequence of layers.
pub open spec fn layer_views(layers: Seq<Vec<Petal>>) -> Seq<Seq<PetalView>> {
    layers.map_values(|l: Vec<Petal>| petal_views(l@))
}

/// Whether every shape of every layer has a valid, trimmed region.
pub open spec fn layers_ok(layers: Seq<Seq<PetalView>>) -> bool {
    forall|i: int, k: int|
        0 <= i < layers.len() && 0 <= k < layers[i].len() ==> area_ok(
            (#[trigger] layers[i][k]).area,
        ) && area_trimmed(layers[i][k].area)
}

/// Whether shape `k2` of layer `i2` lies in front of shape `k` of layer `i`:
/// it is in a later layer, or later in the same layer.
pub open spec fn in_front(layers: Seq<Seq<PetalView>>, i: int, k: int, i2: int, k2: int) -> bool {
    0 <= i2 < layers.len() && 0 <= k2 < layers[i2].len() && (i2 > i || (i2 == i && k2 > k))
}

/// The cells covered by the shapes in front of shape `k` of layer `i`.
pub open spec fn cover_after(layers: Seq<Seq<PetalView>>, i: int, k: int) -> Set<(int, int)> {
    Set::new(
        |c: (int, int)|
            exists|i2: int, k2: int|
                #[trigger] in_front(layers, i, k, i2, k2) && area_has(
                    layers[i2][k2].area,
                    c.0,
                    c.1,
                ),
    )
}

/// The cells of shape `k` of layer `i` that no shape in front of it covers.
pub open spec fn visible_cells(layers: Seq<Seq<PetalView>>, i: int, k: int) -> Set<(int, int)> {
    area_cells(layers[i][k].area).difference(cover_after(layers, i, k))
}

/// The valid, trimmed region that covers exactly `cells`.
pub open spec fn area_of_cells(cells: Set<(int, int)>) -> AreaView {
    choose|a: AreaView| area_ok(a) && area_trimmed(a) && area_cells(a) == cells
}

/// Shape `k` of layer `i` with its region reduced to its visible cells;
/// nothing when it has none.
pub open spec fn visible_petal(layers: Seq<Seq<PetalView>>, i: int, k: int) -> Option<PetalView> {
    let cells = visible_cells(layers, i, k);
    if cells == Set::<(int, int)>::empty() {
        None
    } else {
        Some(PetalView { skeleton: layers[i][k].skeleton, area: area_of_cells(cells) })
    }
}

/// A shape as a sequence of at most one shape.
pub open spec fn petal_seq(petal: Option<PetalView>) -> Seq<PetalView> {
    match petal {
        Some(p) => seq![p],
        None => Seq::empty(),
    }
}

/// The shapes of layer `i` from shape `k` on that stay visible, reduced to
/// what is visible of them.
pub open spec fn visible_from(layers: Seq<Seq<PetalView>>, i: int, k: int) -> Seq<PetalView>
    decreases layers[i].len() - k,
{
    if k >= layers[i].len() {
        Seq::empty()
    } else {
        petal_seq(visible_petal(layers, i, k)) + visible_from(layers, i, k + 1)
    }
}

/// A layer as a sequence of at most one layer: none when it has no shape.
pub open spec fn layer_seq(layer: Seq<PetalView>) -> Seq<Seq<PetalView>> {
    if layer.len() > 0 {
        seq![layer]
    } else {
        Seq::empty()
    }
}

/// The layers from layer `i` on, each reduced to its visible shapes, without
/// the layers of which nothing stays visible.
pub open spec fn visible_layers_from(layers: Seq<Seq<PetalView>>, i: int) -> Seq<Seq<PetalView>>
    decreases layers.len() - i,
{
    if i >= layers.len() {
        Seq::empty()
    } else {
        layer_seq(visible_from(layers, i, 0)) + visible_layers_from(layers, i + 1)
    }
}

/// What stays visible of a stack of layers.
pub open spec fn visible_layers(layers: Seq<Seq<PetalView>>) -> Seq<Seq<PetalView>> {
    visible_layers_from(layers, 0)
}

/// A valid, trimmed region is the region of its cells, and has a cell.
pub proof fn lemma_area_of_cells(a: AreaView)
    requires
        area_ok(a),
        area_trimmed(a),
    ensures
        area_of_cells(area_cells(a)) == a,
        area_cells(a) != Set::<(int, int)>::empty(),
{
    let b = area_of_cells(area_cells(a));
    assert(area_ok(b) && area_trimmed(b) && area_cells(b) == area_cells(a));
    lemma_area_canonical(a, b);
    lemma_area_trim_of_trimmed(a);
}

/// The shapes in front of the shape before shape `k` of layer `i` are shape
/// `k` and the shapes in front of it.
pub proof fn lemma_cover_after_step(layers: Seq<Seq<PetalView>>, i: int, k: int)
    requires
        0 <= i < layers.len(),
        0 <= k < layers[i].len(),
    ensures
        cover_after(layers, i, k - 1) == cover_after(layers, i, k).union(
            area_cells(layers[i][k].area),
        ),
{
    assert forall|c: (int, int)|
        cover_after(layers, i, k - 1).contains(c) <==> (cover_after(layers, i, k).contains(c)
            || area_cells(layers[i][k].area).contains(c)) by {
        if cover_after(layers, i, k - 1).contains(c) {
            let (i2, k2) = choose|i2: int, k2: int|
                #[trigger] in_front(layers, i, k - 1, i2, k2) && area_has(
                    layers[i2][k2].area,
                    c.0,
                    c.1,
                );
            if !(i2 == i && k2 == k) {
                assert(in_front(layers, i, k, i2, k2));
            }
        }
        if cover_after(layers, i, k).contains(c) {
            let (i2, k2) = choose|i2: int, k2: int|
                #[trigger] in_front(layers, i, k, i2, k2) && area_has(
                    layers[i2][k2].area,
                    c.0,
                    c.1,
                );
            assert(in_front(layers, i, k - 1, i2, k2));
        }
        if area_cells(layers[i][k].area).contains(c) {
            assert(in_front(layers, i, k - 1, i, k));
        }
    }
    assert(cover_after(layers, i, k - 1) =~= cover_after(layers, i, k).union(
        area_cells(layers[i][k].area),
    ));
}

/// The shapes in front of the last shape of a layer are the shapes of the
/// layers after it.
pub proof fn lemma_cover_after_layer(layers: Seq<Seq<PetalView>>, i: int)
    requires
        0 <= i < layers.len(),
    ensures
        cover_after(layers, i, layers[i].len() - 1) == cover_after(layers, i + 1, -1),
{
    let last = layers[i].len() - 1;
    assert forall|c: (int, int)|
        cover_after(layers, i, last).contains(c) <==> cover_after(layers, i + 1, -1).contains(
            c,
        ) by {
        if cover_after(layers, i, last).contains(c) {
            let (i2, k2) = choose|i2: int, k2: int|
                #[trigger] in_front(layers, i, last, i2, k2) && area_has(
                    layers[i2][k2].area,
                    c.0,
                    c.1,
                );
            assert(in_front(layers, i + 1, -1, i2, k2));
        }
        if cover_after(layers, i + 1, -1).contains(c) {
            let (i2, k2) = choose|i2: int, k2: int|
                #[trigger] in_front(layers, i + 1, -1, i2, k2) && area_has(
                    layers[i2][k2].area,
                    c.0,
                    c.1,
                );
            assert(in_front(layers, i, last, i2, k2));
        }
    }
    assert(cover_after(layers, i, last) =~= cover_after(layers, i + 1, -1));
}

/// The same elements, last first.
fn reversed<T>(v: Vec<T>) -> (r: Vec<T>)
    ensures
        r@ == v@.reverse(),
{
    let ghost all = v@;
    let mut v = v;
    let mut r: Vec<T> = Vec::with_capacity(v.len());
    while v.len() > 0
        invariant
            v@ == all.take(v@.len() as int),
            v@.len() <= all.len(),
            r@.len() == all.len() - v@.len(),
            forall|t: int| 0 <= t < r@.len() ==> r@[t] == all[all.len() - 1 - t],
        decreases v@.len(),
    {
        match v.pop() {
            Some(x) => {
                r.push(x);
            },
            None => {},
        }
    }
    assert(r@ =~= all.reverse());
    r
}

/// Reduces every shape to what stays visible of it.
///
/// Shapes later in a layer lie in front of earlier ones, and every shape of
/// a later layer lies in front of every shape of an earlier one. A shape of
/// which nothing stays visible leaves its layer, and a layer left without
/// shapes leaves the stack.
pub fn optimize_layers(layers: &mut Vec<Vec<Petal>>)
    requires
        layers_ok(layer_views(old(layers)@)),
    ensures
        layer_views(final(layers)@) == visible_layers(layer_views(old(layers)@)),
{
    let ghost all = layer_views(layers@);
    let mut fronts: Vec<Area> = Vec::new();
    let mut kept_layers: Vec<Vec<Petal>> = Vec::new();
    proof {
        assert(all.take(layers@.len() as int) =~= all);
        let n = all.len() as int;
        let behind = cover_after(all, n, -1);
        assert(cover(area_views(fronts@)) =~= behind) by {
            assert forall|c: (int, int)| !#[trigger] behind.contains(c) by {
                assert forall|i2: int, k2: int| !#[trigger] in_front(all, n, -1, i2, k2) by {}
            }
        }
        assert(layer_views(kept_layers@).reverse() =~= visible_layers_from(all, all.len() as int));
    }
    while layers.len() > 0
        invariant
            layers_ok(all),
            layers@.len() <= all.len(),
            layer_views(layers@) == all.take(layers@.len() as int),
            forall|j: int| 0 <= j < fronts@.len() ==> (#[trigger] fronts@[j]).wf(),
            cover(area_views(fronts@)) == cover_after(all, layers@.len() as int, -1),
            layer_views(kept_layers@).reverse() == visible_layers_from(all, layers@.len() as int),
        decreases layers@.len(),
    {
        let ghost before = layers@;
        let mut layer = layers.pop().unwrap();
        let ghost i = layers@.len() as int;
        let mut kept: Vec<Petal> = Vec::new();
        proof {
            assert(layer_views(before)[i] == petal_views(layer@));
            assert(all.take(i + 1)[i] == all[i]);
            assert(layer_views(layers@) =~= all.take(i));
            assert(petal_views(layer@).take(layer@.len() as int) =~= petal_views(layer@));
            lemma_cover_after_layer(all, i);
            assert(petal_views(kept@).reverse() =~= visible_from(all, i, layer@.len() as int));
        }
        while layer.len() > 0
            invariant
                layers_ok(all),
                0 <= i < all.len(),
                layer@.len() <= all[i].len(),
                petal_views(layer@) == all[i].take(layer@.len() as int),
                forall|j: int| 0 <= j < fronts@.len() ==> (#[trigger] fronts@[j]).wf(),
                cover(area_views(fronts@)) == cover_after(all, i, layer@.len() - 1),
                petal_views(kept@).reverse() == visible_from(all, i, layer@.len() as int),
            decreases layer@.len(),
        {
            let ghost rest = layer@;
            let ghost kept_before = petal_views(kept@);
            let ghost fronts_before = area_views(fronts@);
            let petal = layer.pop().unwrap();
            let ghost k = layer@.len() as int;
            proof {
                assert(petal_views(rest)[k] == petal@);
                assert(all[i].take(k + 1)[k] == all[i][k]);
                assert(petal@ == all[i][k]);
                assert(petal_views(layer@) =~= all[i].take(k));
                assert(area_ok(all[i][k].area) && area_trimmed(all[i][k].area));
            }
            let Petal { skeleton, area } = petal;
            let ghost cells = visible_cells(all, i, k);
            match cull_back_area(&area, &fronts) {
                CullingResult::NoAreaVisible => {
                    proof {
                        assert(cells =~= Set::<(int, int)>::empty());
                        assert(kept_before.reverse() =~= petal_seq(visible_petal(all, i, k))
                            + kept_before.reverse());
                    }
                },
                CullingResult::WholeAreaVisible => {
                    let whole = area.clone();
                    let same = Petal { skeleton, area: whole };
                    kept.push(same);
                    proof {
                        assert(cells =~= area_cells(area@));
                        lemma_area_of_cells(area@);
                        assert(visible_petal(all, i, k) == Some(same@));
                        assert(petal_views(kept@) =~= kept_before.push(same@));
                        assert(kept_before.push(same@).reverse() =~= seq![same@]
                            + kept_before.reverse());
                    }
                },
                CullingResult::Culled(visible) => {
                    let less = Petal { skeleton, area: visible };
                    kept.push(less);
                    proof {
                        assert(cells == area_cells(less@.area));
                        lemma_area_of_cells(less@.area);
                        assert(visible_petal(all, i, k) == Some(less@));
                        assert(petal_views(kept@) =~= kept_before.push(less@));
                        assert(kept_before.push(less@).reverse() =~= seq![less@]
                            + kept_before.reverse());
                    }
                },
            }
            fronts.push(area);
            proof {
                assert(area_views(fronts@) =~= fronts_before.push(area@));
                lemma_cover_push(fronts_before, area@);
                lemma_cover_after_step(all, i, k);
            }
        }
        let ghost layers_before = layer_views(kept_layers@);
        let ghost kept_views = petal_views(kept@);
        if kept.len() > 0 {
            let kept_layer = reversed(kept);
            kept_layers.push(kept_layer);
            proof {
                assert(petal_views(kept_layer@) =~= kept_views.reverse());
                assert(layer_views(kept_layers@) =~= layers_before.push(kept_views.reverse()));
                assert(layers_before.push(kept_views.reverse()).reverse() =~= seq![
                    kept_views.reverse(),
                ] + layers_before.reverse());
            }
        } else {
            proof {
                assert(layers_before.reverse() =~= layer_seq(kept_views.reverse())
                    + layers_before.reverse());
            }
        }
    }
    let ghost kept_views = layer_views(kept_layers@);
    let result = reversed(kept_layers);
    proof {
        assert(layer_views(result@) =~= kept_views.reverse());
    }
    *layers = result;
}

/// Whether shape `k` of layer `i` is the frontmost shape of the stack.
pub open spec fn is_frontmost(layers: Seq<Seq<PetalView>>, i: int, k: int) -> bool {
    &&& 0 <= i < layers.len()
    &&& 0 <= k < layers[i].len()
    &&& forall|i2: int, k2: int| !#[trigger] in_front(layers, i, k, i2, k2)
}

/// A layer with a visible shape stays.
proof fn lemma_visible_from_grows(layers: Seq<Seq<PetalView>>, i: int, k: int, from: int)
    requires
        0 <= from <= k < layers[i].len(),
        visible_petal(layers, i, k) is Some,
    ensures
        visible_from(layers, i, from).len() > 0,
    decreases k - from,
{
    if from < k {
        lemma_visible_from_grows(layers, i, k, from + 1);
    }
}

/// A stack with a layer that stays keeps a layer.
proof fn lemma_visible_layers_grow(layers: Seq<Seq<PetalView>>, i: int, from: int)
    requires
        0 <= from <= i < layers.len(),
        visible_from(layers, i, 0).len() > 0,
    ensures
        visible_layers_from(layers, from).len() > 0,
    decreases i - from,
{
    if from < i {
        lemma_visible_layers_grow(layers, i, from + 1);
    }
}

/// Nothing hides the frontmost shape: a stack that holds a shape keeps at
/// least one layer. Only a stack without shapes is left without layers.
pub proof fn lemma_frontmost_stays(layers: Seq<Seq<PetalView>>, i: int, k: int)
    requires
        layers_ok(layers),
        is_frontmost(layers, i, k),
    ensures
        visible_cells(layers, i, k) == area_cells(layers[i][k].area),
        visible_petal(layers, i, k) == Some(layers[i][k]),
        visible_layers(layers).len() > 0,
{
    let behind = cover_after(layers, i, k);
    assert forall|c: (int, int)| !#[trigger] behind.contains(c) by {}
    assert(visible_cells(layers, i, k) =~= area_cells(layers[i][k].area));
    assert(area_ok(layers[i][k].area) && area_trimmed(layers[i][k].area));
    lemma_area_of_cells(layers[i][k].area);
    lemma_visible_from_grows(layers, i, k, 0);
    lemma_visible_layers_grow(layers, i, 0);
}

/// Whether the stack has a shape `k` in layer `i`.
pub open spec fn has_petal(layers: Seq<Seq<PetalView>>, i: int, k: int) -> bool {
    0 <= i < layers.len() && 0 <= k < layers[i].len()
}

/// What stays visible of a shape shares no cell with a shape in front of it,
/// so that no cell stays visible of two shapes.
pub proof fn lemma_visible_apart(layers: Seq<Seq<PetalView>>, i: int, k: int, i2: int, k2: int)
    requires
        has_petal(layers, i, k),
        in_front(layers, i, k, i2, k2),
    ensures
        visible_cells(layers, i, k).disjoint(area_cells(layers[i2][k2].area)),
        visible_cells(layers, i, k).disjoint(visible_cells(layers, i2, k2)),
{
    assert forall|c: (int, int)| area_cells(layers[i2][k2].area).contains(c) implies cover_after(
        layers,
        i,
        k,
    ).contains(c) by {
        assert(in_front(layers, i, k, i2, k2) && area_has(layers[i2][k2].area, c.0, c.1));
    }
}

/// No cell is lost: a cell that a shape covers stays visible of that shape
/// or of a shape in front of it.
pub proof fn lemma_cell_stays_visible(layers: Seq<Seq<PetalView>>, i: int, k: int, c: (int, int))
    requires
        has_petal(layers, i, k),
        area_cells(layers[i][k].area).contains(c),
    ensures
        exists|i2: int, k2: int|
            #[trigger] has_petal(layers, i2, k2) && (i2 > i || (i2 == i && k2 >= k))
                && visible_cells(layers, i2, k2).contains(c),
    decreases layers.len() - i, layers[i].len() - k,
{
    if cover_after(layers, i, k).contains(c) {
        let (i1, k1) = choose|i1: int, k1: int|
            #[trigger] in_front(layers, i, k, i1, k1) && area_has(layers[i1][k1].area, c.0, c.1);
        lemma_cell_stays_visible(layers, i1, k1, c);
        let (i2, k2) = choose|i2: int, k2: int|
            #[trigger] has_petal(layers, i2, k2) && (i2 > i1 || (i2 == i1 && k2 >= k1))
                && visible_cells(layers, i2, k2).contains(c);
        assert(has_petal(layers, i2, k2) && (i2 > i || (i2 == i && k2 >= k)) && visible_cells(
            layers,
            i2,
            k2,
        ).contains(c));
    } else {
        assert(has_petal(layers, i, k) && visible_cells(layers, i, k).contains(c));
    }
}

} // verus!
