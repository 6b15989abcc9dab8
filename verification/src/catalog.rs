//! The recipe catalog data model: ingredients, measurements, components,
//! sections, tags and recipes, together with the rules for merging two
//! components of the same ingredient.

use vstd::prelude::*;
use crate::quantity::{Quantity, spec_quantity_plus};

verus! {

/// A measurement unit. Units are compatible only when their canonical names
/// match exactly; the abbreviation is for display.
#[derive(Debug, PartialEq, Eq)]
pub struct Unit {
    pub name: String,
    pub abbreviation: String,
}

/// Mathematical image of a [`Unit`].
pub struct UnitView {
    pub name: Seq<char>,
    pub abbreviation: Seq<char>,
}

impl View for Unit {
    type V = UnitView;

    open spec fn view(&self) -> UnitView {
        UnitView { name: self.name@, abbreviation: self.abbreviation@ }
    }
}

impl Unit {
    /// A field-exact copy.
    pub fn duplicate(&self) -> (r: Unit)
        ensures
            r@ == self@,
    {
        Unit { name: self.name.clone(), abbreviation: self.abbreviation.clone() }
    }
}

/// One stated amount of an ingredient: a quantity and its unit. A zero
/// quantity means the amount is unspecified ("to taste").
#[derive(Debug, PartialEq, Eq)]
pub struct Measurement {
    pub id: i64,
    pub quantity: Quantity,
    pub unit: Unit,
}

/// Mathematical image of a [`Measurement`].
pub struct MeasurementView {
    pub id: i64,
    pub quantity: Quantity,
    pub unit: UnitView,
}

impl View for Measurement {
    type V = MeasurementView;

    open spec fn view(&self) -> MeasurementView {
        MeasurementView { id: self.id, quantity: self.quantity, unit: self.unit@ }
    }
}

impl Measurement {
    /// A field-exact copy.
    pub fn duplicate(&self) -> (r: Measurement)
        ensures
            r@ == self@,
    {
        Measurement { id: self.id, quantity: self.quantity, unit: self.unit.duplicate() }
    }
}

/// A catalog ingredient; identity is the stable `id`.
#[derive(Debug, PartialEq, Eq)]
pub struct Ingredient {
    pub id: i64,
    pub display_singular: String,
}

/// Mathematical image of an [`Ingredient`].
pub struct IngredientView {
    pub id: i64,
    pub display_singular: Seq<char>,
}

impl View for Ingredient {
    type V = IngredientView;

    open spec fn view(&self) -> IngredientView {
        IngredientView { id: self.id, display_singular: self.display_singular@ }
    }
}

impl Ingredient {
    /// A field-exact copy.
    pub fn duplicate(&self) -> (r: Ingredient)
        ensures
            r@ == self@,
    {
        Ingredient { id: self.id, display_singular: self.display_singular.clone() }
    }
}

/// An ingredient together with its stated measurements within one recipe.
#[derive(Debug, PartialEq, Eq)]
pub struct Component {
    pub ingredient: Ingredient,
    pub measurements: Vec<Measurement>,
}

/// Mathematical image of a [`Component`].
pub struct ComponentView {
    pub ingredient: IngredientView,
    pub measurements: Seq<MeasurementView>,
}

impl View for Component {
    type V = ComponentView;

    open spec fn view(&self) -> ComponentView {
        ComponentView {
            ingredient: self.ingredient@,
            measurements: self.measurements@.map_values(|m: Measurement| m@),
        }
    }
}

/// All quantities of these measurements are well-formed fractions.
pub open spec fn measurements_wf(s: Seq<MeasurementView>) -> bool {
    forall|i: int| 0 <= i < s.len() ==> (#[trigger] s[i]).quantity.wf()
}

impl Component {
    /// All quantities of the component are well-formed fractions.
    pub open spec fn wf(self) -> bool {
        measurements_wf(self@.measurements)
    }

    /// A field-exact copy.
    pub fn duplicate(&self) -> (r: Component)
        ensures
            r@ == self@,
    {
        let mut ms: Vec<Measurement> = Vec::new();
        let mut i: usize = 0;
        while i < self.measurements.len()
            invariant
                i <= self.measurements@.len(),
                ms@.len() == i,
                forall|j: int| 0 <= j < i ==> (#[trigger] ms@[j])@ == self.measurements@[j]@,
            decreases self.measurements@.len() - i,
        {
            ms.push(self.measurements[i].duplicate());
            i = i + 1;
        }
        let r = Component { ingredient: self.ingredient.duplicate(), measurements: ms };
        proof {
            assert forall|j: int| 0 <= j < r@.measurements.len() implies r@.measurements[j]
                == self@.measurements[j] by {
                assert(r@.measurements[j] == ms@[j]@);
                assert(self@.measurements[j] == self.measurements@[j]@);
            }
            assert(r@.measurements =~= self@.measurements);
        }
        r
    }
}

/// Merging was asked of two components with different ingredients.
#[derive(Clone, Copy, Debug, PartialEq, Eq, Structural)]
pub struct IncompatibleComponentError;

impl IncompatibleComponentError {
    /// The error text.
    pub fn message(&self) -> (r: &'static str)
        ensures
            r@ == "Components must have the same ingredients in order to add their amounts."@,
    {
        "Components must have the same ingredients in order to add their amounts."
    }
}

/// Why two components could not be merged.
#[derive(Clone, Copy, Debug, PartialEq, Eq, Structural)]
pub enum ComponentAddError {
    /// The ingredients differ; merging is a contract violation.
    Incompatible(IncompatibleComponentError),
    /// An exact quantity sum is not representable.
    Overflow,
}

/// Merges one left-hand measurement against every right-hand measurement
/// whose unit name matches: one summed measurement per matching pair, with
/// the left-hand side's metadata. `None` when an exact sum is out of range.
pub open spec fn spec_merge_one(m: MeasurementView, b: Seq<MeasurementView>) -> Option<
    Seq<MeasurementView>,
>
    decreases b.len(),
{
    if b.len() == 0 {
        Some(Seq::empty())
    } else {
        let rest = spec_merge_one(m, b.drop_first());
        if b[0].unit.name == m.unit.name {
            match spec_quantity_plus(m.quantity, b[0].quantity) {
                None => None,
                Some(q) => match rest {
                    None => None,
                    Some(r) => Some(
                        seq![MeasurementView { id: m.id, quantity: q, unit: m.unit }] + r,
                    ),
                },
            }
        } else {
            rest
        }
    }
}

/// Pairwise merge of two measurement lists: for every pair with equal unit
/// names, in left-then-right order, one summed measurement; pairs with
/// differing units are dropped.
pub open spec fn spec_merge(a: Seq<MeasurementView>, b: Seq<MeasurementView>) -> Option<
    Seq<MeasurementView>,
>
    decreases a.len(),
{
    if a.len() == 0 {
        Some(Seq::empty())
    } else {
        match spec_merge_one(a[0], b) {
            None => None,
            Some(first) => match spec_merge(a.drop_first(), b) {
                None => None,
                Some(rest) => Some(first + rest),
            },
        }
    }
}

impl Component {
    /// Merges two components of the same ingredient by pairwise-merging
    /// their measurements; fails when the ingredients differ, and when an
    /// exact quantity sum is not representable.
    pub fn add(&self, rhs: &Component) -> (r: Result<Component, ComponentAddError>)
        requires
            self.wf(),
            rhs.wf(),
        ensures
            self@.ingredient.id != rhs@.ingredient.id <==> r == Err::<Component, _>(
                ComponentAddError::Incompatible(IncompatibleComponentError),
            ),
            self@.ingredient.id == rhs@.ingredient.id && spec_merge(
                self@.measurements,
                rhs@.measurements,
            ) is None <==> r == Err::<Component, _>(ComponentAddError::Overflow),
            r matches Ok(c) ==> {
                &&& c@.ingredient == self@.ingredient
                &&& Some(c@.measurements) == spec_merge(self@.measurements, rhs@.measurements)
                &&& c.wf()
            },
    {
        if self.ingredient.id != rhs.ingredient.id {
            return Err(ComponentAddError::Incompatible(IncompatibleComponentError));
        }
        let ghost a = self@.measurements;
        let ghost b = rhs@.measurements;
        let ghost fm = |m2: Measurement| m2@;
        let mut out: Vec<Measurement> = Vec::new();
        let mut i: usize = 0;
        proof {
            assert(a.skip(0) =~= a);
            assert(out@.map_values(fm) =~= Seq::<MeasurementView>::empty());
            if spec_merge(a, b) is Some {
                assert(Seq::<MeasurementView>::empty() + spec_merge(a, b)->Some_0 =~= spec_merge(
                    a,
                    b,
                )->Some_0);
            }
        }
        while i < self.measurements.len()
            invariant
                i <= a.len(),
                self.wf(),
                rhs.wf(),
                fm == (|m2: Measurement| m2@),
                a == self@.measurements,
                b == rhs@.measurements,
                self@.ingredient.id == rhs@.ingredient.id,
                measurements_wf(out@.map_values(fm)),
                match spec_merge(a.skip(i as int), b) {
                    Some(rest) => spec_merge(a, b) == Some(out@.map_values(fm) + rest),
                    None => spec_merge(a, b) is None,
                },
            decreases a.len() - i,
        {
            let m = &self.measurements[i];
            proof {
                assert(a.skip(i as int)[0] == m@);
                assert(a.skip(i as int).drop_first() =~= a.skip(i + 1));
            }
            let mut j: usize = 0;
            let ghost out_snap = out@.map_values(fm);
            proof {
                assert(b.skip(0) =~= b);
                assert(out@.map_values(fm).take(out_snap.len() as int) =~= out_snap);
                assert(out@.map_values(fm).skip(out_snap.len() as int) =~= Seq::<
                    MeasurementView,
                >::empty());
                if spec_merge_one(m@, b) is Some {
                    assert(Seq::<MeasurementView>::empty() + spec_merge_one(m@, b)->Some_0
                        =~= spec_merge_one(m@, b)->Some_0);
                }
            }
            while j < rhs.measurements.len()
                invariant
                    j <= b.len(),
                    self.wf(),
                    rhs.wf(),
                    i < a.len(),
                    fm == (|m2: Measurement| m2@),
                    a == self@.measurements,
                    b == rhs@.measurements,
                    self@.ingredient.id == rhs@.ingredient.id,
                    m == &self.measurements[i as int],
                    m@ == a[i as int],
                    m@.quantity.wf(),
                    measurements_wf(out@.map_values(fm)),
                    out_snap.len() <= out@.len(),
                    out@.map_values(fm).take(out_snap.len() as int) =~= out_snap,
                    match spec_merge(a.skip(i as int), b) {
                        Some(rest) => spec_merge(a, b) == Some(out_snap + rest),
                        None => spec_merge(a, b) is None,
                    },
                    match spec_merge_one(m@, b.skip(j as int)) {
                        Some(rest) => spec_merge_one(m@, b) == Some(
                            out@.map_values(fm).skip(out_snap.len() as int) + rest,
                        ),
                        None => spec_merge_one(m@, b) is None,
                    },
                decreases b.len() - j,
            {
                let bm = &rhs.measurements[j];
                proof {
                    assert(b.skip(j as int)[0] == bm@);
                    assert(b.skip(j as int).drop_first() =~= b.skip(j + 1));
                }
                if eq_str(&bm.unit.name, &m.unit.name) {
                    match m.quantity.plus(bm.quantity) {
                        None => {
                            proof {
                                assert(spec_merge_one(m@, b.skip(j as int)) is None);
                                assert(spec_merge_one(m@, b) is None);
                                assert(spec_merge(a.skip(i as int), b) is None);
                                assert(spec_merge(a, b) is None);
                            }
                            return Err(ComponentAddError::Overflow);
                        },
                        Some(q) => {
                            let nm = Measurement {
                                id: m.id,
                                quantity: q,
                                unit: m.unit.duplicate(),
                            };
                            let ghost old_map = out@.map_values(fm);
                            proof {
                                assert(nm@ == (MeasurementView {
                                    id: m@.id,
                                    quantity: q,
                                    unit: m@.unit,
                                }));
                            }
                            out.push(nm);
                            proof {
                                assert(out@.map_values(fm) =~= old_map.push(nm@));
                                assert(out@.map_values(fm).take(out_snap.len() as int)
                                    =~= out_snap);
                                assert(out@.map_values(fm).skip(out_snap.len() as int)
                                    =~= old_map.skip(out_snap.len() as int).push(nm@));
                                assert(seq![nm@] + spec_merge_one(m@, b.skip(j + 1))->Some_0
                                    =~= seq![nm@] + spec_merge_one(m@, b.skip(j + 1))->Some_0);
                                if spec_merge_one(m@, b.skip(j + 1)) is Some {
                                    let rest2 = spec_merge_one(m@, b.skip(j + 1))->Some_0;
                                    assert(spec_merge_one(m@, b.skip(j as int)) == Some(
                                        seq![nm@] + rest2,
                                    ));
                                    assert(old_map.skip(out_snap.len() as int) + (seq![nm@]
                                        + rest2) =~= old_map.skip(out_snap.len() as int).push(nm@)
                                        + rest2);
                                }
                            }
                        },
                    }
                } else {
                    proof {
                        assert(bm@.unit.name != m@.unit.name);
                    }
                }
                j = j + 1;
            }
            proof {
                assert(b.skip(b.len() as int) =~= Seq::<MeasurementView>::empty());
                let outv = out@.map_values(fm);
                let first = outv.skip(out_snap.len() as int);
                assert(first + Seq::<MeasurementView>::empty() =~= first);
                assert(spec_merge_one(m@, b) == Some(first));
                assert(out_snap + first =~= outv);
                match spec_merge(a.skip(i + 1), b) {
                    Some(rest) => {
                        assert(spec_merge(a.skip(i as int), b) == Some(first + rest));
                        assert(out_snap + (first + rest) =~= outv + rest);
                    },
                    None => {
                        assert(spec_merge(a.skip(i as int), b) is None);
                    },
                }
            }
            i = i + 1;
        }
        proof {
            assert(a.skip(a.len() as int) =~= Seq::<MeasurementView>::empty());
            if spec_merge(a, b) is Some {
                assert(out@.map_values(fm) + Seq::<MeasurementView>::empty() =~= out@.map_values(
                    fm,
                ));
            }
        }
        let c = Component { ingredient: self.ingredient.duplicate(), measurements: out };
        proof {
            assert(c@.measurements =~= c.measurements@.map_values(fm));
            match spec_merge(a, b) {
                Some(ms) => {
                    assert(c@.measurements =~= ms);
                },
                None => {
                },
            }
        }
        Ok(c)
    }
}

/// The merge of two components as a value: fails exactly when the
/// ingredients differ, or when an exact quantity sum is out of range.
pub open spec fn spec_component_add(a: ComponentView, b: ComponentView) -> Result<
    ComponentView,
    ComponentAddError,
> {
    if a.ingredient.id != b.ingredient.id {
        Err(ComponentAddError::Incompatible(IncompatibleComponentError))
    } else {
        match spec_merge(a.measurements, b.measurements) {
            None => Err(ComponentAddError::Overflow),
            Some(ms) => Ok(ComponentView { ingredient: a.ingredient, measurements: ms }),
        }
    }
}

/// Law: merging two components of the same ingredient that each state one
/// measurement in a common unit yields one component with a single
/// measurement whose quantity is the exact sum of the two inputs, carrying
/// the left-hand measurement's identity and unit.
pub proof fn lemma_merge_common_unit(a: ComponentView, b: ComponentView, q: Quantity)
    requires
        a.ingredient.id == b.ingredient.id,
        a.measurements.len() == 1,
        b.measurements.len() == 1,
        a.measurements[0].unit.name == b.measurements[0].unit.name,
        spec_quantity_plus(a.measurements[0].quantity, b.measurements[0].quantity) == Some(q),
    ensures
        spec_component_add(a, b) == Ok::<_, ComponentAddError>(
            ComponentView {
                ingredient: a.ingredient,
                measurements: seq![
                    MeasurementView {
                        id: a.measurements[0].id,
                        quantity: q,
                        unit: a.measurements[0].unit,
                    },
                ],
            },
        ),
{
    let m1 = a.measurements[0];
    let m2 = b.measurements[0];
    let nm = MeasurementView { id: m1.id, quantity: q, unit: m1.unit };
    assert(b.measurements.drop_first() =~= Seq::<MeasurementView>::empty());
    assert(spec_merge_one(m1, b.measurements.drop_first()) == Some(
        Seq::<MeasurementView>::empty(),
    ));
    assert(spec_merge_one(m1, b.measurements) == Some(seq![nm] + Seq::<MeasurementView>::empty()));
    assert(seq![nm] + Seq::<MeasurementView>::empty() =~= seq![nm]);
    assert(a.measurements.drop_first() =~= Seq::<MeasurementView>::empty());
    assert(spec_merge(a.measurements.drop_first(), b.measurements) == Some(
        Seq::<MeasurementView>::empty(),
    ));
    assert(spec_merge(a.measurements, b.measurements) == Some(
        seq![nm] + Seq::<MeasurementView>::empty(),
    ));
}

/// String equality by characters.
fn eq_str(a: &String, b: &String) -> (r: bool)
    ensures
        r <==> a@ == b@,
{
    a.eq(b)
}

/// A titled group of components inside a recipe.
#[derive(Debug, PartialEq, Eq)]
pub struct Section {
    pub components: Vec<Component>,
}

/// Mathematical image of a [`Section`].
pub struct SectionView {
    pub components: Seq<ComponentView>,
}

impl View for Section {
    type V = SectionView;

    open spec fn view(&self) -> SectionView {
        SectionView { components: self.components@.map_values(|c: Component| c@) }
    }
}

/// A catalog tag reference carried by a recipe.
#[derive(Clone, Copy, Debug, PartialEq, Eq, Structural)]
pub struct Tag {
    pub id: i64,
}

/// A catalog recipe with its sections and tags.
#[derive(Debug, PartialEq, Eq)]
pub struct Recipe {
    pub name: String,
    pub id: i64,
    pub slug: String,
    pub sections: Vec<Section>,
    pub tags: Vec<Tag>,
}

/// Mathematical image of a [`Recipe`].
pub struct RecipeView {
    pub name: Seq<char>,
    pub id: i64,
    pub slug: Seq<char>,
    pub sections: Seq<SectionView>,
    pub tags: Seq<Tag>,
}

impl View for Recipe {
    type V = RecipeView;

    open spec fn view(&self) -> RecipeView {
        RecipeView {
            name: self.name@,
            id: self.id,
            slug: self.slug@,
            sections: self.sections@.map_values(|s: Section| s@),
            tags: self.tags@,
        }
    }
}

/// One page of catalog results.
#[derive(Debug)]
pub struct RecipeList {
    pub count: i32,
    pub results: Vec<Recipe>,
}

/// The components of one recipe, in section order then component order.
pub open spec fn components_of_recipe(r: RecipeView) -> Seq<ComponentView> {
    r.sections.map_values(|s: SectionView| s.components).flatten()
}

/// The components of many recipes, in recipe order then section order then
/// component order.
pub open spec fn components_of_recipes(rs: Seq<RecipeView>) -> Seq<ComponentView> {
    rs.map_values(|r: RecipeView| components_of_recipe(r)).flatten()
}

/// Flattens every component of every section of every recipe, in order.
pub fn get_components(recipes: &Vec<Recipe>) -> (r: Vec<Component>)
    ensures
        r@.map_values(|c: Component| c@) == components_of_recipes(
            recipes@.map_values(|rec: Recipe| rec@),
        ),
{
    let ghost rviews = recipes@.map_values(|rec: Recipe| rec@);
    let mut ret: Vec<Component> = Vec::new();
    let mut i: usize = 0;
    proof {
        lemma_flatten_take(rviews.map_values(|r: RecipeView| components_of_recipe(r)), 0);
        assert(ret@.map_values(|c: Component| c@) =~= components_of_recipes(rviews.take(0)));
    }
    while i < recipes.len()
        invariant
            i <= rviews.len(),
            rviews == recipes@.map_values(|rec: Recipe| rec@),
            ret@.map_values(|c: Component| c@) == components_of_recipes(rviews.take(i as int)),
        decreases rviews.len() - i,
    {
        let recipe = &recipes[i];
        let ghost svs = recipe@.sections.map_values(|s: SectionView| s.components);
        let mut j: usize = 0;
        let ghost ret0 = ret@.map_values(|c: Component| c@);
        while j < recipe.sections.len()
            invariant
                j <= svs.len(),
                i < rviews.len(),
                rviews == recipes@.map_values(|rec: Recipe| rec@),
                recipe == &recipes[i as int],
                svs == recipe@.sections.map_values(|s: SectionView| s.components),
                ret@.map_values(|c: Component| c@) == ret0 + components_of_recipe_take(
                    recipe@,
                    j as int,
                ),
            decreases svs.len() - j,
        {
            let section = &recipe.sections[j];
            let mut k: usize = 0;
            let ghost ret1 = ret@.map_values(|c: Component| c@);
            while k < section.components.len()
                invariant
                    k <= section@.components.len(),
                    i < rviews.len(),
                    j < svs.len(),
                    rviews == recipes@.map_values(|rec: Recipe| rec@),
                    recipe == &recipes[i as int],
                    section == &recipe.sections[j as int],
                    svs == recipe@.sections.map_values(|s: SectionView| s.components),
                    ret@.map_values(|c: Component| c@) == ret1 + section@.components.take(
                        k as int,
                    ),
                decreases section@.components.len() - k,
            {
                ret.push(section.components[k].duplicate());
                k = k + 1;
                proof {
                    let f = |c: Component| c@;
                    assert(section@.components[k - 1] == section.components@.map_values(f)[k - 1]);
                    assert(section@.components.take(k as int) =~= section@.components.take(
                        k - 1,
                    ).push(section@.components[k - 1]));
                    assert(ret@.map_values(f) =~= (ret1 + section@.components.take(k - 1)).push(
                        section@.components[k - 1],
                    ));
                    assert(ret@.map_values(f) =~= ret1 + section@.components.take(k as int));
                }
            }
            j = j + 1;
            proof {
                assert(section@.components.take(section@.components.len() as int)
                    =~= section@.components);
                assert(svs[j - 1] == section@.components);
                lemma_flatten_take(svs, j as int);
                lemma_flatten_take(svs, j - 1);
                assert(svs.take(j as int).drop_last() =~= svs.take(j - 1));
                assert(svs.take(j as int).last() == svs[j - 1]);
                assert(components_of_recipe_take(recipe@, j as int)
                    == components_of_recipe_take(recipe@, j - 1) + svs[j - 1]);
                assert(ret@.map_values(|c: Component| c@) =~= ret0 + components_of_recipe_take(
                    recipe@,
                    j as int,
                ));
            }
        }
        i = i + 1;
        proof {
            assert(svs.take(svs.len() as int) =~= svs);
            assert(components_of_recipe_take(recipe@, svs.len() as int)
                == components_of_recipe(recipe@));
            let cs = rviews.map_values(|r: RecipeView| components_of_recipe(r));
            lemma_flatten_take(cs, i as int);
            lemma_flatten_take(cs, i - 1);
            assert(cs.take(i as int).drop_last() =~= cs.take(i - 1));
            assert(cs.take(i as int).last() == cs[i - 1]);
            assert(rviews.take(i as int).map_values(|r: RecipeView| components_of_recipe(r))
                =~= cs.take(i as int));
            assert(rviews.take(i - 1).map_values(|r: RecipeView| components_of_recipe(r))
                =~= cs.take(i - 1));
            assert(rviews[i - 1] == recipe@);
            assert(ret@.map_values(|c: Component| c@) =~= components_of_recipes(
                rviews.take(i as int),
            ));
        }
    }
    proof {
        assert(rviews.take(rviews.len() as int) =~= rviews);
    }
    ret
}

/// The first `j` sections' components of a recipe, flattened.
pub open spec fn components_of_recipe_take(r: RecipeView, j: int) -> Seq<ComponentView> {
    r.sections.map_values(|s: SectionView| s.components).take(j).flatten()
}

/// Flattening a prefix grows one block at a time.
proof fn lemma_flatten_take<A>(s: Seq<Seq<A>>, j: int)
    requires
        0 <= j <= s.len(),
    ensures
        j == 0 ==> s.take(j).flatten() == Seq::<A>::empty(),
        j > 0 ==> s.take(j).flatten() == s.take(j - 1).flatten() + s[j - 1],
    decreases j,
{
    if j == 0 {
        assert(s.take(0) =~= Seq::<Seq<A>>::empty());
        assert(Seq::<Seq<A>>::empty().flatten() =~= Seq::<A>::empty());
    } else {
        let pre = s.take(j);
        assert(pre =~= s.take(j - 1).push(s[j - 1]));
        lemma_flatten_push(s.take(j - 1), s[j - 1]);
    }
}

/// `flatten` distributes over `push`.
proof fn lemma_flatten_push<A>(s: Seq<Seq<A>>, x: Seq<A>)
    ensures
        s.push(x).flatten() == s.flatten() + x,
    decreases s.len(),
{
    if s.len() == 0 {
        assert(s.push(x) =~= seq![x]);
        assert(seq![x].drop_first() =~= Seq::<Seq<A>>::empty());
        assert(Seq::<Seq<A>>::empty().flatten() == Seq::<A>::empty());
        assert(seq![x].flatten() == x + Seq::<A>::empty());
        assert(seq![x].flatten() =~= x);
        assert(s.flatten() =~= Seq::<A>::empty());
        assert(s.flatten() + x =~= x);
    } else {
        assert(s.push(x).drop_first() =~= s.drop_first().push(x));
        lemma_flatten_push(s.drop_first(), x);
        assert(s.push(x).flatten() == s.push(x)[0] + s.push(x).drop_first().flatten());
        assert(s.push(x)[0] == s[0]);
        assert(s.flatten() == s[0] + s.drop_first().flatten());
        assert(s[0] + (s.drop_first().flatten() + x) =~= (s[0] + s.drop_first().flatten()) + x);
    }
}

} // verus!
