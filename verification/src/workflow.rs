//! The two-phase workflow: modes, ratings, and the state machine over the
//! persistent store.

use vstd::prelude::*;
use vstd::string::*;
use crate::store::{Data, PreviousRecipe, RecipeTag, Tag};
use crate::store::Recipe as StoredRecipe;
use crate::store::RecipeRowView;

verus! {

/// The workflow phase: gathering new recipes, or reviewing the last batch.
#[derive(Clone, Copy, Debug, PartialEq, Eq, Structural)]
pub enum Mode {
    Prepare,
    Review,
}

/// The persisted integer of a mode.
pub open spec fn mode_value(m: Mode) -> int {
    match m {
        Mode::Prepare => 0,
        Mode::Review => 1,
    }
}

/// A persisted mode value outside the closed set; the store is corrupt.
#[derive(Clone, Copy, Debug, PartialEq, Eq, Structural)]
pub struct ModeValueError {
    pub value: i64,
}

impl Mode {
    /// The integer this mode is persisted as.
    pub fn value(&self) -> (r: i64)
        ensures
            r == mode_value(*self),
    {
        match *self {
            Mode::Prepare => 0,
            Mode::Review => 1,
        }
    }

    /// The mode a persisted integer stands for; fails loudly on any other
    /// value rather than guessing.
    pub fn from_value(v: i64) -> (r: Result<Mode, ModeValueError>)
        ensures
            v == 0 ==> r == Ok::<Mode, ModeValueError>(Mode::Prepare),
            v == 1 ==> r == Ok::<Mode, ModeValueError>(Mode::Review),
            v != 0 && v != 1 ==> r == Err::<Mode, ModeValueError>(ModeValueError { value: v }),
    {
        if v == 0 {
            Ok(Mode::Prepare)
        } else if v == 1 {
            Ok(Mode::Review)
        } else {
            Err(ModeValueError { value: v })
        }
    }
}

/// Law: the mode mapping round-trips — reading back a persisted mode value
/// yields the same mode, and only the two persisted values are accepted.
pub proof fn lemma_mode_value_round_trip(m: Mode)
    ensures
        0 <= mode_value(m) <= 1,
        m == Mode::Prepare <==> mode_value(m) == 0,
        m == Mode::Review <==> mode_value(m) == 1,
{
}

/// A user's reaction to one recipe.
#[derive(Clone, Copy, Debug, PartialEq, Eq, Structural)]
pub enum Rating {
    Dislike,
    Neutral,
    Like,
    Love,
}

/// The signed weight a rating adds to every tag of the rated recipe.
pub open spec fn rating_value(r: Rating) -> int {
    match r {
        Rating::Dislike => -1,
        Rating::Neutral => 0,
        Rating::Like => 1,
        Rating::Love => 2,
    }
}

/// ASCII lowercase of one character.
pub open spec fn lower_char(c: char) -> char {
    if 'A' <= c && c <= 'Z' {
        ((c as u8) + 32) as char
    } else {
        c
    }
}

/// ASCII lowercase of a string.
pub open spec fn lower_of(s: Seq<char>) -> Seq<char> {
    s.map_values(|c: char| lower_char(c))
}

/// Compares a string against an already-lowercase word, ignoring ASCII case.
fn eq_ignore_case(s: &str, w: &str) -> (b: bool)
    ensures
        b <==> lower_of(s@) == w@,
{
    let n = s.unicode_len();
    if n != w.unicode_len() {
        proof {
            assert(lower_of(s@).len() == s@.len());
        }
        return false;
    }
    let mut i: usize = 0;
    while i < n
        invariant
            i <= n,
            n == s@.len(),
            n == w@.len(),
            forall|k: int| 0 <= k < i ==> lower_char(s@[k]) == w@[k],
        decreases n - i,
    {
        let c = s.get_char(i);
        let d = w.get_char(i);
        let cl = if c >= 'A' && c <= 'Z' {
            ((c as u8) + 32) as char
        } else {
            c
        };
        if cl != d {
            proof {
                assert(lower_of(s@)[i as int] == lower_char(s@[i as int]));
            }
            return false;
        }
        i = i + 1;
    }
    proof {
        assert(lower_of(s@) =~= w@);
    }
    true
}

impl Rating {
    /// The signed integer this rating is persisted as.
    pub fn value(&self) -> (r: i64)
        ensures
            r == rating_value(*self),
    {
        match *self {
            Rating::Dislike => -1,
            Rating::Neutral => 0,
            Rating::Like => 1,
            Rating::Love => 2,
        }
    }

    /// The rating's word, as prompted for.
    pub fn label(&self) -> (r: &'static str)
        ensures
            r@ == rating_label(*self),
    {
        match *self {
            Rating::Dislike => "dislike",
            Rating::Neutral => "none",
            Rating::Like => "like",
            Rating::Love => "love",
        }
    }

    /// Reads a rating word, ignoring ASCII case; any other word is rejected
    /// with the reprompt message.
    pub fn parse(s: &str) -> (r: Result<Rating, &'static str>)
        ensures
            r is Ok <==> (lower_of(s@) == "dislike"@ || lower_of(s@) == "none"@ || lower_of(s@)
                == "like"@ || lower_of(s@) == "love"@),
            r matches Ok(x) ==> (x == Rating::Dislike <==> lower_of(s@) == "dislike"@) && (x
                == Rating::Neutral <==> lower_of(s@) == "none"@) && (x == Rating::Like <==> lower_of(
                s@,
            ) == "like"@) && (x == Rating::Love <==> lower_of(s@) == "love"@),
            r matches Err(m) ==> m@ == "Please enter dislike, none, like, or love."@,
    {
        proof {
            reveal_strlit("dislike");
            reveal_strlit("none");
            reveal_strlit("like");
            reveal_strlit("love");
            assert("dislike"@.len() == 7);
            assert("none"@.len() == 4);
            assert("like"@.len() == 4);
            assert("love"@.len() == 4);
            assert("like"@[1] == 'i' && "love"@[1] == 'o');
            assert("none"@[0] == 'n' && "like"@[0] == 'l' && "love"@[0] == 'l');
            assert("dislike"@ != "none"@ && "dislike"@ != "like"@ && "dislike"@ != "love"@);
            assert("none"@ != "like"@ && "none"@ != "love"@);
            assert("like"@ != "love"@);
        }
        if eq_ignore_case(s, "dislike") {
            Ok(Rating::Dislike)
        } else if eq_ignore_case(s, "none") {
            Ok(Rating::Neutral)
        } else if eq_ignore_case(s, "like") {
            Ok(Rating::Like)
        } else if eq_ignore_case(s, "love") {
            Ok(Rating::Love)
        } else {
            Err("Please enter dislike, none, like, or love.")
        }
    }
}

/// The word of a rating.
pub open spec fn rating_label(r: Rating) -> Seq<char> {
    match r {
        Rating::Dislike => "dislike"@,
        Rating::Neutral => "none"@,
        Rating::Like => "like"@,
        Rating::Love => "love"@,
    }
}

/// Law: each rating's own word parses back to that rating.
pub proof fn lemma_rating_label_round_trip(r: Rating)
    ensures
        lower_of(rating_label(r)) == rating_label(r),
{
    reveal_strlit("dislike");
    reveal_strlit("none");
    reveal_strlit("like");
    reveal_strlit("love");
    match r {
        Rating::Dislike => {
            assert(lower_of("dislike"@) =~= "dislike"@);
        },
        Rating::Neutral => {
            assert(lower_of("none"@) =~= "none"@);
        },
        Rating::Like => {
            assert(lower_of("like"@) =~= "like"@);
        },
        Rating::Love => {
            assert(lower_of("love"@) =~= "love"@);
        },
    }
}

impl core::str::FromStr for Rating {
    type Err = &'static str;

    fn from_str(s: &str) -> Result<Self, Self::Err> {
        Rating::parse(s)
    }
}

/// The whole persistent state of the planner: the workflow record and every
/// table of the store, as one value.
pub struct PlannerState {
    pub data: Data,
    pub tags: Vec<Tag>,
    pub recipes: Vec<StoredRecipe>,
    pub recipe_tags: Vec<RecipeTag>,
    pub previous_recipes: Vec<PreviousRecipe>,
}

/// Mathematical image of a [`PlannerState`].
pub struct PlannerStateView {
    pub data: Data,
    pub tags: Seq<Tag>,
    pub recipes: Seq<RecipeRowView>,
    pub recipe_tags: Seq<RecipeTag>,
    pub previous_recipes: Seq<PreviousRecipe>,
}

impl View for PlannerState {
    type V = PlannerStateView;

    open spec fn view(&self) -> PlannerStateView {
        PlannerStateView {
            data: self.data,
            tags: self.tags@,
            recipes: self.recipes@.map_values(|r: StoredRecipe| r@),
            recipe_tags: self.recipe_tags@,
            previous_recipes: self.previous_recipes@,
        }
    }
}

/// Some stored recipe row has this id.
pub open spec fn contains_recipe_id(rows: Seq<RecipeRowView>, id: i64) -> bool {
    exists|k: int| 0 <= k < rows.len() && rows[k].id == id
}

/// Some tag row has this id.
pub open spec fn contains_tag_id(tags: Seq<Tag>, id: i64) -> bool {
    exists|k: int| 0 <= k < tags.len() && tags[k].id == id
}

impl PlannerStateView {
    /// The state is internally consistent: the offset never runs backwards
    /// past zero, every relationship points at a stored tag, and every
    /// pending entry points at a stored recipe.
    pub open spec fn wf(self) -> bool {
        &&& self.data.offset >= 0
        &&& forall|k: int| 0 <= k < self.recipe_tags.len() ==> contains_tag_id(
            self.tags,
            (#[trigger] self.recipe_tags[k]).tag_id,
        )
        &&& forall|k: int| 0 <= k < self.previous_recipes.len() ==> contains_recipe_id(
            self.recipes,
            (#[trigger] self.previous_recipes[k]).recipe_id,
        )
    }
}

/// Signed saturating addition.
pub open spec fn sat_add_i64(a: int, b: int) -> int {
    if a + b > i64::MAX {
        i64::MAX as int
    } else if a + b < i64::MIN {
        i64::MIN as int
    } else {
        a + b
    }
}

/// Ensures-if-absent of one tag row at score zero.
pub open spec fn sv_store_tag(sv: PlannerStateView, tag_id: i64) -> PlannerStateView {
    if contains_tag_id(sv.tags, tag_id) {
        sv
    } else {
        PlannerStateView { tags: sv.tags.push(Tag { id: tag_id, likes: 0 }), ..sv }
    }
}

/// One recipe-to-tag relationship, with the tag stored first.
pub open spec fn sv_store_rel(sv: PlannerStateView, recipe_id: i64, tag_id: i64) -> PlannerStateView {
    let sv1 = sv_store_tag(sv, tag_id);
    PlannerStateView {
        recipe_tags: sv1.recipe_tags.push(RecipeTag { recipe_id, tag_id }),
        ..sv1
    }
}

/// All of one recipe's relationships, in tag order.
pub open spec fn sv_store_rels(
    sv: PlannerStateView,
    recipe_id: i64,
    tags: Seq<crate::catalog::Tag>,
) -> PlannerStateView
    decreases tags.len(),
{
    if tags.len() == 0 {
        sv
    } else {
        sv_store_rel(sv_store_rels(sv, recipe_id, tags.drop_last()), recipe_id, tags.last().id)
    }
}

/// One selected recipe persisted: its row if absent, then its relationships.
pub open spec fn sv_store_recipe(sv: PlannerStateView, r: crate::catalog::RecipeView) -> PlannerStateView {
    let sv1 = if contains_recipe_id(sv.recipes, r.id) {
        sv
    } else {
        PlannerStateView { recipes: sv.recipes.push(RecipeRowView { id: r.id, name: r.name }), ..sv }
    };
    sv_store_rels(sv1, r.id, r.tags)
}

/// One selected recipe persisted and marked pending.
pub open spec fn sv_store_selected(sv: PlannerStateView, r: crate::catalog::RecipeView) -> PlannerStateView {
    let sv1 = sv_store_recipe(sv, r);
    PlannerStateView {
        previous_recipes: sv1.previous_recipes.push(PreviousRecipe { recipe_id: r.id }),
        ..sv1
    }
}

/// A whole selected batch persisted and marked pending, in order.
pub open spec fn sv_store_batch(sv: PlannerStateView, rs: Seq<crate::catalog::RecipeView>) -> PlannerStateView
    decreases rs.len(),
{
    if rs.len() == 0 {
        sv
    } else {
        sv_store_selected(sv_store_batch(sv, rs.drop_last()), rs.last())
    }
}

impl PlannerState {
    /// The state of a fresh installation: gathering, nothing consumed,
    /// nothing stored.
    pub fn initial() -> (r: PlannerState)
        ensures
            r@.data == (Data { mode: Mode::Prepare, offset: 0 }),
            r@.tags == Seq::<Tag>::empty(),
            r@.recipes == Seq::<RecipeRowView>::empty(),
            r@.recipe_tags == Seq::<RecipeTag>::empty(),
            r@.previous_recipes == Seq::<PreviousRecipe>::empty(),
            r@.wf(),
    {
        let r = PlannerState {
            data: Data { mode: Mode::Prepare, offset: 0 },
            tags: Vec::new(),
            recipes: Vec::new(),
            recipe_tags: Vec::new(),
            previous_recipes: Vec::new(),
        };
        proof {
            assert(r@.recipes =~= Seq::<RecipeRowView>::empty());
        }
        r
    }

    /// The current phase.
    pub fn get_mode(&self) -> (r: Mode)
        ensures
            r == self@.data.mode,
    {
        self.data.mode
    }

    /// How many recipes have been consumed from the catalog.
    pub fn get_offset(&self) -> (r: i64)
        ensures
            r == self@.data.offset,
    {
        self.data.offset
    }

    /// Whether a recipe id was ever stored: the recipe history.
    pub fn recipe_exists(&self, recipe_id: i64) -> (r: bool)
        ensures
            r == contains_recipe_id(self@.recipes, recipe_id),
    {
        let mut k: usize = 0;
        while k < self.recipes.len()
            invariant
                k <= self.recipes@.len(),
                self@.recipes.len() == self.recipes@.len(),
                forall|j: int| 0 <= j < k ==> (#[trigger] self@.recipes[j]).id != recipe_id,
            decreases self.recipes@.len() - k,
        {
            proof {
                assert(self@.recipes[k as int] == self.recipes@[k as int]@);
            }
            if self.recipes[k].id == recipe_id {
                return true;
            }
            k = k + 1;
        }
        false
    }

    /// Stores a tag at score zero unless it is already known.
    pub fn store_tag(&mut self, tag_id: i64)
        ensures
            final(self)@ == sv_store_tag(old(self)@, tag_id),
    {
        let mut k: usize = 0;
        while k < self.tags.len()
            invariant
                k <= self.tags@.len(),
                forall|j: int| 0 <= j < k ==> (#[trigger] self.tags@[j]).id != tag_id,
            decreases self.tags@.len() - k,
        {
            if self.tags[k].id == tag_id {
                return ;
            }
            k = k + 1;
        }
        proof {
            assert(!contains_tag_id(self@.tags, tag_id));
        }
        self.tags.push(Tag { id: tag_id, likes: 0 });
    }

    /// Stores one recipe-to-tag relationship, storing the tag first.
    pub fn store_recipe_tag_relationship(&mut self, recipe_id: i64, tag_id: i64)
        ensures
            final(self)@ == sv_store_rel(old(self)@, recipe_id, tag_id),
    {
        self.store_tag(tag_id);
        self.recipe_tags.push(RecipeTag { recipe_id, tag_id });
    }

    /// Stores a recipe row unless known, then each of its tag relationships.
    pub fn store_recipe(&mut self, recipe: &crate::catalog::Recipe)
        ensures
            final(self)@ == sv_store_recipe(old(self)@, recipe@),
    {
        if !self.recipe_exists(recipe.id) {
            self.recipes.push(StoredRecipe { id: recipe.id, name: recipe.name.clone() });
            proof {
                assert(self@.recipes =~= old(self)@.recipes.push(
                    RecipeRowView { id: recipe@.id, name: recipe@.name },
                ));
            }
        }
        let ghost sv1 = self@;
        let ghost rtags = recipe@.tags;
        let mut k: usize = 0;
        proof {
            assert(rtags.take(0) =~= Seq::<crate::catalog::Tag>::empty());
        }
        while k < recipe.tags.len()
            invariant
                k <= rtags.len(),
                rtags == recipe@.tags,
                rtags.len() == recipe.tags@.len(),
                self@ == sv_store_rels(sv1, recipe@.id, rtags.take(k as int)),
            decreases rtags.len() - k,
        {
            proof {
                assert(rtags[k as int] == recipe.tags@[k as int]);
            }
            self.store_recipe_tag_relationship(recipe.id, recipe.tags[k].id);
            k = k + 1;
            proof {
                assert(rtags.take(k as int).drop_last() =~= rtags.take(k - 1));
                assert(rtags.take(k as int).last() == rtags[k - 1]);
            }
        }
        proof {
            assert(rtags.take(rtags.len() as int) =~= rtags);
        }
    }

    /// Marks a recipe as pending review.
    pub fn store_previous_recipe(&mut self, recipe: &crate::catalog::Recipe)
        ensures
            final(self)@ == (PlannerStateView {
                previous_recipes: old(self)@.previous_recipes.push(
                    PreviousRecipe { recipe_id: recipe@.id },
                ),
                ..old(self)@
            }),
    {
        self.previous_recipes.push(PreviousRecipe { recipe_id: recipe.id });
    }

    /// Adds a rating's weight to every tag row of the given id, saturating
    /// at the machine bounds.
    pub fn update_tag_likes(&mut self, id: i64, value: i64)
        ensures
            final(self)@ == (PlannerStateView {
                tags: sv_apply_one(old(self)@.tags, id, value as int),
                ..old(self)@
            }),
    {
        let ghost tags0 = self.tags@;
        let mut k: usize = 0;
        while k < self.tags.len()
            invariant
                k <= tags0.len(),
                self.tags@.len() == tags0.len(),
                self.data == old(self).data,
                self.recipes == old(self).recipes,
                self.recipe_tags == old(self).recipe_tags,
                self.previous_recipes == old(self).previous_recipes,
                tags0 == old(self).tags@,
                forall|j: int| 0 <= j < k ==> self.tags@[j] == #[trigger] sv_apply_one(
                    tags0,
                    id,
                    value as int,
                )[j],
                forall|j: int| k <= j < tags0.len() ==> self.tags@[j] == tags0[j],
            decreases tags0.len() - k,
        {
            let t = self.tags[k];
            if t.id == id {
                let nl = match t.likes.checked_add(value) {
                    Some(v) => v,
                    None => {
                        if value > 0 {
                            i64::MAX
                        } else {
                            i64::MIN
                        }
                    },
                };
                self.tags.set(k, Tag { id: t.id, likes: nl });
            }
            k = k + 1;
            proof {
                assert(sv_apply_one(tags0, id, value as int)[k - 1] == (if tags0[k - 1].id == id {
                    Tag { id: tags0[k - 1].id, likes: sat_add_i64(tags0[k - 1].likes as int, value as int) as i64 }
                } else {
                    tags0[k - 1]
                }));
            }
        }
        proof {
            assert(self.tags@ =~= sv_apply_one(tags0, id, value as int));
        }
    }

    /// Clears the pending batch.
    pub fn delete_previous_recipes(&mut self)
        ensures
            final(self)@ == (PlannerStateView {
                previous_recipes: Seq::<PreviousRecipe>::empty(),
                ..old(self)@
            }),
    {
        self.previous_recipes.clear();
        proof {
            assert(self.previous_recipes@ =~= Seq::<PreviousRecipe>::empty());
        }
    }

    /// Sets the workflow phase.
    pub fn set_mode(&mut self, mode: Mode)
        ensures
            final(self)@ == (PlannerStateView {
                data: Data { mode, offset: old(self)@.data.offset },
                ..old(self)@
            }),
    {
        self.data.mode = mode;
    }

    /// Advances the consumed-recipe count, saturating at the machine bound.
    pub fn increment_offset(&mut self, n: i64)
        ensures
            final(self)@ == (PlannerStateView {
                data: Data {
                    mode: old(self)@.data.mode,
                    offset: sat_add_i64(old(self)@.data.offset as int, n as int) as i64,
                },
                ..old(self)@
            }),
    {
        let nv = match self.data.offset.checked_add(n) {
            Some(v) => v,
            None => {
                if n > 0 {
                    i64::MAX
                } else {
                    i64::MIN
                }
            },
        };
        self.data.offset = nv;
    }
}

/// One rating applied to one tag id: every row of that id moves by the
/// rating's weight, saturating.
pub open spec fn sv_apply_one(tags: Seq<Tag>, id: i64, v: int) -> Seq<Tag> {
    tags.map_values(
        |t: Tag|
            if t.id == id {
                Tag { id: t.id, likes: sat_add_i64(t.likes as int, v) as i64 }
            } else {
                t
            },
    )
}

/// The candidates whose ids are not yet in the recipe history, in order.
pub open spec fn spec_remove_duplicates(
    rs: Seq<crate::catalog::RecipeView>,
    known: Seq<RecipeRowView>,
) -> Seq<crate::catalog::RecipeView>
    decreases rs.len(),
{
    if rs.len() == 0 {
        Seq::empty()
    } else {
        let pre = spec_remove_duplicates(rs.drop_last(), known);
        if contains_recipe_id(known, rs.last().id) {
            pre
        } else {
            pre.push(rs.last())
        }
    }
}

/// Law: filtering keeps only offered candidates, and none that the history
/// already holds.
pub proof fn lemma_remove_duplicates_props(
    rs: Seq<crate::catalog::RecipeView>,
    known: Seq<RecipeRowView>,
)
    ensures
        forall|k: int|
            0 <= k < spec_remove_duplicates(rs, known).len() ==> rs.contains(
                #[trigger] spec_remove_duplicates(rs, known)[k],
            ) && !contains_recipe_id(known, spec_remove_duplicates(rs, known)[k].id),
    decreases rs.len(),
{
    if rs.len() > 0 {
        lemma_remove_duplicates_props(rs.drop_last(), known);
        let pre = spec_remove_duplicates(rs.drop_last(), known);
        let out = spec_remove_duplicates(rs, known);
        assert forall|k: int| 0 <= k < out.len() implies rs.contains(#[trigger] out[k])
            && !contains_recipe_id(known, out[k].id) by {
            if k < pre.len() {
                assert(out[k] == pre[k]);
                assert(rs.drop_last().contains(pre[k]));
                let m = choose|m: int| 0 <= m < rs.drop_last().len() && rs.drop_last()[m] == pre[k];
                assert(rs[m] == pre[k]);
            } else {
                assert(out[k] == rs.last());
                assert(rs[rs.len() - 1] == rs.last());
            }
        }
    }
}

/// Drops every candidate whose id is already in the recipe history.
pub fn remove_duplicate_recipes(
    recipes: Vec<crate::catalog::Recipe>,
    known: &Vec<StoredRecipe>,
) -> (r: Vec<crate::catalog::Recipe>)
    ensures
        r@.map_values(|x: crate::catalog::Recipe| x@) == spec_remove_duplicates(
            recipes@.map_values(|x: crate::catalog::Recipe| x@),
            known@.map_values(|x: StoredRecipe| x@),
        ),
{
    let ghost fv = |x: crate::catalog::Recipe| x@;
    let ghost kv = |x: StoredRecipe| x@;
    let ghost orig = recipes@;
    let ghost knownv = known@.map_values(kv);
    let mut rest = recipes;
    let mut out: Vec<crate::catalog::Recipe> = Vec::new();
    proof {
        assert(orig.skip(0) =~= orig);
        assert(orig.map_values(fv).take(0) =~= Seq::<crate::catalog::RecipeView>::empty());
        assert(spec_remove_duplicates(orig.map_values(fv).take(0), knownv) =~= Seq::<
            crate::catalog::RecipeView,
        >::empty());
        assert(out@.map_values(fv) =~= Seq::<crate::catalog::RecipeView>::empty());
    }
    while rest.len() > 0
        invariant
            fv == (|x: crate::catalog::Recipe| x@),
            kv == (|x: StoredRecipe| x@),
            knownv == known@.map_values(kv),
            rest@.len() <= orig.len(),
            rest@ == orig.skip((orig.len() - rest@.len()) as int),
            out@.map_values(fv) == spec_remove_duplicates(
                orig.map_values(fv).take((orig.len() - rest@.len()) as int),
                knownv,
            ),
        decreases rest@.len(),
    {
        let ghost done = (orig.len() - rest@.len()) as int;
        proof {
            assert(rest@[0] == orig[done]);
            assert(orig.map_values(fv)[done] == orig[done]@);
        }
        let r0 = rest.remove(0);
        proof {
            assert(rest@ =~= orig.skip(done + 1));
        }
        // Is the id already known?
        let mut hit = false;
        let mut k: usize = 0;
        while k < known.len()
            invariant
                k <= known@.len(),
                kv == (|x: StoredRecipe| x@),
                knownv == known@.map_values(kv),
                !hit ==> forall|j: int| 0 <= j < k ==> (#[trigger] knownv[j]).id != r0@.id,
                hit ==> contains_recipe_id(knownv, r0@.id),
            decreases known@.len() - k,
        {
            proof {
                assert(knownv[k as int] == known@[k as int]@);
            }
            if known[k].id == r0.id {
                hit = true;
            }
            k = k + 1;
        }
        let ghost outv = out@.map_values(fv);
        if !hit {
            out.push(r0);
            proof {
                assert(out@.map_values(fv) =~= outv.push(orig[done]@));
            }
        }
        proof {
            let pv = orig.map_values(fv);
            assert(pv.take(done + 1).drop_last() =~= pv.take(done));
            assert(pv.take(done + 1).last() == pv[done]);
            assert(out@.map_values(fv) =~= spec_remove_duplicates(pv.take(done + 1), knownv));
        }
    }
    proof {
        assert(orig.map_values(fv).take(orig.len() as int) =~= orig.map_values(fv));
        assert(out@.map_values(|x: crate::catalog::Recipe| x@) =~= out@.map_values(fv));
        assert(orig.map_values(|x: crate::catalog::Recipe| x@) =~= orig.map_values(fv));
    }
    out
}

/// What one gather phase selects: the not-yet-served candidates, ranked, the
/// best `n` taken.
pub open spec fn gather_selected(
    sv: PlannerStateView,
    page: Seq<crate::catalog::RecipeView>,
    n: int,
) -> Seq<crate::catalog::RecipeView> {
    crate::scoring::spec_matching(spec_remove_duplicates(page, sv.recipes), n, sv.tags)
}

/// The state after a successful gather phase: the batch persisted and marked
/// pending, the offset advanced by the requested count, the mode moved to
/// review.
pub open spec fn sv_gather(
    sv: PlannerStateView,
    page: Seq<crate::catalog::RecipeView>,
    n: int,
) -> PlannerStateView {
    let sv1 = sv_store_batch(sv, gather_selected(sv, page, n));
    PlannerStateView {
        data: Data { mode: Mode::Review, offset: sat_add_i64(sv.data.offset as int, n) as i64 },
        ..sv1
    }
}

/// Storing relationships touches only the tag table and the relation table.
proof fn lemma_store_rels_effects(
    sv: PlannerStateView,
    recipe_id: i64,
    tags: Seq<crate::catalog::Tag>,
)
    ensures
        sv_store_rels(sv, recipe_id, tags).data == sv.data,
        sv_store_rels(sv, recipe_id, tags).recipes == sv.recipes,
        sv_store_rels(sv, recipe_id, tags).previous_recipes == sv.previous_recipes,
    decreases tags.len(),
{
    if tags.len() > 0 {
        lemma_store_rels_effects(sv, recipe_id, tags.drop_last());
    }
}

/// Law: persisting a batch never rewrites history — the stored recipes grow
/// by appending only, the mode and offset stay, and exactly the batch's ids
/// are appended to the pending relation, in order.
pub proof fn lemma_store_batch_effects(sv: PlannerStateView, rs: Seq<crate::catalog::RecipeView>)
    ensures
        sv_store_batch(sv, rs).data == sv.data,
        sv_store_batch(sv, rs).previous_recipes == sv.previous_recipes + rs.map_values(
            |r: crate::catalog::RecipeView| PreviousRecipe { recipe_id: r.id },
        ),
        sv.recipes.is_prefix_of(sv_store_batch(sv, rs).recipes),
        forall|id: i64|
            contains_recipe_id(sv.recipes, id) ==> contains_recipe_id(
                sv_store_batch(sv, rs).recipes,
                id,
            ),
    decreases rs.len(),
{
    let fp = |r: crate::catalog::RecipeView| PreviousRecipe { recipe_id: r.id };
    if rs.len() == 0 {
        assert(sv.previous_recipes + rs.map_values(fp) =~= sv.previous_recipes);
        assert(sv.recipes.is_prefix_of(sv.recipes)) by {
            assert(sv.recipes.subrange(0, sv.recipes.len() as int) =~= sv.recipes);
        }
    } else {
        lemma_store_batch_effects(sv, rs.drop_last());
        let svp = sv_store_batch(sv, rs.drop_last());
        let r = rs.last();
        let sv1 = if contains_recipe_id(svp.recipes, r.id) {
            svp
        } else {
            PlannerStateView {
                recipes: svp.recipes.push(RecipeRowView { id: r.id, name: r.name }),
                ..svp
            }
        };
        lemma_store_rels_effects(sv1, r.id, r.tags);
        assert(sv.previous_recipes + rs.drop_last().map_values(fp) + seq![fp(r)]
            =~= sv.previous_recipes + rs.map_values(fp)) by {
            assert(rs.map_values(fp) =~= rs.drop_last().map_values(fp).push(fp(r)));
        }
        assert(sv.recipes.is_prefix_of(sv1.recipes)) by {
            if !contains_recipe_id(svp.recipes, r.id) {
                assert(svp.recipes.push(RecipeRowView { id: r.id, name: r.name }).subrange(
                    0,
                    sv.recipes.len() as int,
                ) =~= svp.recipes.subrange(0, sv.recipes.len() as int));
            }
        }
        assert forall|id: i64|
            contains_recipe_id(sv.recipes, id) implies contains_recipe_id(
            sv_store_batch(sv, rs).recipes,
            id,
        ) by {
            if contains_recipe_id(svp.recipes, id) {
                let k = choose|k: int|
                    0 <= k < svp.recipes.len() && svp.recipes[k].id == id;
                assert(sv1.recipes[k].id == id);
            }
        }
    }
}

/// Law: a recipe already in the history is never selected by a gather phase.
pub proof fn lemma_gather_never_reserves(
    sv: PlannerStateView,
    page: Seq<crate::catalog::RecipeView>,
    n: int,
)
    requires
        n >= 0,
    ensures
        forall|k: int|
            0 <= k < gather_selected(sv, page, n).len() ==> !contains_recipe_id(
                sv.recipes,
                (#[trigger] gather_selected(sv, page, n)[k]).id,
            ),
{
    let filtered = spec_remove_duplicates(page, sv.recipes);
    crate::scoring::lemma_matching_members(filtered, n, sv.tags);
    lemma_remove_duplicates_props(page, sv.recipes);
    let sel = gather_selected(sv, page, n);
    assert forall|k: int| 0 <= k < sel.len() implies !contains_recipe_id(
        sv.recipes,
        (#[trigger] sel[k]).id,
    ) by {
        assert(filtered.contains(sel[k]));
        let m = choose|m: int| 0 <= m < filtered.len() && filtered[m] == sel[k];
        assert(!contains_recipe_id(sv.recipes, filtered[m].id));
    }
}

/// What one successful gather phase hands back: the selected batch and the
/// rendered shopping list.
pub struct GatherOutcome {
    pub selected: Vec<crate::catalog::Recipe>,
    pub shopping_list: String,
}

impl PlannerState {
    /// One gather phase over an already-fetched catalog page: filter the
    /// page against the history, pick the `n_recipes` best by tag
    /// preference, render their consolidated shopping list, then persist the
    /// batch, advance the offset by the requested count and move to review.
    /// A failure changes nothing.
    pub fn run_gather(
        &mut self,
        page: Vec<crate::catalog::Recipe>,
        n_recipes: usize,
    ) -> (r: Result<GatherOutcome, crate::catalog::ComponentAddError>)
        requires
            old(self)@.data.mode == Mode::Prepare,
            n_recipes <= i64::MAX,
            forall|k: int|
                0 <= k < page@.len() ==> crate::list::recipe_wf((#[trigger] page@[k])@),
        ensures
            ({
                let pv = page@.map_values(|x: crate::catalog::Recipe| x@);
                let sel = gather_selected(old(self)@, pv, n_recipes as int);
                let listing = crate::list::spec_consolidate(
                    crate::catalog::components_of_recipes(sel),
                );
                &&& (r is Ok <==> listing is Ok)
                &&& (r matches Ok(o) ==> {
                    &&& o.selected@.map_values(|x: crate::catalog::Recipe| x@) == sel
                    &&& o.shopping_list@ == crate::list::shopping_list_text(listing->Ok_0)
                    &&& final(self)@ == sv_gather(old(self)@, pv, n_recipes as int)
                    &&& final(self)@.data.mode == Mode::Review
                    &&& final(self)@.data.offset == sat_add_i64(
                        old(self)@.data.offset as int,
                        n_recipes as int,
                    ) as i64
                    &&& final(self)@.previous_recipes == old(self)@.previous_recipes
                        + sel.map_values(
                        |x: crate::catalog::RecipeView| PreviousRecipe { recipe_id: x.id },
                    )
                    &&& old(self)@.recipes.is_prefix_of(final(self)@.recipes)
                })
                &&& (r matches Err(e) ==> listing == Err::<
                    Seq<crate::catalog::ComponentView>,
                    _,
                >(e) && final(self)@ == old(self)@)
            }),
    {
        let ghost fv = |x: crate::catalog::Recipe| x@;
        let ghost pv = page@.map_values(fv);
        let ghost sv0 = self@;
        let unique = remove_duplicate_recipes(page, &self.recipes);
        let selected = crate::scoring::get_matching_recipes(unique, n_recipes, &self.tags);
        let ghost sel = gather_selected(sv0, pv, n_recipes as int);
        proof {
            assert(pv =~= page@.map_values(|x: crate::catalog::Recipe| x@));
            assert(selected@.map_values(fv) =~= sel);
            lemma_remove_duplicates_props(pv, sv0.recipes);
            crate::scoring::lemma_matching_members(
                spec_remove_duplicates(pv, sv0.recipes),
                n_recipes as int,
                sv0.tags,
            );
            assert forall|k: int| 0 <= k < sel.len() implies crate::list::recipe_wf(
                #[trigger] sel[k],
            ) by {
                let filtered = spec_remove_duplicates(pv, sv0.recipes);
                assert(filtered.contains(sel[k]));
                let m = choose|m: int| 0 <= m < filtered.len() && filtered[m] == sel[k];
                assert(pv.contains(filtered[m]));
                let j = choose|j: int| 0 <= j < pv.len() && pv[j] == filtered[m];
                assert(pv[j] == page@[j]@);
            }
            crate::list::lemma_components_of_recipes_wf(sel);
        }
        let components = crate::catalog::get_components(&selected);
        let shopping_list = match crate::list::make_shopping_list(components) {
            Ok(s) => s,
            Err(e) => {
                return Err(e);
            },
        };
        // Persist the batch, advance, and hand the batch back.
        let mut i: usize = 0;
        proof {
            assert(sel.take(0) =~= Seq::<crate::catalog::RecipeView>::empty());
        }
        while i < selected.len()
            invariant
                i <= selected@.len(),
                fv == (|x: crate::catalog::Recipe| x@),
                sel == selected@.map_values(fv),
                self@ == sv_store_batch(sv0, sel.take(i as int)),
            decreases selected@.len() - i,
        {
            proof {
                assert(sel[i as int] == selected@[i as int]@);
            }
            self.store_recipe(&selected[i]);
            self.store_previous_recipe(&selected[i]);
            i = i + 1;
            proof {
                assert(sel.take(i as int).drop_last() =~= sel.take(i - 1));
                assert(sel.take(i as int).last() == sel[i - 1]);
            }
        }
        proof {
            assert(sel.take(sel.len() as int) =~= sel);
        }
        self.increment_offset(n_recipes as i64);
        self.set_mode(Mode::Review);
        proof {
            lemma_store_batch_effects(sv0, sel);
            assert(self@ == sv_gather(sv0, pv, n_recipes as int));
        }
        Ok(GatherOutcome { selected, shopping_list })
    }
}

/// One rating applied to every tag of one recipe, in relation order.
pub open spec fn sv_rate_one(tags: Seq<Tag>, rels: Seq<RecipeTag>, rid: i64, v: int) -> Seq<Tag>
    decreases rels.len(),
{
    if rels.len() == 0 {
        tags
    } else {
        let t1 = if rels[0].recipe_id == rid {
            sv_apply_one(tags, rels[0].tag_id, v)
        } else {
            tags
        };
        sv_rate_one(t1, rels.drop_first(), rid, v)
    }
}

/// The tag table after rating every pending recipe, in order.
pub open spec fn sv_review_tags(
    tags: Seq<Tag>,
    rels: Seq<RecipeTag>,
    prev: Seq<PreviousRecipe>,
    ratings: Seq<Rating>,
) -> Seq<Tag>
    decreases prev.len(),
{
    if prev.len() == 0 || ratings.len() == 0 {
        tags
    } else {
        sv_review_tags(
            sv_rate_one(tags, rels, prev[0].recipe_id, rating_value(ratings[0])),
            rels,
            prev.drop_first(),
            ratings.drop_first(),
        )
    }
}

impl PlannerState {
    /// One review phase: apply each rating to every tag of its pending
    /// recipe, in order, then clear the pending batch and return to
    /// gathering.
    pub fn run_review(&mut self, ratings: &Vec<Rating>)
        requires
            old(self)@.data.mode == Mode::Review,
            ratings@.len() == old(self)@.previous_recipes.len(),
        ensures
            final(self)@ == (PlannerStateView {
                data: Data { mode: Mode::Prepare, offset: old(self)@.data.offset },
                tags: sv_review_tags(
                    old(self)@.tags,
                    old(self)@.recipe_tags,
                    old(self)@.previous_recipes,
                    ratings@,
                ),
                previous_recipes: Seq::<PreviousRecipe>::empty(),
                ..old(self)@
            }),
    {
        let ghost sv0 = self@;
        let ghost prev = sv0.previous_recipes;
        let ghost rels = sv0.recipe_tags;
        let mut k: usize = 0;
        proof {
            assert(prev.skip(0) =~= prev);
            assert(ratings@.skip(0) =~= ratings@);
        }
        while k < self.previous_recipes.len()
            invariant
                k <= prev.len(),
                ratings@.len() == prev.len(),
                self.previous_recipes@ == prev,
                self.recipe_tags@ == rels,
                self.data == sv0.data,
                self@.recipes == sv0.recipes,
                sv_review_tags(sv0.tags, rels, prev, ratings@) == sv_review_tags(
                    self@.tags,
                    rels,
                    prev.skip(k as int),
                    ratings@.skip(k as int),
                ),
            decreases prev.len() - k,
        {
            let ghost tags_at_k = self@.tags;
            let rid = self.previous_recipes[k].recipe_id;
            let rating = ratings[k];
            let v = rating.value();
            proof {
                assert(prev.skip(k as int)[0] == prev[k as int]);
                assert(ratings@.skip(k as int)[0] == ratings@[k as int]);
                assert(prev.skip(k as int).drop_first() =~= prev.skip(k + 1));
                assert(ratings@.skip(k as int).drop_first() =~= ratings@.skip(k + 1));
                assert(rels.skip(0) =~= rels);
            }
            let mut j: usize = 0;
            while j < self.recipe_tags.len()
                invariant
                    j <= rels.len(),
                    self.previous_recipes@ == prev,
                    self.recipe_tags@ == rels,
                    self.data == sv0.data,
                    self@.recipes == sv0.recipes,
                    sv_rate_one(tags_at_k, rels, rid, v as int) == sv_rate_one(
                        self@.tags,
                        rels.skip(j as int),
                        rid,
                        v as int,
                    ),
                decreases rels.len() - j,
            {
                proof {
                    assert(rels.skip(j as int)[0] == rels[j as int]);
                    assert(rels.skip(j as int).drop_first() =~= rels.skip(j + 1));
                }
                let rel = self.recipe_tags[j];
                if rel.recipe_id == rid {
                    self.update_tag_likes(rel.tag_id, v);
                }
                j = j + 1;
            }
            proof {
                assert(rels.skip(rels.len() as int) =~= Seq::<RecipeTag>::empty());
                assert(sv_rate_one(tags_at_k, rels, rid, v as int) == self@.tags);
            }
            k = k + 1;
        }
        proof {
            assert(prev.skip(prev.len() as int) =~= Seq::<PreviousRecipe>::empty());
        }
        self.delete_previous_recipes();
        self.set_mode(Mode::Prepare);
    }
}

/// Applying a rating moves scores only: the tag ids stay, in place.
proof fn lemma_apply_one_ids(tags: Seq<Tag>, id: i64, v: int)
    ensures
        sv_apply_one(tags, id, v).len() == tags.len(),
        forall|k: int|
            0 <= k < tags.len() ==> (#[trigger] sv_apply_one(tags, id, v)[k]).id == tags[k].id,
{
}

proof fn lemma_rate_one_ids(tags: Seq<Tag>, rels: Seq<RecipeTag>, rid: i64, v: int)
    ensures
        sv_rate_one(tags, rels, rid, v).len() == tags.len(),
        forall|k: int|
            0 <= k < tags.len() ==> (#[trigger] sv_rate_one(tags, rels, rid, v)[k]).id
                == tags[k].id,
    decreases rels.len(),
{
    if rels.len() > 0 {
        let t1 = if rels[0].recipe_id == rid {
            sv_apply_one(tags, rels[0].tag_id, v)
        } else {
            tags
        };
        lemma_apply_one_ids(tags, rels[0].tag_id, v);
        lemma_rate_one_ids(t1, rels.drop_first(), rid, v);
    }
}

proof fn lemma_review_tags_ids(
    tags: Seq<Tag>,
    rels: Seq<RecipeTag>,
    prev: Seq<PreviousRecipe>,
    ratings: Seq<Rating>,
)
    ensures
        sv_review_tags(tags, rels, prev, ratings).len() == tags.len(),
        forall|k: int|
            0 <= k < tags.len() ==> (#[trigger] sv_review_tags(tags, rels, prev, ratings)[k]).id
                == tags[k].id,
    decreases prev.len(),
{
    if prev.len() > 0 && ratings.len() > 0 {
        let t1 = sv_rate_one(tags, rels, prev[0].recipe_id, rating_value(ratings[0]));
        lemma_rate_one_ids(tags, rels, prev[0].recipe_id, rating_value(ratings[0]));
        lemma_review_tags_ids(t1, rels, prev.drop_first(), ratings.drop_first());
    }
}

/// Law: a review phase keeps the state consistent, empties the pending batch
/// and returns to gathering — so the pending batch is empty whenever the
/// mode is gather.
pub proof fn lemma_review_preserves_wf(sv: PlannerStateView, ratings: Seq<Rating>)
    requires
        sv.wf(),
    ensures
        (PlannerStateView {
            data: Data { mode: Mode::Prepare, offset: sv.data.offset },
            tags: sv_review_tags(sv.tags, sv.recipe_tags, sv.previous_recipes, ratings),
            previous_recipes: Seq::<PreviousRecipe>::empty(),
            ..sv
        }).wf(),
{
    let tags2 = sv_review_tags(sv.tags, sv.recipe_tags, sv.previous_recipes, ratings);
    lemma_review_tags_ids(sv.tags, sv.recipe_tags, sv.previous_recipes, ratings);
    assert forall|k: int| 0 <= k < sv.recipe_tags.len() implies contains_tag_id(
        tags2,
        (#[trigger] sv.recipe_tags[k]).tag_id,
    ) by {
        let m = choose|m: int|
            0 <= m < sv.tags.len() && sv.tags[m].id == sv.recipe_tags[k].tag_id;
        assert(tags2[m].id == sv.recipe_tags[k].tag_id);
    }
}

/// Storing one tag keeps every known tag and makes the stored one known.
proof fn lemma_store_tag_covers(sv: PlannerStateView, tag_id: i64)
    ensures
        sv_store_tag(sv, tag_id).recipes == sv.recipes,
        sv_store_tag(sv, tag_id).recipe_tags == sv.recipe_tags,
        sv_store_tag(sv, tag_id).previous_recipes == sv.previous_recipes,
        sv_store_tag(sv, tag_id).data == sv.data,
        contains_tag_id(sv_store_tag(sv, tag_id).tags, tag_id),
        forall|id: i64|
            contains_tag_id(sv.tags, id) ==> contains_tag_id(sv_store_tag(sv, tag_id).tags, id),
{
    let tags2 = sv_store_tag(sv, tag_id).tags;
    if !contains_tag_id(sv.tags, tag_id) {
        assert(tags2[sv.tags.len() as int].id == tag_id);
    }
    assert forall|id: i64| contains_tag_id(sv.tags, id) implies contains_tag_id(tags2, id) by {
        let k = choose|k: int| 0 <= k < sv.tags.len() && sv.tags[k].id == id;
        assert(tags2[k].id == id);
    }
}

/// Storing relationships keeps the relation-to-tag invariant.
proof fn lemma_store_rels_covers(
    sv: PlannerStateView,
    recipe_id: i64,
    tags: Seq<crate::catalog::Tag>,
)
    requires
        forall|k: int|
            0 <= k < sv.recipe_tags.len() ==> contains_tag_id(
                sv.tags,
                (#[trigger] sv.recipe_tags[k]).tag_id,
            ),
    ensures
        forall|k: int|
            0 <= k < sv_store_rels(sv, recipe_id, tags).recipe_tags.len() ==> contains_tag_id(
                sv_store_rels(sv, recipe_id, tags).tags,
                (#[trigger] sv_store_rels(sv, recipe_id, tags).recipe_tags[k]).tag_id,
            ),
        forall|id: i64|
            contains_tag_id(sv.tags, id) ==> contains_tag_id(
                sv_store_rels(sv, recipe_id, tags).tags,
                id,
            ),
    decreases tags.len(),
{
    if tags.len() > 0 {
        lemma_store_rels_covers(sv, recipe_id, tags.drop_last());
        let svp = sv_store_rels(sv, recipe_id, tags.drop_last());
        lemma_store_tag_covers(svp, tags.last().id);
        let sv1 = sv_store_tag(svp, tags.last().id);
        let out = sv_store_rel(svp, recipe_id, tags.last().id);
        assert forall|k: int| 0 <= k < out.recipe_tags.len() implies contains_tag_id(
            out.tags,
            (#[trigger] out.recipe_tags[k]).tag_id,
        ) by {
            if k < svp.recipe_tags.len() {
                assert(out.recipe_tags[k] == svp.recipe_tags[k]);
            } else {
                assert(out.recipe_tags[k].tag_id == tags.last().id);
            }
        }
    }
}

/// Law: a gather phase keeps the state consistent: every relationship still
/// points at a stored tag, every pending entry at a stored recipe, and the
/// offset never falls below zero.
pub proof fn lemma_gather_preserves_wf(
    sv: PlannerStateView,
    page: Seq<crate::catalog::RecipeView>,
    n: int,
)
    requires
        sv.wf(),
        n >= 0,
    ensures
        sv_gather(sv, page, n).wf(),
{
    lemma_store_batch_wf(sv, gather_selected(sv, page, n));
}

/// Persisting a batch keeps the state consistent.
proof fn lemma_store_batch_wf(sv: PlannerStateView, rs: Seq<crate::catalog::RecipeView>)
    requires
        sv.wf(),
    ensures
        sv_store_batch(sv, rs).wf(),
        forall|id: i64|
            contains_recipe_id(sv.recipes, id) ==> contains_recipe_id(
                sv_store_batch(sv, rs).recipes,
                id,
            ),
        forall|id: i64|
            contains_tag_id(sv.tags, id) ==> contains_tag_id(sv_store_batch(sv, rs).tags, id),
        sv_store_batch(sv, rs).data == sv.data,
    decreases rs.len(),
{
    if rs.len() > 0 {
        lemma_store_batch_wf(sv, rs.drop_last());
        let svp = sv_store_batch(sv, rs.drop_last());
        let r = rs.last();
        let sv1 = if contains_recipe_id(svp.recipes, r.id) {
            svp
        } else {
            PlannerStateView {
                recipes: svp.recipes.push(RecipeRowView { id: r.id, name: r.name }),
                ..svp
            }
        };
        assert(contains_recipe_id(sv1.recipes, r.id)) by {
            if contains_recipe_id(svp.recipes, r.id) {
                let k = choose|k: int| 0 <= k < svp.recipes.len() && svp.recipes[k].id == r.id;
                assert(sv1.recipes[k].id == r.id);
            } else {
                assert(sv1.recipes[svp.recipes.len() as int].id == r.id);
            }
        }
        assert(sv1.wf()) by {
            assert forall|k: int| 0 <= k < sv1.previous_recipes.len() implies contains_recipe_id(
                sv1.recipes,
                (#[trigger] sv1.previous_recipes[k]).recipe_id,
            ) by {
                assert(sv1.previous_recipes[k] == svp.previous_recipes[k]);
                assert(contains_recipe_id(svp.recipes, svp.previous_recipes[k].recipe_id));
                let m = choose|m: int|
                    0 <= m < svp.recipes.len() && svp.recipes[m].id
                        == svp.previous_recipes[k].recipe_id;
                assert(sv1.recipes[m].id == svp.previous_recipes[k].recipe_id);
            }
        }
        lemma_store_rels_covers(sv1, r.id, r.tags);
        lemma_store_rels_effects(sv1, r.id, r.tags);
        let sv2 = sv_store_rels(sv1, r.id, r.tags);
        let out = sv_store_batch(sv, rs);
        assert(out.previous_recipes == sv2.previous_recipes.push(
            PreviousRecipe { recipe_id: r.id },
        ));
        assert(out.wf()) by {
            assert forall|k: int| 0 <= k < out.previous_recipes.len() implies contains_recipe_id(
                out.recipes,
                (#[trigger] out.previous_recipes[k]).recipe_id,
            ) by {
                if k < sv2.previous_recipes.len() {
                    assert(out.previous_recipes[k] == sv2.previous_recipes[k]);
                } else {
                    assert(out.previous_recipes[k].recipe_id == r.id);
                }
            }
        }
        assert forall|id: i64| contains_recipe_id(sv.recipes, id) implies contains_recipe_id(
            out.recipes,
            id,
        ) by {
            if contains_recipe_id(svp.recipes, id) {
                let k = choose|k: int| 0 <= k < svp.recipes.len() && svp.recipes[k].id == id;
                assert(sv1.recipes[k].id == id);
            }
        }
        assert forall|id: i64| contains_tag_id(sv.tags, id) implies contains_tag_id(
            out.tags,
            id,
        ) by {
            assert(contains_tag_id(svp.tags, id));
            assert(contains_tag_id(sv1.tags, id));
            assert(contains_tag_id(sv2.tags, id));
        }
    }
}

/// Index of the first stored recipe row with the given id, or `-1`.
pub open spec fn find_recipe_row(rows: Seq<RecipeRowView>, id: i64) -> int
    decreases rows.len(),
{
    if rows.len() == 0 {
        -1
    } else if rows[0].id == id {
        0
    } else {
        let r = find_recipe_row(rows.drop_first(), id);
        if r == -1 {
            -1
        } else {
            r + 1
        }
    }
}

proof fn lemma_find_recipe_row_at(rows: Seq<RecipeRowView>, id: i64, j: int)
    requires
        0 <= j <= rows.len(),
        forall|k: int| 0 <= k < j ==> (#[trigger] rows[k]).id != id,
        j < rows.len() ==> rows[j].id == id,
    ensures
        j < rows.len() ==> find_recipe_row(rows, id) == j,
        j == rows.len() ==> find_recipe_row(rows, id) == -1,
    decreases j,
{
    if rows.len() == 0 {
    } else if j == 0 {
    } else {
        lemma_find_recipe_row_at(rows.drop_first(), id, j - 1);
        assert(forall|k: int| 0 <= k < j - 1 ==> (#[trigger] rows.drop_first()[k]).id != id) by {
            assert(forall|k: int| 0 <= k < j - 1 ==> rows.drop_first()[k] == (#[trigger] rows[k + 1]));
        }
    }
}

/// Index of the first tag row with the given id, or `-1`.
pub open spec fn find_tag_row(tags: Seq<Tag>, id: i64) -> int
    decreases tags.len(),
{
    if tags.len() == 0 {
        -1
    } else if tags[0].id == id {
        0
    } else {
        let r = find_tag_row(tags.drop_first(), id);
        if r == -1 {
            -1
        } else {
            r + 1
        }
    }
}

proof fn lemma_find_tag_row_at(tags: Seq<Tag>, id: i64, j: int)
    requires
        0 <= j <= tags.len(),
        forall|k: int| 0 <= k < j ==> (#[trigger] tags[k]).id != id,
        j < tags.len() ==> tags[j].id == id,
    ensures
        j < tags.len() ==> find_tag_row(tags, id) == j,
        j == tags.len() ==> find_tag_row(tags, id) == -1,
    decreases j,
{
    if tags.len() == 0 {
    } else if j == 0 {
    } else {
        lemma_find_tag_row_at(tags.drop_first(), id, j - 1);
        assert(forall|k: int| 0 <= k < j - 1 ==> (#[trigger] tags.drop_first()[k]).id != id) by {
            assert(forall|k: int| 0 <= k < j - 1 ==> tags.drop_first()[k] == (#[trigger] tags[k + 1]));
        }
    }
}

/// The stored rows of the pending batch, in pending order; a pending id with
/// no stored row yields nothing.
pub open spec fn sv_previous_rows(rows: Seq<RecipeRowView>, prev: Seq<PreviousRecipe>) -> Seq<
    RecipeRowView,
>
    decreases prev.len(),
{
    if prev.len() == 0 {
        Seq::empty()
    } else {
        let rest = sv_previous_rows(rows, prev.drop_first());
        let f = find_recipe_row(rows, prev[0].recipe_id);
        if f == -1 {
            rest
        } else {
            seq![rows[f]] + rest
        }
    }
}

/// The tag rows of one recipe, one per relationship in relation order; a
/// relationship whose tag is missing yields nothing.
pub open spec fn sv_recipe_tag_rows(tags: Seq<Tag>, rels: Seq<RecipeTag>, rid: i64) -> Seq<Tag>
    decreases rels.len(),
{
    if rels.len() == 0 {
        Seq::empty()
    } else {
        let rest = sv_recipe_tag_rows(tags, rels.drop_first(), rid);
        if rels[0].recipe_id == rid {
            let f = find_tag_row(tags, rels[0].tag_id);
            if f == -1 {
                rest
            } else {
                seq![tags[f]] + rest
            }
        } else {
            rest
        }
    }
}

impl PlannerState {
    /// The pending batch joined with the stored recipes, in pending order.
    pub fn get_previous_recipes(&self) -> (r: Vec<StoredRecipe>)
        ensures
            r@.map_values(|x: StoredRecipe| x@) == sv_previous_rows(
                self@.recipes,
                self@.previous_recipes,
            ),
    {
        let ghost fv = |x: StoredRecipe| x@;
        let ghost rows = self@.recipes;
        let ghost prev = self@.previous_recipes;
        let mut out: Vec<StoredRecipe> = Vec::new();
        let mut k: usize = 0;
        proof {
            assert(prev.skip(0) =~= prev);
            assert(out@.map_values(fv) =~= Seq::<RecipeRowView>::empty());
            assert(Seq::<RecipeRowView>::empty() + sv_previous_rows(rows, prev)
                =~= sv_previous_rows(rows, prev));
        }
        while k < self.previous_recipes.len()
            invariant
                k <= prev.len(),
                fv == (|x: StoredRecipe| x@),
                rows == self@.recipes,
                prev == self@.previous_recipes,
                sv_previous_rows(rows, prev) == out@.map_values(fv) + sv_previous_rows(
                    rows,
                    prev.skip(k as int),
                ),
            decreases prev.len() - k,
        {
            let rid = self.previous_recipes[k].recipe_id;
            proof {
                assert(prev.skip(k as int)[0] == prev[k as int]);
                assert(prev.skip(k as int).drop_first() =~= prev.skip(k + 1));
            }
            let ghost outv = out@.map_values(fv);
            let mut j: usize = 0;
            while j < self.recipes.len()
                invariant
                    j <= rows.len(),
                    fv == (|x: StoredRecipe| x@),
                    rows == self@.recipes,
                    forall|m: int| 0 <= m < j ==> (#[trigger] rows[m]).id != rid,
                ensures
                    j <= rows.len(),
                    rows == self@.recipes,
                    forall|m: int| 0 <= m < j ==> (#[trigger] rows[m]).id != rid,
                    j < rows.len() ==> rows[j as int].id == rid,
                decreases rows.len() - j,
            {
                proof {
                    assert(rows[j as int] == self.recipes@[j as int]@);
                }
                if self.recipes[j].id == rid {
                    break ;
                }
                j = j + 1;
            }
            if j < self.recipes.len() {
                proof {
                    assert(rows[j as int] == self.recipes@[j as int]@);
                    lemma_find_recipe_row_at(rows, rid, j as int);
                }
                out.push(self.recipes[j].duplicate());
                proof {
                    assert(out@.map_values(fv) =~= outv.push(rows[j as int]));
                    assert(outv.push(rows[j as int]) =~= outv + seq![rows[j as int]]);
                    assert((outv + seq![rows[j as int]]) + sv_previous_rows(rows, prev.skip(k + 1))
                        =~= outv + (seq![rows[j as int]] + sv_previous_rows(
                        rows,
                        prev.skip(k + 1),
                    )));
                }
            } else {
                proof {
                    lemma_find_recipe_row_at(rows, rid, rows.len() as int);
                }
            }
            k = k + 1;
        }
        proof {
            assert(prev.skip(prev.len() as int) =~= Seq::<PreviousRecipe>::empty());
            assert(out@.map_values(fv) + Seq::<RecipeRowView>::empty() =~= out@.map_values(fv));
            assert(out@.map_values(|x: StoredRecipe| x@) =~= out@.map_values(fv));
        }
        out
    }

    /// The tag rows of one recipe, through the relation table, in order.
    pub fn get_recipe_tags(&self, recipe_id: i64) -> (r: Vec<Tag>)
        ensures
            r@ == sv_recipe_tag_rows(self@.tags, self@.recipe_tags, recipe_id),
    {
        let ghost tags = self@.tags;
        let ghost rels = self@.recipe_tags;
        let mut out: Vec<Tag> = Vec::new();
        let mut k: usize = 0;
        proof {
            assert(rels.skip(0) =~= rels);
            assert(Seq::<Tag>::empty() + sv_recipe_tag_rows(tags, rels, recipe_id)
                =~= sv_recipe_tag_rows(tags, rels, recipe_id));
        }
        while k < self.recipe_tags.len()
            invariant
                k <= rels.len(),
                tags == self@.tags,
                rels == self@.recipe_tags,
                sv_recipe_tag_rows(tags, rels, recipe_id) == out@ + sv_recipe_tag_rows(
                    tags,
                    rels.skip(k as int),
                    recipe_id,
                ),
            decreases rels.len() - k,
        {
            let rel = self.recipe_tags[k];
            proof {
                assert(rels.skip(k as int)[0] == rels[k as int]);
                assert(rels.skip(k as int).drop_first() =~= rels.skip(k + 1));
            }
            let ghost outv = out@;
            if rel.recipe_id == recipe_id {
                let mut j: usize = 0;
                while j < self.tags.len()
                    invariant
                        j <= tags.len(),
                        tags == self@.tags,
                        forall|m: int| 0 <= m < j ==> (#[trigger] tags[m]).id != rel.tag_id,
                    ensures
                        j <= tags.len(),
                        tags == self@.tags,
                        forall|m: int| 0 <= m < j ==> (#[trigger] tags[m]).id != rel.tag_id,
                        j < tags.len() ==> tags[j as int].id == rel.tag_id,
                    decreases tags.len() - j,
                {
                    if self.tags[j].id == rel.tag_id {
                        break ;
                    }
                    j = j + 1;
                }
                if j < self.tags.len() {
                    proof {
                        lemma_find_tag_row_at(tags, rel.tag_id, j as int);
                    }
                    out.push(self.tags[j]);
                    proof {
                        assert(out@ =~= outv + seq![tags[j as int]]);
                        assert((outv + seq![tags[j as int]]) + sv_recipe_tag_rows(
                            tags,
                            rels.skip(k + 1),
                            recipe_id,
                        ) =~= outv + (seq![tags[j as int]] + sv_recipe_tag_rows(
                            tags,
                            rels.skip(k + 1),
                            recipe_id,
                        )));
                    }
                } else {
                    proof {
                        lemma_find_tag_row_at(tags, rel.tag_id, tags.len() as int);
                    }
                }
            }
            k = k + 1;
        }
        proof {
            assert(rels.skip(rels.len() as int) =~= Seq::<RecipeTag>::empty());
            assert(out@ + Seq::<Tag>::empty() =~= out@);
        }
        out
    }
}

} // verus!
