//! Consolidating components into one entry per ingredient and rendering the
//! shopping list and recipe-link artifacts as text.

use vstd::prelude::*;
use vstd::string::*;
use crate::quantity::Quantity;
use crate::catalog::{
    Component, ComponentView, ComponentAddError, MeasurementView, Recipe, RecipeView,
    spec_component_add, measurements_wf,
};

verus! {

/// Index of the first component with the given ingredient id, or `-1`.
pub open spec fn find_component(acc: Seq<ComponentView>, id: i64) -> int
    decreases acc.len(),
{
    if acc.len() == 0 {
        -1
    } else if acc[0].ingredient.id == id {
        0
    } else {
        let r = find_component(acc.drop_first(), id);
        if r == -1 {
            -1
        } else {
            r + 1
        }
    }
}

/// The scan that found (or missed) a matching component agrees with
/// [`find_component`].
proof fn lemma_find_component_at(acc: Seq<ComponentView>, id: i64, j: int)
    requires
        0 <= j <= acc.len(),
        forall|k: int| 0 <= k < j ==> (#[trigger] acc[k]).ingredient.id != id,
        j < acc.len() ==> acc[j].ingredient.id == id,
    ensures
        j < acc.len() ==> find_component(acc, id) == j,
        j == acc.len() ==> find_component(acc, id) == -1,
    decreases j,
{
    if acc.len() == 0 {
    } else if j == 0 {
    } else {
        assert(acc[0].ingredient.id != id);
        lemma_find_component_at(acc.drop_first(), id, j - 1);
        assert(forall|k: int|
            0 <= k < j - 1 ==> (#[trigger] acc.drop_first()[k]).ingredient.id != id) by {
            assert(forall|k: int|
                0 <= k < j - 1 ==> acc.drop_first()[k] == (#[trigger] acc[k + 1]));
        }
    }
}

/// One step of consolidation: merge the component into the first entry of
/// the same ingredient, or append it.
pub open spec fn spec_insert(acc: Seq<ComponentView>, c: ComponentView) -> Result<
    Seq<ComponentView>,
    ComponentAddError,
> {
    let i = find_component(acc, c.ingredient.id);
    if i == -1 {
        Ok(acc.push(c))
    } else {
        match spec_component_add(acc[i], c) {
            Ok(m) => Ok(acc.update(i, m)),
            Err(e) => Err(e),
        }
    }
}

/// Consolidation of a component stream, in order: one entry per distinct
/// ingredient, at the position of its first occurrence.
pub open spec fn spec_consolidate(s: Seq<ComponentView>) -> Result<
    Seq<ComponentView>,
    ComponentAddError,
>
    decreases s.len(),
{
    if s.len() == 0 {
        Ok(Seq::empty())
    } else {
        match spec_consolidate(s.drop_last()) {
            Err(e) => Err(e),
            Ok(acc) => spec_insert(acc, s.last()),
        }
    }
}

/// All quantities in all components are well-formed fractions.
pub open spec fn components_wf(s: Seq<ComponentView>) -> bool {
    forall|i: int| 0 <= i < s.len() ==> measurements_wf((#[trigger] s[i]).measurements)
}

/// An error of a prefix settles the whole consolidation.
proof fn lemma_consolidate_err_persists(s: Seq<ComponentView>, m: int)
    requires
        0 <= m <= s.len(),
        spec_consolidate(s.take(m)) is Err,
    ensures
        spec_consolidate(s) == spec_consolidate(s.take(m)),
    decreases s.len() - m,
{
    if m == s.len() {
        assert(s.take(m) =~= s);
    } else {
        assert(s.take(m + 1).drop_last() =~= s.take(m));
        lemma_consolidate_err_persists(s, m + 1);
    }
}

/// Merges same-ingredient components of the stream into the first occurrence
/// of that ingredient, keeping first-seen order.
pub fn consolidate_components(components: &Vec<Component>) -> (r: Result<
    Vec<Component>,
    ComponentAddError,
>)
    requires
        components_wf(components@.map_values(|c: Component| c@)),
    ensures
        r matches Ok(v) ==> {
            &&& Ok::<_, ComponentAddError>(v@.map_values(|c: Component| c@)) == spec_consolidate(
                components@.map_values(|c: Component| c@),
            )
            &&& components_wf(v@.map_values(|c: Component| c@))
        },
        r matches Err(e) ==> spec_consolidate(components@.map_values(|c: Component| c@)) == Err::<
            Seq<ComponentView>,
            _,
        >(e),
{
    let ghost fc = |c: Component| c@;
    let ghost input = components@.map_values(fc);
    let mut combined: Vec<Component> = Vec::new();
    let mut i: usize = 0;
    proof {
        assert(input.take(0) =~= Seq::<ComponentView>::empty());
        assert(combined@.map_values(fc) =~= Seq::<ComponentView>::empty());
    }
    while i < components.len()
        invariant
            i <= input.len(),
            fc == (|c: Component| c@),
            input == components@.map_values(fc),
            input == components@.map_values(|c: Component| c@),
            components_wf(input),
            components_wf(combined@.map_values(fc)),
            spec_consolidate(input.take(i as int)) == Ok::<_, ComponentAddError>(
                combined@.map_values(fc),
            ),
        decreases input.len() - i,
    {
        let c = &components[i];
        proof {
            assert(input[i as int] == c@);
            assert(input.take(i + 1).drop_last() =~= input.take(i as int));
            assert(input.take(i + 1).last() == input[i as int]);
        }
        let ghost acc = combined@.map_values(fc);
        let mut j: usize = 0;
        let mut merged = false;
        while j < combined.len()
            invariant_except_break
                !merged,
                acc == combined@.map_values(fc),
            invariant
                j <= acc.len(),
                i < input.len(),
                fc == (|c2: Component| c2@),
                input == components@.map_values(fc),
                components_wf(input),
                spec_consolidate(input.take(i as int)) == Ok::<_, ComponentAddError>(acc),
                acc == combined@.map_values(fc) || merged,
                components_wf(combined@.map_values(fc)),
                measurements_wf(c@.measurements),
                c == &components[i as int],
                input[i as int] == c@,
                forall|k: int| 0 <= k < j ==> (#[trigger] acc[k]).ingredient.id
                    != c@.ingredient.id,
                merged ==> spec_insert(acc, c@) == Ok::<_, ComponentAddError>(
                    combined@.map_values(fc),
                ),
            ensures
                fc == (|c2: Component| c2@),
                c == &components[i as int],
                components_wf(combined@.map_values(fc)),
                merged ==> spec_insert(acc, c@) == Ok::<_, ComponentAddError>(
                    combined@.map_values(fc),
                ),
                !merged ==> combined@.map_values(fc) == acc && forall|k: int|
                    0 <= k < acc.len() ==> (#[trigger] acc[k]).ingredient.id != c@.ingredient.id,
            decreases acc.len() - j,
        {
            if combined[j].ingredient.id == c.ingredient.id {
                proof {
                    assert(acc[j as int] == combined@[j as int]@);
                    lemma_find_component_at(acc, c@.ingredient.id, j as int);
                }
                let m = match combined[j].add(c) {
                    Ok(m) => m,
                    Err(e) => {
                        proof {
                            assert(spec_component_add(acc[j as int], c@) == Err::<
                                ComponentView,
                                _,
                            >(e));
                            assert(spec_insert(acc, c@) == Err::<Seq<ComponentView>, _>(e));
                            assert(input.take(i + 1).drop_last() =~= input.take(i as int));
                            assert(input.take(i + 1).last() == input[i as int]);
                            assert(spec_consolidate(input.take(i + 1)) == Err::<
                                Seq<ComponentView>,
                                _,
                            >(e));
                            lemma_consolidate_err_persists(input, i + 1);
                            assert(input.take(input.len() as int) =~= input);
                        }
                        return Err(e);
                    },
                };
                proof {
                    assert(Ok::<_, ComponentAddError>(m@) == spec_component_add(acc[j as int], c@));
                }
                combined.set(j, m);
                merged = true;
                proof {
                    assert(combined@.map_values(fc) =~= acc.update(j as int, m@));
                }
                break ;
            }
            proof {
                assert(acc[j as int] == combined@[j as int]@);
            }
            j = j + 1;
        }
        if !merged {
            proof {
                lemma_find_component_at(acc, c@.ingredient.id, acc.len() as int);
            }
            combined.push(c.duplicate());
            proof {
                assert(combined@.map_values(fc) =~= acc.push(c@));
            }
        }
        i = i + 1;
        proof {
            assert(spec_consolidate(input.take(i as int)) == Ok::<_, ComponentAddError>(
                combined@.map_values(fc),
            ));
        }
    }
    proof {
        assert(input.take(input.len() as int) =~= input);
        assert(combined@.map_values(fc) =~= combined@.map_values(|c: Component| c@));
    }
    Ok(combined)
}

/// All quantities in all components of the recipe are well-formed fractions.
pub open spec fn recipe_wf(r: RecipeView) -> bool {
    components_wf(crate::catalog::components_of_recipe(r))
}

/// Flattening blocks of well-formed components yields well-formed components.
proof fn lemma_flatten_wf(blocks: Seq<Seq<ComponentView>>)
    requires
        forall|b: int| 0 <= b < blocks.len() ==> components_wf(#[trigger] blocks[b]),
    ensures
        components_wf(blocks.flatten()),
    decreases blocks.len(),
{
    if blocks.len() == 0 {
        assert(blocks.flatten() =~= Seq::<ComponentView>::empty());
    } else {
        assert(forall|b: int|
            0 <= b < blocks.drop_first().len() ==> components_wf(
                #[trigger] blocks.drop_first()[b],
            )) by {
            assert(forall|b: int|
                0 <= b < blocks.drop_first().len() ==> blocks.drop_first()[b] == (
                #[trigger] blocks[b + 1]));
        }
        lemma_flatten_wf(blocks.drop_first());
        let rest = blocks.drop_first().flatten();
        assert(blocks.flatten() == blocks.first() + rest);
        assert forall|i: int|
            0 <= i < blocks.flatten().len() implies measurements_wf(
            (#[trigger] blocks.flatten()[i]).measurements,
        ) by {
            if i < blocks.first().len() {
                assert(blocks.flatten()[i] == blocks[0][i]);
            } else {
                assert(blocks.flatten()[i] == rest[i - blocks.first().len()]);
            }
        }
    }
}

/// Well-formed recipes flatten to well-formed components.
pub proof fn lemma_components_of_recipes_wf(rs: Seq<RecipeView>)
    requires
        forall|k: int| 0 <= k < rs.len() ==> recipe_wf(#[trigger] rs[k]),
    ensures
        components_wf(crate::catalog::components_of_recipes(rs)),
{
    let blocks = rs.map_values(|r: RecipeView| crate::catalog::components_of_recipe(r));
    assert forall|b: int| 0 <= b < blocks.len() implies components_wf(#[trigger] blocks[b]) by {
        assert(blocks[b] == crate::catalog::components_of_recipe(rs[b]));
    }
    lemma_flatten_wf(blocks);
}

/// The ingredient ids of a component list, in order.
pub open spec fn ids_of(cs: Seq<ComponentView>) -> Seq<i64> {
    cs.map_values(|c: ComponentView| c.ingredient.id)
}

/// Each id at its first occurrence, later occurrences removed.
pub open spec fn dedup_first(ids: Seq<i64>) -> Seq<i64>
    decreases ids.len(),
{
    if ids.len() == 0 {
        Seq::empty()
    } else {
        let pre = dedup_first(ids.drop_last());
        if pre.contains(ids.last()) {
            pre
        } else {
            pre.push(ids.last())
        }
    }
}

/// What a found (or missed) index of [`find_component`] means.
proof fn lemma_find_component_found(acc: Seq<ComponentView>, id: i64)
    ensures
        find_component(acc, id) == -1 ==> !ids_of(acc).contains(id),
        find_component(acc, id) != -1 ==> 0 <= find_component(acc, id) < acc.len()
            && acc[find_component(acc, id)].ingredient.id == id && ids_of(acc).contains(id),
    decreases acc.len(),
{
    let f = find_component(acc, id);
    if acc.len() == 0 {
        assert(!ids_of(acc).contains(id)) by {
            assert(ids_of(acc).len() == 0);
        }
    } else if acc[0].ingredient.id == id {
        assert(ids_of(acc)[0] == id);
        assert(ids_of(acc).contains(id));
    } else {
        lemma_find_component_found(acc.drop_first(), id);
        let fr = find_component(acc.drop_first(), id);
        if fr == -1 {
            assert(!ids_of(acc).contains(id)) by {
                if ids_of(acc).contains(id) {
                    let k = choose|k: int| 0 <= k < ids_of(acc).len() && ids_of(acc)[k] == id;
                    assert(acc[k].ingredient.id == id);
                    assert(k != 0);
                    assert(ids_of(acc.drop_first())[k - 1] == acc.drop_first()[k
                        - 1].ingredient.id);
                    assert(acc.drop_first()[k - 1] == acc[k]);
                    assert(ids_of(acc.drop_first()).contains(id));
                }
            }
        } else {
            assert(acc[fr + 1] == acc.drop_first()[fr]);
            assert(ids_of(acc)[fr + 1] == acc[fr + 1].ingredient.id);
            assert(ids_of(acc).contains(id));
        }
    }
}

/// Law: consolidation succeeds with one entry per distinct ingredient, in
/// the order of each ingredient's first occurrence in the input.
pub proof fn lemma_consolidate_order(s: Seq<ComponentView>)
    ensures
        spec_consolidate(s) matches Ok(cs) ==> ids_of(cs) == dedup_first(ids_of(s)),
    decreases s.len(),
{
    if s.len() == 0 {
        if spec_consolidate(s) is Ok {
            assert(ids_of(spec_consolidate(s)->Ok_0) =~= Seq::<i64>::empty());
            assert(ids_of(s).len() == 0);
            assert(dedup_first(ids_of(s)) =~= Seq::<i64>::empty());
        }
    } else {
        lemma_consolidate_order(s.drop_last());
        if spec_consolidate(s) is Ok {
            let acc = spec_consolidate(s.drop_last())->Ok_0;
            let c = s.last();
            let id = c.ingredient.id;
            assert(ids_of(s).drop_last() =~= ids_of(s.drop_last()));
            assert(ids_of(s).last() == id);
            assert(ids_of(s).len() == s.len());
            lemma_find_component_found(acc, id);
            let f = find_component(acc, id);
            if f == -1 {
                assert(spec_consolidate(s)->Ok_0 == acc.push(c));
                assert(ids_of(acc.push(c)) =~= ids_of(acc).push(id));
                assert(dedup_first(ids_of(s)) == ids_of(acc).push(id));
            } else {
                let m = spec_component_add(acc[f], c)->Ok_0;
                assert(spec_consolidate(s)->Ok_0 == acc.update(f, m));
                assert(m.ingredient == acc[f].ingredient);
                assert(ids_of(acc.update(f, m)) =~= ids_of(acc));
                assert(dedup_first(ids_of(s)) == ids_of(acc));
            }
        }
    }
}

/// Law: consolidation never reports incompatible ingredients — it only
/// merges entries it found by the same ingredient id — so its only error is
/// an out-of-range quantity sum.
pub proof fn lemma_consolidate_err_overflow(s: Seq<ComponentView>)
    ensures
        spec_consolidate(s) matches Err(e) ==> e == ComponentAddError::Overflow,
    decreases s.len(),
{
    if s.len() > 0 {
        lemma_consolidate_err_overflow(s.drop_last());
        if spec_consolidate(s.drop_last()) is Ok && spec_consolidate(s) is Err {
            let acc = spec_consolidate(s.drop_last())->Ok_0;
            let c = s.last();
            lemma_find_component_found(acc, c.ingredient.id);
        }
    }
}

/// The character of one decimal digit.
pub open spec fn digit_char(d: nat) -> char {
    if d == 0 {
        '0'
    } else if d == 1 {
        '1'
    } else if d == 2 {
        '2'
    } else if d == 3 {
        '3'
    } else if d == 4 {
        '4'
    } else if d == 5 {
        '5'
    } else if d == 6 {
        '6'
    } else if d == 7 {
        '7'
    } else if d == 8 {
        '8'
    } else {
        '9'
    }
}

/// Decimal rendering of a natural number, without leading zeros.
pub open spec fn dec_str(n: nat) -> Seq<char>
    decreases n,
{
    if n < 10 {
        seq![digit_char(n)]
    } else {
        dec_str(n / 10).push(digit_char(n % 10))
    }
}

/// `100 * num / den` rounded to the nearest integer, ties to even: the
/// quantity in hundredths, as rendered with two decimals.
pub open spec fn round2(num: nat, den: nat) -> nat {
    let q = (100 * num) / den;
    let r = (100 * num) % den;
    if 2 * r < den {
        q
    } else if 2 * r > den {
        q + 1
    } else if q % 2 == 0 {
        q
    } else {
        q + 1
    }
}

/// Rendering of a value of `v` hundredths with exactly two decimals.
pub open spec fn two_dec_str(v: nat) -> Seq<char> {
    dec_str(v / 100) + seq!['.'] + (if v % 100 < 10 {
        seq!['0']
    } else {
        Seq::<char>::empty()
    }) + dec_str(v % 100)
}

/// A quantity renders as an integer when it is one, else with two decimals.
pub open spec fn quantity_str(q: Quantity) -> Seq<char> {
    if q.num % q.den == 0 {
        dec_str((q.num / q.den) as nat)
    } else {
        two_dec_str(round2(q.num as nat, q.den as nat))
    }
}

/// Every stated quantity is zero ("to taste").
pub open spec fn all_zero(ms: Seq<MeasurementView>) -> bool {
    forall|i: int| 0 <= i < ms.len() ==> (#[trigger] ms[i]).quantity.is_zero()
}

/// The shopping-list line of one consolidated component: only the name when
/// no amount is stated, else `name: quantity abbreviation` from the first
/// measurement.
pub open spec fn line_of(c: ComponentView) -> Seq<char> {
    if c.measurements.len() == 0 || all_zero(c.measurements) {
        c.ingredient.display_singular
    } else {
        c.ingredient.display_singular + ": "@ + quantity_str(c.measurements[0].quantity) + " "@
            + c.measurements[0].unit.abbreviation
    }
}

/// Lines joined with single newlines, no trailing newline.
pub open spec fn joined(lines: Seq<Seq<char>>) -> Seq<char>
    decreases lines.len(),
{
    if lines.len() == 0 {
        Seq::empty()
    } else if lines.len() == 1 {
        lines[0]
    } else {
        lines[0] + seq!['\n'] + joined(lines.drop_first())
    }
}

/// The final shopping-list text of a consolidated component list.
pub open spec fn shopping_list_text(cs: Seq<ComponentView>) -> Seq<char> {
    joined(cs.map_values(|c: ComponentView| line_of(c)))
}

/// Joining grows by a newline and one line at a time.
proof fn lemma_joined_push(s: Seq<Seq<char>>, x: Seq<char>)
    ensures
        s.len() == 0 ==> joined(s.push(x)) == x,
        s.len() > 0 ==> joined(s.push(x)) == joined(s) + seq!['\n'] + x,
    decreases s.len(),
{
    if s.len() == 0 {
        assert(s.push(x) =~= seq![x]);
    } else if s.len() == 1 {
        assert(s.push(x).drop_first() =~= seq![x]);
        assert(joined(seq![x]) == x);
        assert(s.push(x)[0] == s[0]);
        assert(s.push(x).len() == 2);
        assert(joined(s.push(x)) == s.push(x)[0] + seq!['\n'] + joined(s.push(x).drop_first()));
        assert(joined(s) == s[0]);
    } else {
        assert(s.push(x).drop_first() =~= s.drop_first().push(x));
        lemma_joined_push(s.drop_first(), x);
        assert(joined(s.push(x)) == s[0] + seq!['\n'] + (joined(s.drop_first()) + seq!['\n'] + x));
        assert(s[0] + seq!['\n'] + (joined(s.drop_first()) + seq!['\n'] + x) =~= (s[0] + seq!['\n']
            + joined(s.drop_first())) + seq!['\n'] + x);
    }
}

/// Appends one digit character.
fn append_digit(out: &mut String, d: u8)
    requires
        d < 10,
    ensures
        final(out)@ == old(out)@ + seq![digit_char(d as nat)],
{
    match d {
        0 => {
            proof {
                reveal_strlit("0");
            }
            out.append("0");
        },
        1 => {
            proof {
                reveal_strlit("1");
            }
            out.append("1");
        },
        2 => {
            proof {
                reveal_strlit("2");
            }
            out.append("2");
        },
        3 => {
            proof {
                reveal_strlit("3");
            }
            out.append("3");
        },
        4 => {
            proof {
                reveal_strlit("4");
            }
            out.append("4");
        },
        5 => {
            proof {
                reveal_strlit("5");
            }
            out.append("5");
        },
        6 => {
            proof {
                reveal_strlit("6");
            }
            out.append("6");
        },
        7 => {
            proof {
                reveal_strlit("7");
            }
            out.append("7");
        },
        8 => {
            proof {
                reveal_strlit("8");
            }
            out.append("8");
        },
        _ => {
            proof {
                reveal_strlit("9");
            }
            out.append("9");
        },
    }
    proof {
        assert(final(out)@ =~= old(out)@ + seq![digit_char(d as nat)]);
    }
}

/// Appends the decimal rendering of `n`.
fn append_dec(out: &mut String, n: u128)
    ensures
        final(out)@ == old(out)@ + dec_str(n as nat),
    decreases n,
{
    if n < 10 {
        append_digit(out, n as u8);
    } else {
        append_dec(out, n / 10);
        append_digit(out, (n % 10) as u8);
        proof {
            assert(old(out)@ + dec_str((n / 10) as nat) + seq![digit_char((n % 10) as nat)]
                =~= old(out)@ + dec_str(n as nat));
        }
    }
}

/// Renders a quantity: an integer when the fractional part is zero, else a
/// fixed two-decimal value.
fn quantity_string(q: Quantity) -> (r: String)
    requires
        q.wf(),
    ensures
        r@ == quantity_str(q),
{
    let mut out = String::new();
    if q.num % q.den == 0 {
        append_dec(&mut out, (q.num / q.den) as u128);
    } else {
        let hundred = 100u128 * (q.num as u128);
        let den = q.den as u128;
        let qd = hundred / den;
        let rr = hundred % den;
        let v = if 2 * rr < den {
            qd
        } else if 2 * rr > den {
            qd + 1
        } else if qd % 2 == 0 {
            qd
        } else {
            qd + 1
        };
        proof {
            assert(v as nat == round2(q.num as nat, q.den as nat));
        }
        append_dec(&mut out, v / 100);
        proof {
            reveal_strlit(".");
            assert("."@ =~= seq!['.']);
        }
        out.append(".");
        if v % 100 < 10 {
            proof {
                reveal_strlit("0");
                assert("0"@ =~= seq!['0']);
            }
            out.append("0");
        }
        append_dec(&mut out, v % 100);
        proof {
            assert(out@ =~= two_dec_str(v as nat));
        }
    }
    out
}

/// Renders one consolidated component as its shopping-list line.
fn format_component(c: &Component) -> (r: String)
    requires
        measurements_wf(c@.measurements),
    ensures
        r@ == line_of(c@),
{
    let mut allz = true;
    let mut i: usize = 0;
    while i < c.measurements.len()
        invariant
            i <= c@.measurements.len(),
            c@.measurements.len() == c.measurements@.len(),
            allz <==> (forall|k: int|
                0 <= k < i ==> (#[trigger] c@.measurements[k]).quantity.is_zero()),
        decreases c@.measurements.len() - i,
    {
        proof {
            assert(c@.measurements[i as int] == c.measurements@[i as int]@);
        }
        if c.measurements[i].quantity.num != 0 {
            allz = false;
        }
        i = i + 1;
    }
    if c.measurements.len() == 0 || allz {
        return c.ingredient.display_singular.clone();
    }
    let m = &c.measurements[0];
    proof {
        assert(c@.measurements[0] == m@);
    }
    let mut out = c.ingredient.display_singular.clone();
    out.append(": ");
    let qs = quantity_string(m.quantity);
    out.append(qs.as_str());
    out.append(" ");
    out.append(m.unit.abbreviation.as_str());
    proof {
        assert(out@ =~= line_of(c@));
    }
    out
}

/// Consolidates the components and renders them, one line per ingredient in
/// first-seen order, joined with single newlines.
pub fn make_shopping_list(components: Vec<Component>) -> (r: Result<String, ComponentAddError>)
    requires
        components_wf(components@.map_values(|c: Component| c@)),
    ensures
        r is Ok <==> spec_consolidate(components@.map_values(|c: Component| c@)) is Ok,
        r matches Ok(s) ==> s@ == shopping_list_text(
            spec_consolidate(components@.map_values(|c: Component| c@))->Ok_0,
        ),
        r matches Err(e) ==> spec_consolidate(components@.map_values(|c: Component| c@)) == Err::<
            Seq<ComponentView>,
            _,
        >(e),
{
    let combined = match consolidate_components(&components) {
        Ok(v) => v,
        Err(e) => {
            return Err(e);
        },
    };
    let ghost fc = |c: Component| c@;
    let ghost cs = combined@.map_values(fc);
    let ghost fl = |c: ComponentView| line_of(c);
    let ghost lines = cs.map_values(fl);
    let mut out = String::new();
    let mut i: usize = 0;
    proof {
        assert(lines.take(0) =~= Seq::<Seq<char>>::empty());
    }
    while i < combined.len()
        invariant
            i <= cs.len(),
            fc == (|c: Component| c@),
            fl == (|c: ComponentView| line_of(c)),
            cs == combined@.map_values(fc),
            lines == cs.map_values(fl),
            components_wf(cs),
            out@ == joined(lines.take(i as int)),
        decreases cs.len() - i,
    {
        if i > 0 {
            proof {
                reveal_strlit("\n");
                assert("\n"@ =~= seq!['\n']);
            }
            out.append("\n");
        }
        proof {
            assert(cs[i as int] == combined@[i as int]@);
            assert(lines[i as int] == line_of(cs[i as int]));
        }
        let line = format_component(&combined[i]);
        out.append(line.as_str());
        i = i + 1;
        proof {
            lemma_joined_push(lines.take(i - 1), lines[i - 1]);
            assert(lines.take(i as int) =~= lines.take(i - 1).push(lines[i - 1]));
            if i - 1 == 0 {
                assert(out@ =~= joined(lines.take(i as int)));
            } else {
                assert(out@ =~= joined(lines.take(i as int)));
            }
        }
    }
    proof {
        assert(lines.take(lines.len() as int) =~= lines);
    }
    Ok(out)
}

/// The public address of a recipe, from its slug.
pub open spec fn recipe_url_of(slug: Seq<char>) -> Seq<char> {
    "https://tasty.co/recipe/"@ + slug
}

/// Builds the public address of one recipe.
pub fn recipe_url(recipe: &Recipe) -> (u: String)
    ensures
        u@ == recipe_url_of(recipe@.slug),
{
    let mut s = String::from_str("https://tasty.co/recipe/");
    s.append(recipe.slug.as_str());
    s
}

/// The recipe-links artifact body: one address per line.
pub open spec fn urls_text(rs: Seq<RecipeView>) -> Seq<char> {
    joined(rs.map_values(|r: RecipeView| recipe_url_of(r.slug)))
}

/// Renders the selected recipes as one address per line.
pub fn recipe_urls_text(recipes: &Vec<Recipe>) -> (t: String)
    ensures
        t@ == urls_text(recipes@.map_values(|r: Recipe| r@)),
{
    let ghost fr = |r: Recipe| r@;
    let ghost fu = |r: RecipeView| recipe_url_of(r.slug);
    let ghost lines = recipes@.map_values(fr).map_values(fu);
    let mut out = String::new();
    let mut i: usize = 0;
    proof {
        assert(lines.take(0) =~= Seq::<Seq<char>>::empty());
    }
    while i < recipes.len()
        invariant
            i <= lines.len(),
            fr == (|r: Recipe| r@),
            fu == (|r: RecipeView| recipe_url_of(r.slug)),
            lines == recipes@.map_values(fr).map_values(fu),
            lines.len() == recipes@.len(),
            out@ == joined(lines.take(i as int)),
        decreases lines.len() - i,
    {
        if i > 0 {
            proof {
                reveal_strlit("\n");
                assert("\n"@ =~= seq!['\n']);
            }
            out.append("\n");
        }
        proof {
            assert(recipes@.map_values(fr)[i as int] == recipes@[i as int]@);
            assert(lines[i as int] == recipe_url_of(recipes@[i as int]@.slug));
        }
        let u = recipe_url(&recipes[i]);
        out.append(u.as_str());
        i = i + 1;
        proof {
            lemma_joined_push(lines.take(i - 1), lines[i - 1]);
            assert(lines.take(i as int) =~= lines.take(i - 1).push(lines[i - 1]));
            assert(out@ =~= joined(lines.take(i as int)));
        }
    }
    proof {
        assert(lines.take(lines.len() as int) =~= lines);
        assert(recipes@.map_values(fr).map_values(fu) =~= recipes@.map_values(
            |r: Recipe| r@,
        ).map_values(|r: RecipeView| recipe_url_of(r.slug)));
    }
    out
}

/// A run of dashes.
pub open spec fn dashes(n: nat) -> Seq<char> {
    Seq::new(n, |i: int| '-')
}

/// One appended artifact section: the time line, a dash line of the same
/// character count, the body, and a blank trailing line.
pub open spec fn artifact_text(time: Seq<char>, body: Seq<char>) -> Seq<char> {
    time + seq!['\n'] + dashes(time.len()) + seq!['\n'] + body + seq!['\n', '\n']
}

/// Frames one artifact section around a body.
pub fn artifact_section(time: &str, body: &str) -> (r: String)
    ensures
        r@ == artifact_text(time@, body@),
{
    let mut out = String::from_str(time);
    proof {
        reveal_strlit("\n");
        assert("\n"@ =~= seq!['\n']);
    }
    out.append("\n");
    let n = time.unicode_len();
    let mut i: usize = 0;
    proof {
        assert(dashes(0) =~= Seq::<char>::empty());
        assert(out@ =~= time@ + seq!['\n'] + dashes(0));
    }
    while i < n
        invariant
            i <= n,
            out@ == time@ + seq!['\n'] + dashes(i as nat),
        decreases n - i,
    {
        proof {
            reveal_strlit("-");
            assert("-"@ =~= seq!['-']);
        }
        out.append("-");
        i = i + 1;
        proof {
            assert(dashes(i as nat) =~= dashes((i - 1) as nat).push('-'));
            assert(out@ =~= time@ + seq!['\n'] + dashes(i as nat));
        }
    }
    out.append("\n");
    out.append(body);
    proof {
        reveal_strlit("\n\n");
        assert("\n\n"@ =~= seq!['\n', '\n']);
    }
    out.append("\n\n");
    proof {
        assert(n as nat == time@.len());
        assert(out@ =~= artifact_text(time@, body@));
    }
    out
}

} // verus!
