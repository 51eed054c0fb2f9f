//! What an edit of the load order changes, and that it changes nothing else.

use vstd::prelude::*;
use vstd::utf8::encode_utf8;

use crate::app::{first_same, first_with_id, name_char, name_is_valid, AppView, Mode, Pane};
use crate::keys::{row_above, row_below, KeyCode, KeyPress, RequestView};
use crate::laws::{available_mods_are_the_rest, repinning_keeps_the_load_order};
use crate::model::{ModView, SlotView};
use crate::order::{differs_below, first_difference_decides, indices};
use crate::text::{joined, lowercase, same_ignoring_case, trimmed};

verus! {

/// The mod at `i` of the pool has a slot.
pub open spec fn has_a_slot(v: AppView, i: int) -> bool {
    exists|k: int| 0 <= k < v.slots.len() && is_slot_of(#[trigger] v.slots[k], i)
}

/// The slot stands for the mod at `i` of the pool.
pub open spec fn is_slot_of(s: SlotView, i: int) -> bool {
    s.idx is Some && s.idx->0 == i
}

/// The mods to choose from are those that are installed and have no slot, by
/// name whatever the case.
pub proof fn every_free_mod_can_be_chosen(v: AppView)
    ensures
        forall|i: int| #[trigger]
            v.available().contains(i) <==> 0 <= i < v.pool.len() && !v.pool[i].missing
                && !has_a_slot(v, i),
        v.available().no_duplicates(),
        forall|j: int, k: int, at: int|
            0 <= j < k < v.available().len() ==> !#[trigger] differs_below(
                lowercase(v.pool[v.available()[k]].name),
                lowercase(v.pool[v.available()[j]].name),
                at,
            ),
{
    available_mods_are_the_rest(v);
    assert forall|i: int| v.in_order(i) == #[trigger] has_a_slot(v, i) by {
        if v.in_order(i) {
            let k = choose|k: int| 0 <= k < v.slots.len() && (#[trigger] v.slots[k]).is_mod(i);
            assert(is_slot_of(v.slots[k], i));
        }
        if has_a_slot(v, i) {
            let k = choose|k: int| 0 <= k < v.slots.len() && is_slot_of(#[trigger] v.slots[k], i);
            assert(v.slots[k].is_mod(i));
        }
    }
    let a = v.available();
    assert forall|j: int, k: int, at: int| 0 <= j < k < a.len() implies !#[trigger] differs_below(
        lowercase(v.pool[a[k]].name),
        lowercase(v.pool[a[j]].name),
        at,
    ) by {
        first_difference_decides(lowercase(v.pool[a[k]].name), lowercase(v.pool[a[j]].name));
    }
}

/// Adding a mod puts one slot at the end, enabled and with no requirement, and
/// leaves every other slot as it is. The next mod to choose is then selected.
pub proof fn adding_appends_one_slot(v: AppView, sel: usize)
    requires
        v.avail_sel == Some(sel),
        v.pool.len() <= usize::MAX,
        v.slots.len() <= usize::MAX,
    ensures
        ({
            let r = v.selected_added();
            let i = v.available()[sel as int];
            &&& sel >= v.available().len() ==> r == v
            &&& sel < v.available().len() ==> {
                &&& r == (AppView {
                    slots: r.slots,
                    dirty: true,
                    avail_sel: r.avail_sel,
                    prof_sel: r.prof_sel,
                    ..v
                })
                &&& r.slots.len() == v.slots.len() + 1
                &&& forall|k: int| 0 <= k < v.slots.len() ==> #[trigger] r.slots[k] == v.slots[k]
                &&& r.slots[v.slots.len() as int].id == v.pool[i].id
                &&& r.slots[v.slots.len() as int].idx == Some(i as usize)
                &&& r.slots[v.slots.len() as int].enabled
                &&& r.slots[v.slots.len() as int].requires.len() == 0
                &&& v.available().len() == 1 ==> r.avail_sel is None
                &&& sel + 1 < v.available().len() ==> r.avail_sel == Some(sel)
                &&& v.available().len() > 1 && sel + 1 == v.available().len() ==> r.avail_sel
                    == Some((sel - 1) as usize)
                &&& v.prof_sel is Some ==> r.prof_sel == v.prof_sel
                &&& v.prof_sel is None ==> r.prof_sel == Some(v.slots.len() as usize)
            }
        }),
{
}

/// Without a selected mod nothing is added.
pub proof fn nothing_is_added_unselected(v: AppView)
    requires
        v.avail_sel is None,
    ensures
        v.selected_added() == v,
{
}

/// Enabling or disabling changes the switch of the selected slot and nothing
/// else of the load order; what was done is told.
pub proof fn toggling_flips_one_switch(v: AppView)
    ensures
        ({
            let r = v.selected_toggled();
            let k = v.prof_sel->0 as int;
            let name = match v.slots[k].idx {
                Some(i) => v.pool[i as int].name,
                None => v.slots[k].id,
            };
            &&& v.prof_sel is None || v.prof_sel->0 >= v.slots.len() ==> r == v
            &&& v.prof_sel is Some && v.prof_sel->0 < v.slots.len() ==> {
                &&& r == (AppView { slots: r.slots, dirty: true, status: r.status, ..v })
                &&& r.slots.len() == v.slots.len()
                &&& forall|j: int|
                    0 <= j < v.slots.len() && j != k ==> #[trigger] r.slots[j] == v.slots[j]
                &&& r.slots[k].enabled != v.slots[k].enabled
                &&& r.slots[k].id == v.slots[k].id
                &&& r.slots[k].idx == v.slots[k].idx
                &&& r.slots[k].requires == v.slots[k].requires
                &&& r.slots[k].enabled ==> r.status == "Enabled '"@ + name + "'"@
                &&& !r.slots[k].enabled ==> r.status == "Disabled '"@ + name
                    + "' (kept in the load order)"@
            }
        }),
{
}

/// Taking a slot out leaves the others in their order; the slot that takes its
/// place is selected, or the last one.
pub proof fn removing_takes_one_slot_out(v: AppView)
    ensures
        ({
            let r = v.selected_removed();
            let k = v.prof_sel->0 as int;
            let n = v.slots.len();
            &&& v.prof_sel is None || v.prof_sel->0 >= n ==> r == v
            &&& v.prof_sel is Some && v.prof_sel->0 < n ==> {
                &&& r == (AppView {
                    slots: r.slots,
                    dirty: true,
                    prof_sel: r.prof_sel,
                    avail_sel: r.avail_sel,
                    ..v
                })
                &&& r.slots == v.slots.take(k) + v.slots.skip(k + 1)
                &&& n == 1 ==> r.prof_sel is None
                &&& k + 1 < n ==> r.prof_sel == v.prof_sel
                &&& n > 1 && k + 1 == n ==> r.prof_sel == Some((k - 1) as usize)
                &&& v.avail_sel is Some ==> r.avail_sel == v.avail_sel
                &&& v.avail_sel is None && r.available().len() > 0 ==> r.avail_sel == Some(0usize)
            }
        }),
{
    let k = v.prof_sel->0 as int;
    if v.prof_sel is Some && v.prof_sel->0 < v.slots.len() {
        let r = v.selected_removed();
        assert(v.slots.remove(k) =~= v.slots.take(k) + v.slots.skip(k + 1));
        if v.avail_sel is None {
            let t = AppView { avail_sel: None, ..r };
            assert(t.available() == r.available()) by {
                lemma_same_free(t, r);
            }
        }
    }
}

proof fn lemma_same_free(a: AppView, b: AppView)
    requires
        a.pool == b.pool,
        a.slots == b.slots,
    ensures
        a.available() == b.available(),
{
    assert forall|i: int| a.in_order(i) == b.in_order(i) by {}
    assert((|i: int| !a.pool[i].missing && !a.in_order(i)) =~= (|i: int|
        !b.pool[i].missing && !b.in_order(i)));
    assert((|i: int| lowercase(a.pool[i].name)) =~= (|i: int| lowercase(b.pool[i].name)));
}

/// Moving a slot exchanges it with the slot that is so many rows away, and the
/// selection goes with it; beyond the ends, or while the other pane is focused,
/// nothing moves.
pub proof fn moving_exchanges_two_slots(v: AppView, delta: int)
    requires
        v.slots.len() <= usize::MAX,
    ensures
        ({
            let r = v.slot_moved(delta);
            let i = v.prof_sel->0 as int;
            let j = i + delta;
            let moves = v.focus == Pane::Profile && v.prof_sel is Some && i < v.slots.len() && 0
                <= j < v.slots.len();
            &&& !moves ==> r == v
            &&& moves ==> {
                &&& r == (AppView {
                    slots: r.slots,
                    prof_sel: Some(j as usize),
                    dirty: true,
                    ..v
                })
                &&& r.slots.len() == v.slots.len()
                &&& r.slots[j] == v.slots[i]
                &&& r.slots[i] == v.slots[j]
                &&& forall|k: int|
                    0 <= k < v.slots.len() && k != i && k != j ==> #[trigger] r.slots[k]
                        == v.slots[k]
            }
        }),
{
}

/// The rows of the focused pane.
pub open spec fn rows(v: AppView) -> nat {
    if v.focus == Pane::Available {
        v.available().len()
    } else {
        v.slots.len()
    }
}

/// The selected row of a pane.
pub open spec fn selection(v: AppView, pane: Pane) -> Option<usize> {
    if pane == Pane::Available {
        v.avail_sel
    } else {
        v.prof_sel
    }
}

/// Moving the selection moves it that many rows, no further than to the ends of
/// the focused pane; the other pane and everything else stay as they are.
pub proof fn the_selection_moves_by_rows(v: AppView, delta: int)
    requires
        rows(v) <= usize::MAX,
    ensures
        ({
            let r = v.selection_moved(delta);
            let n = rows(v);
            let s = selection(v, v.focus);
            &&& r == (AppView { avail_sel: r.avail_sel, prof_sel: r.prof_sel, ..v })
            &&& v.focus == Pane::Available ==> r.prof_sel == v.prof_sel
            &&& v.focus == Pane::Profile ==> r.avail_sel == v.avail_sel
            &&& s is None || s->0 >= n ==> r == v
            &&& s is Some && s->0 < n && 0 <= s->0 + delta < n ==> selection(r, v.focus) == Some(
                (s->0 + delta) as usize,
            )
            &&& s is Some && s->0 < n && s->0 + delta < 0 ==> selection(r, v.focus) == Some(0usize)
            &&& s is Some && s->0 < n && s->0 + delta >= n ==> selection(r, v.focus) == Some(
                (n - 1) as usize,
            )
        }),
        ({
            let r = v.edge_selected(false);
            &&& r == (AppView { avail_sel: r.avail_sel, prof_sel: r.prof_sel, ..v })
            &&& rows(v) == 0 ==> r == v
            &&& rows(v) > 0 ==> selection(r, v.focus) == Some(0usize)
            &&& v.focus == Pane::Available ==> r.prof_sel == v.prof_sel
            &&& v.focus == Pane::Profile ==> r.avail_sel == v.avail_sel
        }),
        ({
            let r = v.edge_selected(true);
            &&& r == (AppView { avail_sel: r.avail_sel, prof_sel: r.prof_sel, ..v })
            &&& rows(v) == 0 ==> r == v
            &&& rows(v) > 0 ==> selection(r, v.focus) == Some((rows(v) - 1) as usize)
            &&& v.focus == Pane::Available ==> r.prof_sel == v.prof_sel
            &&& v.focus == Pane::Profile ==> r.avail_sel == v.avail_sel
        }),
{
}

/// Switching panes focuses the other one, keeps its selection if that is still
/// a row of it and selects its first row if it is not, and leaves the pane that
/// was focused as it was.
pub proof fn switching_panes_keeps_selections(v: AppView)
    ensures
        ({
            let r = v.pane_switched();
            let other = if v.focus == Pane::Available {
                Pane::Profile
            } else {
                Pane::Available
            };
            let s = selection(v, other);
            let n = if other == Pane::Available {
                v.available().len()
            } else {
                v.slots.len()
            };
            &&& r == (AppView {
                focus: other,
                avail_sel: r.avail_sel,
                prof_sel: r.prof_sel,
                ..v
            })
            &&& selection(r, v.focus) == selection(v, v.focus)
            &&& s is Some && s->0 < n ==> selection(r, other) == s
            &&& !(s is Some && s->0 < n) && n > 0 ==> selection(r, other) == Some(0usize)
            &&& n == 0 ==> selection(r, other) is None
        }),
{
    let other = if v.focus == Pane::Available {
        Pane::Profile
    } else {
        Pane::Available
    };
    let t = AppView { focus: other, ..v };
    lemma_same_free(t, v);
}

/// What is highlighted is the mod of the selected row of the focused pane.
pub proof fn the_selected_row_is_highlighted(v: AppView)
    ensures
        v.focus == Pane::Available ==> v.hovered() == if v.avail_sel is Some && v.avail_sel->0
            < v.available().len() {
            Some(v.available()[v.avail_sel->0 as int])
        } else {
            None
        },
        v.focus == Pane::Profile && v.prof_sel is Some && v.prof_sel->0 < v.slots.len() ==> (
        v.hovered() is Some <==> v.slots[v.prof_sel->0 as int].idx is Some),
        v.focus == Pane::Profile && v.hovered() is Some ==> is_slot_of(
            v.slots[v.prof_sel->0 as int],
            v.hovered()->0,
        ),
        v.focus == Pane::Profile && !(v.prof_sel is Some && v.prof_sel->0 < v.slots.len())
            ==> v.hovered() is None,
{
}

proof fn lemma_first_mod(pool: Seq<ModView>, id: Seq<char>, from: int)
    requires
        0 <= from,
    ensures
        match first_with_id(pool, id, from) {
            Some(i) => from <= i < pool.len() && same_ignoring_case(pool[i].id, id) && forall|j: int|
                from <= j < i ==> !same_ignoring_case((#[trigger] pool[j]).id, id),
            None => forall|j: int|
                from <= j < pool.len() ==> !same_ignoring_case((#[trigger] pool[j]).id, id),
        },
    decreases pool.len() - from,
{
    if from < pool.len() && !same_ignoring_case(pool[from].id, id) {
        lemma_first_mod(pool, id, from + 1);
    }
}

/// A mod is called by its name, and by its id where it is not in the pool.
pub proof fn mods_are_called_by_name(v: AppView, id: Seq<char>)
    ensures
        (forall|i: int|
            0 <= i < v.pool.len() ==> !same_ignoring_case((#[trigger] v.pool[i]).id, id))
            ==> v.mod_name(id) == id,
        forall|i: int|
            0 <= i < v.pool.len() && same_ignoring_case((#[trigger] v.pool[i]).id, id) && (forall|
                j: int,
            |
                0 <= j < i ==> !same_ignoring_case((#[trigger] v.pool[j]).id, id)) ==> v.mod_name(
                id,
            ) == v.pool[i].name,
{
    lemma_first_mod(v.pool, id, 0);
    match first_with_id(v.pool, id, 0) {
        Some(x) => {
            assert(same_ignoring_case(v.pool[x].id, id));
        },
        None => {},
    }
}

/// The slot plays: it is enabled and its mod is there.
pub open spec fn is_playing(v: AppView, s: SlotView) -> bool {
    s.enabled && s.idx is Some && !v.pool[s.idx->0 as int].missing
}

/// A required mod is unmet exactly if no slot with its id plays; the unmet ones
/// are told in the order in which they are required.
pub proof fn unmet_requirements_do_not_play(v: AppView, reqs: Seq<Seq<char>>)
    ensures
        v.unmet(reqs) == reqs.filter(
            |q: Seq<char>|
                !exists|k: int|
                    0 <= k < v.slots.len() && is_playing(v, #[trigger] v.slots[k])
                        && same_ignoring_case(v.slots[k].id, q),
        ).map_values(|q: Seq<char>| v.mod_name(q)),
    decreases reqs.len(),
{
    reveal(Seq::filter);
    let out = |q: Seq<char>|
        !exists|k: int|
            0 <= k < v.slots.len() && is_playing(v, #[trigger] v.slots[k]) && same_ignoring_case(
                v.slots[k].id,
                q,
            );
    let name = |q: Seq<char>| v.mod_name(q);
    if reqs.len() > 0 {
        let d = reqs.drop_last();
        let q = reqs.last();
        unmet_requirements_do_not_play(v, d);
        assert(out(q) == !v.satisfied(q)) by {
            if v.satisfied(q) {
                let k = choose|k: int|
                    0 <= k < v.slots.len() && (#[trigger] v.slots[k]).enabled
                        && same_ignoring_case(v.slots[k].id, q) && !v.is_missing(v.slots[k]);
                assert(is_playing(v, v.slots[k]));
            }
            if !out(q) {
                let k = choose|k: int|
                    0 <= k < v.slots.len() && is_playing(v, #[trigger] v.slots[k])
                        && same_ignoring_case(v.slots[k].id, q);
                assert(v.slots[k].enabled && !v.is_missing(v.slots[k]));
            }
        }
        assert(d.filter(out).push(q).map_values(name) =~= d.filter(out).map_values(name).push(
            name(q),
        ));
    } else {
        assert(reqs.filter(out).map_values(name) =~= Seq::<Seq<char>>::empty());
    }
}

proof fn lemma_all_but(n: nat, r: int, keep: spec_fn(int) -> bool)
    requires
        0 <= r,
        forall|i: int| #[trigger] keep(i) == (i != r),
    ensures
        indices(n).filter(keep) == Seq::new(
            if r < n {
                (n - 1) as nat
            } else {
                n
            },
            |k: int|
                if k < r {
                    k
                } else {
                    k + 1
                },
        ),
    decreases n,
{
    reveal(Seq::filter);
    if n > 0 {
        let m = (n - 1) as nat;
        lemma_all_but(m, r, keep);
        assert(indices(n).drop_last() =~= indices(m));
        assert(keep(m as int) == (m != r));
    }
}

/// Every slot but the edited one can be marked as required, in the order of the
/// load order.
pub proof fn every_other_slot_is_a_candidate(v: AppView, r: usize)
    requires
        v.req_slot == Some(r),
        r < v.slots.len(),
    ensures
        v.candidates() == Seq::new(
            (v.slots.len() - 1) as nat,
            |k: int|
                if k < r {
                    k
                } else {
                    k + 1
                },
        ),
{
    let keep = |i: int| i != r;
    lemma_all_but(v.slots.len(), r as int, keep);
    assert(v.candidates() =~= indices(v.slots.len()).filter(keep));
}

proof fn lemma_first_listed(reqs: Seq<Seq<char>>, id: Seq<char>, from: int)
    requires
        0 <= from,
    ensures
        match first_same(reqs, id, from) {
            Some(p) => from <= p < reqs.len() && same_ignoring_case(reqs[p], id) && forall|i: int|
                from <= i < p ==> !same_ignoring_case(#[trigger] reqs[i], id),
            None => forall|i: int|
                from <= i < reqs.len() ==> !same_ignoring_case(#[trigger] reqs[i], id),
        },
    decreases reqs.len() - from,
{
    if from < reqs.len() && !same_ignoring_case(reqs[from], id) {
        lemma_first_listed(reqs, id, from + 1);
    }
}

/// Marking a slot as required changes the requirements of the edited slot only:
/// the id goes to their end where it was not among them, and its first mention
/// goes out where it was. The others keep their order.
pub proof fn marking_changes_one_requirement(v: AppView, r: usize, c: usize)
    requires
        v.req_slot == Some(r),
        r < v.slots.len(),
        v.req_sel == Some(c),
    ensures
        ({
            let t = v.requirement_toggled();
            let x = v.slots[if c < r {
                c as int
            } else {
                c + 1
            }].id;
            let before = v.slots[r as int].requires;
            let after = t.slots[r as int].requires;
            &&& c + 1 >= v.slots.len() ==> t == v
            &&& c + 1 < v.slots.len() ==> {
                &&& t == (AppView { slots: t.slots, dirty: true, ..v })
                &&& t.slots == v.slots.update(
                    r as int,
                    SlotView { requires: after, ..v.slots[r as int] },
                )
                &&& (forall|i: int|
                    0 <= i < before.len() ==> !same_ignoring_case(#[trigger] before[i], x))
                    ==> after == before.push(x)
                &&& forall|p: int|
                    0 <= p < before.len() && same_ignoring_case(#[trigger] before[p], x) && (forall|
                        i: int,
                    |
                        0 <= i < p ==> !same_ignoring_case(#[trigger] before[i], x)) ==> after
                        == before.take(p) + before.skip(p + 1)
            }
        }),
{
    every_other_slot_is_a_candidate(v, r);
    if c + 1 < v.slots.len() {
        let x = v.slots[v.candidates()[c as int]].id;
        let before = v.slots[r as int].requires;
        lemma_first_listed(before, x, 0);
        match first_same(before, x, 0) {
            Some(p) => {
                assert(same_ignoring_case(before[p], x));
                assert(before.remove(p) =~= before.take(p) + before.skip(p + 1));
            },
            None => {},
        }
    }
}

/// The requirements of a slot can be edited exactly if it is selected in the
/// load order and there is another slot; what is missing is told.
pub proof fn requirements_are_edited_of_the_selected_slot(v: AppView)
    ensures
        ({
            let r = v.requirement_picker_opened();
            let selected = v.prof_sel is Some && v.prof_sel->0 < v.slots.len();
            let opens = v.focus == Pane::Profile && selected && v.slots.len() > 1;
            &&& opens ==> r == (AppView {
                req_slot: v.prof_sel,
                req_sel: Some(0),
                mode: Mode::RequirementPicker,
                ..v
            })
            &&& !opens ==> r == (AppView { status: r.status, ..v })
            &&& v.focus == Pane::Available ==> r.status
                == "Select a mod in the load order, then R to set what it requires"@
            &&& v.focus == Pane::Profile && !selected ==> r == v
            &&& v.focus == Pane::Profile && selected && !opens ==> r.status
                == "Add more mods to the load order first"@
        }),
{
}

/// The row that an arrow key leads to is the next one, within the list.
pub proof fn arrows_go_one_row(sel: Option<usize>, n: nat)
    requires
        n <= usize::MAX,
    ensures
        sel is Some && 0 < sel->0 ==> row_above(sel) == Some((sel->0 - 1) as usize),
        sel is None || sel->0 == 0 ==> row_above(sel) == Some(0usize),
        sel is Some && sel->0 + 1 < n ==> row_below(sel, n) == Some((sel->0 + 1) as usize),
        sel is Some && n > 0 && sel->0 + 1 >= n ==> row_below(sel, n) == Some((n - 1) as usize),
        sel is None && n > 1 ==> row_below(sel, n) == Some(1usize),
        sel is None && n == 1 ==> row_below(sel, n) == Some(0usize),
        n == 0 ==> row_below(sel, n) == sel,
{
}

/// A key that ends the program at once.
pub open spec fn interrupts(k: KeyPress) -> bool {
    k.code == KeyCode::Char('c') && k.control
}

/// The keys that ask for a move of what is selected, up or down.
pub open spec fn moves_selected(k: KeyPress) -> bool {
    k.code == KeyCode::Char('K') || k.code == KeyCode::Char('J') || ((k.code == KeyCode::Up
        || k.code == KeyCode::Down) && k.shift)
}

/// The keys that choose the selected row of a pane.
pub open spec fn chooses(k: KeyPress) -> bool {
    k.code == KeyCode::Char(' ') || k.code == KeyCode::Enter
}

/// The keys that take a slot out.
pub open spec fn removes(k: KeyPress) -> bool {
    k.code == KeyCode::Char('x') || k.code == KeyCode::Delete || k.code == KeyCode::Backspace
}

/// Only the keys for it change the load order: moving, choosing and removing in
/// the panes, and marking in the requirement picker.
#[verifier::spinoff_prover]
#[verifier::rlimit(60)]
pub proof fn few_keys_change_the_load_order(v: AppView, k: KeyPress)
    requires
        v.key_step(k).0.slots != v.slots,
    ensures
        !interrupts(k),
        v.mode == Mode::Browse || v.mode == Mode::RequirementPicker,
        v.mode == Mode::Browse ==> moves_selected(k) || chooses(k) || removes(k),
        v.mode == Mode::Browse && (moves_selected(k) || removes(k)) ==> v.focus == Pane::Profile,
        v.mode == Mode::RequirementPicker ==> k.code == KeyCode::Char(' '),
        v.key_step(k).0.dirty,
        v.key_step(k).1 == RequestView::Nothing,
{
    repinning_keeps_the_load_order(v.awake());
}

/// The keys of the panes edit what is selected there: space and enter add the
/// selected mod, or flip the selected slot; `x` and the like take it out; `K` and
/// `J` move it, as the arrows do with shift.
pub proof fn pane_keys_edit_the_selection(v: AppView, k: KeyPress)
    requires
        v.mode == Mode::Browse,
        !interrupts(k),
    ensures
        ({
            let (r, q) = v.key_step(k);
            let a = AppView {
                confirm_quit: false,
                confirm_delete: false,
                status: Seq::empty(),
                ..v
            };
            &&& chooses(k) && v.focus == Pane::Available ==> r == a.selected_added()
            &&& chooses(k) && v.focus == Pane::Profile ==> r == a.selected_toggled()
            &&& removes(k) && v.focus == Pane::Profile ==> r == a.selected_removed()
            &&& removes(k) && v.focus == Pane::Available ==> r == a
            &&& k.code == KeyCode::Char('K') || (k.code == KeyCode::Up && k.shift) ==> r
                == a.slot_moved(-1)
            &&& k.code == KeyCode::Char('J') || (k.code == KeyCode::Down && k.shift) ==> r
                == a.slot_moved(1)
            &&& k.code == KeyCode::Char('k') || (k.code == KeyCode::Up && !k.shift) ==> r
                == a.selection_moved(-1)
            &&& k.code == KeyCode::Char('j') || (k.code == KeyCode::Down && !k.shift) ==> r
                == a.selection_moved(1)
            &&& k.code == KeyCode::Home || k.code == KeyCode::Char('g') ==> r == a.edge_selected(
                false,
            )
            &&& k.code == KeyCode::End || k.code == KeyCode::Char('G') ==> r == a.edge_selected(true)
            &&& k.code == KeyCode::Tab || k.code == KeyCode::BackTab || k.code == KeyCode::Left
                || k.code == KeyCode::Right || k.code == KeyCode::Char('h') || k.code
                == KeyCode::Char('l') ==> r == a.pane_switched()
            &&& chooses(k) || removes(k) || moves_selected(k) ==> q == RequestView::Nothing
        }),
{
}

/// The version that a mod is pinned to changes only with `U` in the panes and
/// with a choice in the version picker.
#[verifier::spinoff_prover]
#[verifier::rlimit(60)]
pub proof fn few_keys_change_pins(v: AppView, k: KeyPress)
    requires
        v.key_step(k).0.pins != v.pins,
    ensures
        !interrupts(k),
        v.mode == Mode::Browse ==> k.code == KeyCode::Char('U'),
        v.mode == Mode::Browse || v.mode == Mode::VersionPicker,
        v.mode == Mode::VersionPicker ==> chooses(k),
{
}

/// What is known of the mods, of Steam and of the profile is the same.
pub open spec fn same_facts(r: AppView, v: AppView) -> bool {
    &&& r.path == v.path
    &&& r.pool == v.pool
    &&& r.ws == v.ws
    &&& r.game_buildid == v.game_buildid
    &&& r.pinned_buildid == v.pinned_buildid
    &&& r.current_profile == v.current_profile
    &&& r.versions == v.versions
    &&& r.status_lines == v.status_lines
    &&& r.preview_mounted == v.preview_mounted
    &&& v.dirty ==> r.dirty
}

/// What is known of the mods, of Steam and of the profile is nothing that a key
/// changes.
pub proof fn keys_change_no_facts(v: AppView, k: KeyPress)
    ensures
        same_facts(v.key_step(k).0, v),
        v.mode != Mode::Profiles ==> v.key_step(k).0.profiles == v.profiles,
{
    let a = v.awake();
    if !interrupts(k) {
        match v.mode {
            Mode::Browse => lemma_browsing_changes_no_facts(a, k, v.confirm_quit),
            Mode::VersionPicker => {},
            Mode::RequirementPicker => {},
            Mode::Profiles => {},
            Mode::NameInput => {},
            Mode::Help => {},
            Mode::Status => {},
        }
    }
}

#[verifier::spinoff_prover]
#[verifier::rlimit(60)]
proof fn lemma_browsing_changes_no_facts(v: AppView, k: KeyPress, confirmed: bool)
    ensures
        same_facts(v.browse_key(k, confirmed).0, v),
        v.browse_key(k, confirmed).0.profiles == v.profiles,
{
    repinning_keeps_the_load_order(v);
}

/// Each request is made exactly by the keys for it: what is asked for outside,
/// and of which profile or item.
#[verifier::spinoff_prover]
#[verifier::rlimit(60)]
pub proof fn each_request_has_its_key(v: AppView, k: KeyPress)
    requires
        !interrupts(k),
    ensures
        ({
            let q = v.key_step(k).1;
            let name = if v.profile_sel is Some && v.profile_sel->0 < v.profiles.len() {
                Some(v.profiles[v.profile_sel->0 as int])
            } else {
                None
            };
            let browsing = v.mode == Mode::Browse;
            let listing = v.mode == Mode::Profiles;
            let hovered = v.awake().hovered();
            &&& q == RequestView::Quit <==> browsing && (k.code == KeyCode::Esc || k.code
                == KeyCode::Char('q')) && (!v.dirty || v.confirm_quit)
            &&& q == RequestView::Launch <==> browsing && k.code == KeyCode::Char('L')
            &&& q == RequestView::ToggleDataView <==> browsing && k.code == KeyCode::Char('o')
            &&& q == RequestView::GatherStatus <==> browsing && k.code == KeyCode::Char('S')
            &&& q == RequestView::ListProfiles <==> browsing && k.code == KeyCode::Char('p')
            &&& q is Save <==> browsing && k.code == KeyCode::Char('s') && v.current_profile is Some
            &&& q is Save ==> q == RequestView::Save(v.current_profile->0)
            &&& q is ListVersions <==> browsing && k.code == KeyCode::Char('v') && hovered is Some
                && v.pool[hovered->0].steam_id is Some
            &&& q is ListVersions ==> q == RequestView::ListVersions(
                v.pool[hovered->0].steam_id->0,
            )
            &&& q is Store <==> (browsing && k.code == KeyCode::Char('U')) || (v.mode
                == Mode::VersionPicker && chooses(k))
            &&& q is Apply <==> listing && k.code == KeyCode::Enter && name is Some
            &&& q is Apply ==> q == RequestView::Apply(name->0)
            &&& q is Export <==> listing && k.code == KeyCode::Char('e') && name is Some
            &&& q is Export ==> q == RequestView::Export(name->0)
            &&& q is Delete <==> listing && k.code == KeyCode::Char('d') && name is Some
                && v.confirm_delete
            &&& q is Delete ==> q == RequestView::Delete(name->0)
            &&& q is WriteOrder ==> listing && moves_selected(k) && name is Some
            &&& q is Rename <==> v.mode == Mode::NameInput && k.code == KeyCode::Enter
                && name_is_valid(trimmed(v.input)) && v.rename_from is Some
            &&& q is Rename ==> q == RequestView::Rename(v.rename_from->0, trimmed(v.input))
            &&& q is SaveProfile <==> v.mode == Mode::NameInput && k.code == KeyCode::Enter
                && name_is_valid(trimmed(v.input)) && v.rename_from is None
            &&& q is SaveProfile ==> q == RequestView::SaveProfile(trimmed(v.input))
        }),
{
}

/// A profile that is moved in the list changes places with its neighbour, the
/// selection goes with it, and the order that is written has a line for each
/// profile.
pub proof fn moving_exchanges_two_profiles(v: AppView, delta: int)
    requires
        v.profiles.len() <= usize::MAX,
    ensures
        ({
            let (r, q) = v.profile_moved_and_written(delta);
            let i = v.profile_sel->0 as int;
            let j = i + delta;
            let moves = v.profile_sel is Some && i < v.profiles.len() && 0 <= j < v.profiles.len();
            &&& !moves ==> r == v && q == RequestView::Nothing
            &&& moves ==> {
                &&& r == (AppView {
                    profiles: r.profiles,
                    profile_sel: Some(j as usize),
                    preview_for: None,
                    ..v
                })
                &&& r.profiles.len() == v.profiles.len()
                &&& r.profiles[j] == v.profiles[i]
                &&& r.profiles[i] == v.profiles[j]
                &&& forall|k: int|
                    0 <= k < v.profiles.len() && k != i && k != j ==> #[trigger] r.profiles[k]
                        == v.profiles[k]
                &&& q == RequestView::WriteOrder(joined(r.profiles, "\n"@))
            }
        }),
{
}

/// The keys of the list of profiles: `K` and `J` move the selected profile, the
/// arrows go to the next row, `n` starts an empty name, `r` starts from the name
/// of the selected profile, and `q`, `Esc` and `p` lead back to the panes.
pub proof fn list_keys_work_on_the_selected_profile(v: AppView, k: KeyPress)
    requires
        v.mode == Mode::Profiles,
        !interrupts(k),
    ensures
        ({
            let (r, q) = v.key_step(k);
            let a = AppView {
                confirm_quit: false,
                confirm_delete: false,
                status: Seq::empty(),
                ..v
            };
            let name = if v.profile_sel is Some && v.profile_sel->0 < v.profiles.len() {
                Some(v.profiles[v.profile_sel->0 as int])
            } else {
                None
            };
            &&& k.code == KeyCode::Char('K') || (k.code == KeyCode::Up && k.shift) ==> (r, q)
                == a.profile_moved_and_written(-1)
            &&& k.code == KeyCode::Char('J') || (k.code == KeyCode::Down && k.shift) ==> (r, q)
                == a.profile_moved_and_written(1)
            &&& k.code == KeyCode::Char('k') || (k.code == KeyCode::Up && !k.shift) ==> r == (
            AppView { profile_sel: row_above(v.profile_sel), ..a })
            &&& k.code == KeyCode::Char('j') || (k.code == KeyCode::Down && !k.shift) ==> r == (
            AppView { profile_sel: row_below(v.profile_sel, v.profiles.len()), ..a })
            &&& k.code == KeyCode::Char('n') ==> r == (AppView {
                input: Seq::empty(),
                rename_from: None,
                mode: Mode::NameInput,
                ..a
            })
            &&& k.code == KeyCode::Char('r') && name is Some ==> r == (AppView {
                input: name->0,
                rename_from: name,
                mode: Mode::NameInput,
                ..a
            })
            &&& k.code == KeyCode::Char('q') || k.code == KeyCode::Esc || k.code == KeyCode::Char(
                'p',
            ) || (k.code == KeyCode::Enter && name is Some) ==> r == (AppView {
                mode: Mode::Browse,
                ..a
            })
            &&& k.code == KeyCode::Char('d') && name is Some && !v.confirm_delete ==> r == (AppView {
                confirm_delete: true,
                status: "Press d again to delete profile '"@ + name->0 + "'"@,
                ..a
            })
            &&& k.code == KeyCode::Char('d') && v.confirm_delete ==> r == a
            &&& k.code == KeyCode::Char('e') ==> r == a
        }),
{
}

/// Which page a key leads to, from every page.
#[verifier::spinoff_prover]
#[verifier::rlimit(60)]
pub proof fn keys_lead_to_pages(v: AppView, k: KeyPress)
    requires
        !interrupts(k),
        v.slots.len() <= usize::MAX,
    ensures
        ({
            let r = v.key_step(k).0;
            let back = k.code == KeyCode::Char('q') || k.code == KeyCode::Esc;
            let named = v.profile_sel is Some && v.profile_sel->0 < v.profiles.len();
            &&& v.mode == Mode::Browse ==> r.mode == if k.code == KeyCode::Char('p') {
                Mode::Profiles
            } else if k.code == KeyCode::Char('S') {
                Mode::Status
            } else if k.code == KeyCode::Char('?') {
                Mode::Help
            } else if k.code == KeyCode::Char('R') && v.focus == Pane::Profile && v.prof_sel is Some
                && v.prof_sel->0 < v.slots.len() && v.slots.len() > 1 {
                Mode::RequirementPicker
            } else {
                Mode::Browse
            }
            &&& v.mode == Mode::Help ==> r.mode == Mode::Browse
            &&& v.mode == Mode::Status ==> r.mode == if back || chooses(k) || k.code
                == KeyCode::Char('S') {
                Mode::Browse
            } else {
                Mode::Status
            }
            &&& v.mode == Mode::VersionPicker ==> r.mode == if back || chooses(k) || k.code
                == KeyCode::Char('v') {
                Mode::Browse
            } else {
                Mode::VersionPicker
            }
            &&& v.mode == Mode::RequirementPicker ==> r.mode == if back || k.code == KeyCode::Enter
                || k.code == KeyCode::Char('R') {
                Mode::Browse
            } else {
                Mode::RequirementPicker
            }
            &&& v.mode == Mode::Profiles ==> r.mode == if back || k.code == KeyCode::Char('p') || (
            k.code == KeyCode::Enter && named) {
                Mode::Browse
            } else if k.code == KeyCode::Char('n') || (k.code == KeyCode::Char('r') && named) {
                Mode::NameInput
            } else {
                Mode::Profiles
            }
            &&& v.mode == Mode::NameInput ==> r.mode == if k.code == KeyCode::Esc || (k.code
                == KeyCode::Enter && name_is_valid(trimmed(v.input))) {
                Mode::Profiles
            } else {
                Mode::NameInput
            }
        }),
{
    repinning_keeps_the_load_order(v.awake());
}

/// A name grows by the letters that are typed, as long as it is short enough,
/// and shrinks by one with backspace.
pub proof fn names_are_typed(v: AppView, k: KeyPress)
    requires
        v.mode == Mode::NameInput,
        !interrupts(k),
    ensures
        ({
            let r = v.key_step(k).0;
            &&& k.code matches KeyCode::Char(c) ==> r.input == if encode_utf8(
                v.input,
            ).len() < 40 {
                v.input.push(c)
            } else {
                v.input
            }
            &&& k.code == KeyCode::Backspace ==> r.input == if v.input.len() > 0 {
                v.input.take(v.input.len() - 1)
            } else {
                v.input
            }
            &&& !(k.code is Char) && k.code != KeyCode::Backspace ==> r.input == v.input
            &&& k.code == KeyCode::Enter && !name_is_valid(trimmed(v.input))
                ==> r.status == "Profile names: letters, digits, space, - _ . only"@
                && r.rename_from == v.rename_from
        }),
{
    if v.input.len() > 0 {
        assert(v.input.drop_last() =~= v.input.take(v.input.len() - 1));
    }
}

/// A key that was pressed takes away the last message and what waited to be
/// confirmed.
#[verifier::spinoff_prover]
#[verifier::rlimit(60)]
pub proof fn confirmations_last_one_key(v: AppView, k: KeyPress)
    requires
        !interrupts(k),
    ensures
        ({
            let r = v.key_step(k).0;
            &&& r.confirm_quit ==> v.mode == Mode::Browse && v.dirty && !v.confirm_quit && (k.code
                == KeyCode::Esc || k.code == KeyCode::Char('q'))
            &&& r.confirm_delete ==> v.mode == Mode::Profiles && !v.confirm_delete && k.code
                == KeyCode::Char('d')
        }),
{
    repinning_keeps_the_load_order(v.awake());
}

/// The names that a profile may have: some letter that is not blank, nothing but
/// letters, digits, spaces, dashes, underscores and dots, and not a mere `.` or
/// `..`.
pub proof fn profile_names_are_plain(name: Seq<char>)
    ensures
        name_is_valid(name) <==> {
            &&& trimmed(name).len() > 0
            &&& name != "."@
            &&& name != ".."@
            &&& forall|i: int|
                0 <= i < name.len() ==> {
                    let c = #[trigger] name[i] as int;
                    (97 <= c <= 122) || (65 <= c <= 90) || (48 <= c <= 57) || c == 32 || c == 45 || c
                        == 95 || c == 46
                }
        },
{
    assert forall|c: char| #[trigger] name_char(c) == {
        let n = c as int;
        (97 <= n <= 122) || (65 <= n <= 90) || (48 <= n <= 57) || n == 32 || n == 45 || n == 95 || n
            == 46
    } by {}
    if name_is_valid(name) {
        assert forall|i: int| 0 <= i < name.len() implies name_char(
            #[trigger] name[i],
        ) by {}
    }
    if forall|i: int|
        0 <= i < name.len() ==> {
            let c = #[trigger] name[i] as int;
            (97 <= c <= 122) || (65 <= c <= 90) || (48 <= c <= 57) || c == 32 || c == 45 || c == 95
                || c == 46
        } {
        assert forall|i: int| 0 <= i < name.len() implies name_char(
            #[trigger] name[i],
        ) by {
            let c = name[i] as int;
            assert((97 <= c <= 122) || (65 <= c <= 90) || (48 <= c <= 57) || c == 32 || c == 45 || c
                == 95 || c == 46);
        }
    }
}

/// The other keys of the panes: `U` updates all mods and has the versions stored
/// that this takes, `R` opens the requirement picker; what a key cannot do is
/// told.
pub proof fn pane_keys_ask_for_what_they_do(v: AppView, k: KeyPress)
    requires
        v.mode == Mode::Browse,
        !interrupts(k),
    ensures
        ({
            let (r, q) = v.key_step(k);
            let a = AppView {
                confirm_quit: false,
                confirm_delete: false,
                status: Seq::empty(),
                ..v
            };
            let quits = k.code == KeyCode::Esc || k.code == KeyCode::Char('q');
            &&& k.code == KeyCode::Char('U') ==> r == a.all_updated().0 && q == RequestView::Store(
                a.all_updated().1,
            )
            &&& k.code == KeyCode::Char('R') ==> r == a.requirement_picker_opened()
            &&& k.code == KeyCode::Char('s') && v.current_profile is None ==> r.status
                == "No profile selected — press p then n to save this load order as one"@
            &&& k.code == KeyCode::Char('s') && v.current_profile is Some ==> r == a
            &&& k.code == KeyCode::Char('v') && a.hovered() is Some && v.pool[a.hovered()->0].steam_id
                is None ==> r.status == "Local mods have no Workshop versions"@
            &&& quits && v.dirty && !v.confirm_quit ==> r == (AppView {
                confirm_quit: true,
                status: "Unsaved changes — press q again to discard them, or s to save"@,
                ..a
            })
            &&& quits && (!v.dirty || v.confirm_quit) ==> r == a
            &&& k.code == KeyCode::Char('L') || k.code == KeyCode::Char('o') ==> r == a
            &&& k.code == KeyCode::Other ==> r == a && q == RequestView::Nothing
        }),
{
}

/// The keys of the version picker pin the highlighted version and have it stored
/// where it is not, go to the next row, or close it.
pub proof fn version_keys_pin_the_highlighted_version(v: AppView, k: KeyPress)
    requires
        v.mode == Mode::VersionPicker,
        !interrupts(k),
    ensures
        ({
            let (r, q) = v.key_step(k);
            let a = AppView {
                confirm_quit: false,
                confirm_delete: false,
                status: Seq::empty(),
                ..v
            };
            let (picked, store) = a.version_picked();
            &&& chooses(k) ==> r == picked
            &&& chooses(k) && store is None ==> q == RequestView::Store(Seq::empty())
            &&& chooses(k) && store is Some ==> q == RequestView::Store(seq![store->0])
            &&& k.code == KeyCode::Up || k.code == KeyCode::Char('k') ==> r == (AppView {
                version_sel: row_above(v.version_sel),
                ..a
            })
            &&& k.code == KeyCode::Down || k.code == KeyCode::Char('j') ==> r == (AppView {
                version_sel: row_below(v.version_sel, v.versions.len()),
                ..a
            })
            &&& k.code == KeyCode::Esc || k.code == KeyCode::Char('q') || k.code == KeyCode::Char(
                'v',
            ) ==> r == (AppView { mode: Mode::Browse, ..a })
        }),
{
}

/// The keys of the requirement picker mark the highlighted slot, go to the next
/// row, or close it.
pub proof fn requirement_keys_mark_the_highlighted_slot(v: AppView, k: KeyPress)
    requires
        v.mode == Mode::RequirementPicker,
        !interrupts(k),
    ensures
        ({
            let (r, q) = v.key_step(k);
            let a = AppView {
                confirm_quit: false,
                confirm_delete: false,
                status: Seq::empty(),
                ..v
            };
            &&& q == RequestView::Nothing
            &&& k.code == KeyCode::Char(' ') ==> r == a.requirement_toggled()
            &&& k.code == KeyCode::Up || k.code == KeyCode::Char('k') ==> r == (AppView {
                req_sel: row_above(v.req_sel),
                ..a
            })
            &&& k.code == KeyCode::Down || k.code == KeyCode::Char('j') ==> r == (AppView {
                req_sel: row_below(v.req_sel, a.candidates().len()),
                ..a
            })
            &&& k.code == KeyCode::Esc || k.code == KeyCode::Char('q') || k.code == KeyCode::Enter
                || k.code == KeyCode::Char('R') ==> r == (AppView {
                req_slot: None,
                mode: Mode::Browse,
                ..a
            })
        }),
{
}

/// What an interrupt does: the program ends, and nothing changes.
pub proof fn interrupts_end_the_program(v: AppView, k: KeyPress)
    requires
        interrupts(k),
    ensures
        v.key_step(k) == (v, RequestView::Quit),
{
}

/// A name that was typed is taken over: a new profile is saved under it, or the
/// profile that is renamed gets it, and the list of profiles is shown again.
pub proof fn typed_names_are_taken_over(v: AppView, k: KeyPress)
    requires
        v.mode == Mode::NameInput,
        k.code == KeyCode::Enter || k.code == KeyCode::Esc,
    ensures
        ({
            let (r, q) = v.key_step(k);
            let valid = name_is_valid(trimmed(v.input));
            &&& k.code == KeyCode::Esc || valid ==> r.mode == Mode::Profiles && r.rename_from is None
            &&& k.code == KeyCode::Esc ==> q == RequestView::Nothing
            &&& r.slots == v.slots && r.pins == v.pins && r.profiles == v.profiles
        }),
{
}

} // verus!
