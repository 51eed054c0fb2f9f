//! What holds of the application as a whole.

use vstd::prelude::*;
use vstd::seq_lib::group_to_multiset_ensures;

use crate::app::{
    first_same, first_with_id, requirement_flipped, selected_in, slots_fit, AppView, Mode, Pane,
};
use crate::json::{parsed_json, JsonView};
use crate::keys::{KeyCode, KeyPress, RequestView};
use crate::model::{MlView, ModView, SlotView};
use crate::modlist::{ids_agree, pins_are_sticky};
use crate::order::{
    index_leq, indices, picked, sorted_indices, sorted_indices_are_a_permutation, swapped,
    text_before, SortKey,
};
use crate::profiles::{
    first_with_pack, in_wanted_order, listed_mods, profile_order_reads_back, resolved_idx, seeded,
    slots_for, slots_resolved,
};
use crate::store::StoreView;
use crate::text::{fits_a_line, lines_of, lowercase, same_ignoring_case, trimmed};

verus! {

proof fn lemma_filtered_indices(n: nat, keep: spec_fn(int) -> bool)
    ensures
        forall|i: int|
            indices(n).filter(keep).contains(i) <==> 0 <= i < n && keep(i),
        indices(n).filter(keep).no_duplicates(),
    decreases n,
{
    reveal(Seq::filter);
    if n > 0 {
        let m = (n - 1) as nat;
        lemma_filtered_indices(m, keep);
        let a = indices(n).filter(keep);
        let b = indices(m).filter(keep);
        assert(indices(n).drop_last() =~= indices(m));
        assert(a == if keep(m as int) {
            b.push(m as int)
        } else {
            b
        });
        assert forall|i: int| a.contains(i) <==> 0 <= i < n && keep(i) by {
            if b.contains(i) && keep(m as int) {
                let j = choose|j: int| 0 <= j < b.len() && b[j] == i;
                assert(a[j] == i);
            }
            if keep(m as int) {
                assert(a[a.len() - 1] == m);
                if a.contains(i) && i != m {
                    let j = choose|j: int| 0 <= j < a.len() && a[j] == i;
                    assert(b[j] == i);
                }
            }
        }
        assert(a.no_duplicates()) by {
            if keep(m as int) {
                assert(!b.contains(m as int));
            }
        }
    } else {
        assert(indices(0).filter(keep) =~= Seq::<int>::empty());
    }
}

/// Sorting rearranges: what is picked by a sorted list of all positions is what
/// was there, each once.
proof fn lemma_sorted_elements(v: Seq<int>, keys: Seq<Seq<char>>)
    requires
        v.len() == keys.len(),
        v.no_duplicates(),
    ensures
        ({
            let ord = sorted_indices(keys, <String as SortKey>::order());
            let r = picked(v, ord);
            &&& r.len() == v.len()
            &&& r.no_duplicates()
            &&& forall|x: int| r.contains(x) <==> v.contains(x)
            &&& forall|j: int, k: int|
                0 <= j < k < r.len() ==> !text_before(keys[#[trigger] ord[k]], keys[#[trigger] ord[j]])
        }),
{
    <String as SortKey>::order_is_strict_weak();
    let before = <String as SortKey>::order();
    sorted_indices_are_a_permutation(keys, before);
    let ord = sorted_indices(keys, before);
    let r = picked(v, ord);
    broadcast use group_to_multiset_ensures;

    assert(indices(keys.len()).no_duplicates());
    indices(keys.len()).lemma_multiset_has_no_duplicates();
    assert(ord.no_duplicates()) by {
        ord.lemma_multiset_has_no_duplicates_conv();
    }
    assert forall|x: int| r.contains(x) <==> v.contains(x) by {
        if r.contains(x) {
            let k = choose|k: int| 0 <= k < r.len() && r[k] == x;
            assert(v[ord[k]] == x);
        }
        if v.contains(x) {
            let i = choose|i: int| 0 <= i < v.len() && v[i] == x;
            assert(ord.contains(i));
            let k = choose|k: int| 0 <= k < ord.len() && ord[k] == i;
            assert(r[k] == x);
        }
    }
    assert forall|j: int, k: int| 0 <= j < k < r.len() implies r[j] != r[k] by {
        assert(ord[j] != ord[k]);
    }
    assert forall|j: int, k: int| 0 <= j < k < r.len() implies !text_before(
        keys[#[trigger] ord[k]],
        keys[#[trigger] ord[j]],
    ) by {
        assert(index_leq(keys, before)(ord[j], ord[k]));
    }
}

/// The available mods are the installed mods that are not in the load order,
/// each once, sorted by name.
pub proof fn available_mods_are_the_rest(v: AppView)
    ensures
        forall|i: int| #[trigger]
            v.available().contains(i) <==> 0 <= i < v.pool.len() && !v.pool[i].missing
                && !v.in_order(i),
        v.available().no_duplicates(),
        forall|j: int, k: int|
            0 <= j < k < v.available().len() ==> !text_before(
                lowercase(v.pool[#[trigger] v.available()[k]].name),
                lowercase(v.pool[#[trigger] v.available()[j]].name),
            ),
{
    let keep = |i: int| !v.pool[i].missing && !v.in_order(i);
    lemma_filtered_indices(v.pool.len(), keep);
    let free = v.free();
    assert(free == indices(v.pool.len()).filter(keep));
    let keys = free.map_values(|i: int| lowercase(v.pool[i].name));
    lemma_sorted_elements(free, keys);
    let ord = sorted_indices(keys, <String as SortKey>::order());
    assert(v.available() == picked(free, ord));
    <String as SortKey>::order_is_strict_weak();
    sorted_indices_are_a_permutation(keys, <String as SortKey>::order());
    assert forall|j: int, k: int| 0 <= j < k < v.available().len() implies !text_before(
        lowercase(v.pool[#[trigger] v.available()[k]].name),
        lowercase(v.pool[#[trigger] v.available()[j]].name),
    ) by {
        assert(keys[ord[k]] == lowercase(v.pool[v.available()[k]].name));
        assert(keys[ord[j]] == lowercase(v.pool[v.available()[j]].name));
    }
}

proof fn lemma_swap_fits(slots: Seq<SlotView>, i: int, j: int, n: nat)
    requires
        slots_fit(slots, n),
        0 <= i < slots.len(),
        0 <= j < slots.len(),
    ensures
        slots_fit(swapped(slots, i, j), n),
{
    let t = swapped(slots, i, j);
    let u = slots.update(i, slots[j]);
    assert(t == u.update(j, slots[i]));
    assert forall|k: int| 0 <= k < t.len() implies (#[trigger] t[k]).is_below(n) by {
        assert(slots[i].is_below(n) && slots[j].is_below(n) && slots[k].is_below(n));
        assert(k != j ==> t[k] == u[k]);
        assert(k != i ==> u[k] == slots[k]);
    }
}

/// Adding the selected mod keeps every slot pointing into the pool.
proof fn lemma_add_fits(v: AppView)
    requires
        v.fits(),
        v.pool.len() <= usize::MAX,
    ensures
        slots_fit(v.selected_added().slots, v.pool.len()),
{
    available_mods_are_the_rest(v);
    let t = v.selected_added().slots;
    if selected_in(v.avail_sel, v.available().len()) {
        let i = v.available()[v.avail_sel->0 as int];
        assert(v.available().contains(i));
        assert(0 <= i < v.pool.len());
        assert forall|k: int| 0 <= k < t.len() implies (#[trigger] t[k]).is_below(v.pool.len()) by {
            if k < v.slots.len() {
                assert(v.slots[k].is_below(v.pool.len()));
            } else {
                assert(t[k].idx == Some(i as usize));
            }
        }
    }
}

proof fn lemma_update_slot_fits(slots: Seq<SlotView>, i: int, s: SlotView, n: nat)
    requires
        slots_fit(slots, n),
        0 <= i < slots.len(),
        s.idx == slots[i].idx,
    ensures
        slots_fit(slots.update(i, s), n),
{
    let t = slots.update(i, s);
    assert forall|k: int| 0 <= k < t.len() implies (#[trigger] t[k]).is_below(n) by {
        assert(slots[k].is_below(n));
    }
}

proof fn lemma_repin_keeps(v: AppView, targets: Seq<(Seq<char>, int)>)
    ensures
        v.all_repinned(targets).0 == (AppView { pins: v.all_repinned(targets).0.pins, ..v }),
    decreases targets.len(),
{
    if targets.len() > 0 {
        lemma_repin_keeps(v, targets.drop_last());
    }
}

/// Every change of the load order keeps the slots pointing into the pool.
proof fn lemma_changed_slots_fit(v: AppView)
    requires
        v.fits(),
        v.pool.len() <= usize::MAX,
    ensures
        slots_fit(v.selected_added().slots, v.pool.len()),
        slots_fit(v.selected_toggled().slots, v.pool.len()),
        slots_fit(v.selected_removed().slots, v.pool.len()),
        slots_fit(v.slot_moved(1).slots, v.pool.len()),
        slots_fit(v.slot_moved(-1).slots, v.pool.len()),
        slots_fit(v.requirement_toggled().slots, v.pool.len()),
        v.requirement_toggled().slots.len() == v.slots.len(),
{
    let n = v.pool.len();
    lemma_add_fits(v);
    if selected_in(v.prof_sel, v.slots.len()) {
        let i = v.prof_sel->0 as int;
        if 0 <= i - 1 {
            lemma_swap_fits(v.slots, i, i - 1, n);
        }
        if i + 1 < v.slots.len() {
            lemma_swap_fits(v.slots, i, i + 1, n);
        }
        lemma_update_slot_fits(
            v.slots,
            i,
            SlotView { enabled: !v.slots[i].enabled, ..v.slots[i] },
            n,
        );
        assert(slots_fit(v.slots.remove(i), n)) by {
            let r = v.slots.remove(i);
            assert forall|k: int| 0 <= k < r.len() implies (#[trigger] r[k]).is_below(n) by {
                assert(v.slots[if k < i {
                    k
                } else {
                    k + 1
                }].is_below(n));
            }
        }
    }
    if v.req_slot is Some {
        let r = v.req_slot->0 as int;
        let c = v.candidates()[v.req_sel->0 as int];
        lemma_update_slot_fits(
            v.slots,
            r,
            SlotView {
                requires: requirement_flipped(v.slots[r].requires, v.slots[c].id),
                ..v.slots[r]
            },
            n,
        );
    }
}

/// Whatever key is pressed, every index keeps pointing at something.
#[verifier::rlimit(60)]
#[verifier::spinoff_prover]
pub proof fn keys_keep_the_state_fitting(v: AppView, k: KeyPress)
    requires
        v.fits(),
        v.pool.len() <= usize::MAX,
    ensures
        v.key_step(k).0.fits(),
{
    let a = v.awake();
    lemma_changed_slots_fit(a);
    lemma_repin_keeps(a, a.outdated(a.slots));
}

/// Unsaved changes are only discarded when that was confirmed by pressing the
/// key twice in a row; Ctrl-C ends the program at once.
pub proof fn unsaved_changes_need_confirmation(v: AppView, k: KeyPress, next: KeyPress)
    requires
        v.mode == Mode::Browse,
        v.dirty,
        !v.confirm_quit,
        k.code == KeyCode::Esc || k.code == KeyCode::Char('q'),
    ensures
        v.key_step(k).1 == RequestView::Nothing,
        v.key_step(k).0.dirty && v.key_step(k).0.slots == v.slots,
        next.code == KeyCode::Esc || next.code == KeyCode::Char('q') ==> v.key_step(k).0.key_step(
            next,
        ).1 == RequestView::Quit,
        next.code == KeyCode::Tab ==> !v.key_step(k).0.key_step(next).0.confirm_quit,
        next.code == KeyCode::Char('c') && next.control ==> v.key_step(next).1
            == RequestView::Quit,
{
}

/// A profile is only deleted when that was confirmed by pressing the key twice
/// in a row, and then it is the one that was asked about.
pub proof fn deletion_needs_confirmation(v: AppView, k: KeyPress, n: Seq<char>)
    requires
        v.mode == Mode::Profiles,
        v.key_step(k).1 == RequestView::Delete(n),
    ensures
        k.code == KeyCode::Char('d'),
        v.confirm_delete,
        v.selected_name() == Some(n),
{
}

/// Enabling and disabling a slot twice leaves the load order as it was.
pub proof fn toggling_twice_changes_nothing(v: AppView)
    ensures
        v.selected_toggled().selected_toggled().slots == v.slots,
{
    let t = v.selected_toggled();
    assert(t.selected_toggled().slots =~= v.slots);
}

/// Moving a slot neither loses nor changes any slot, and moving it back gives
/// the load order that was there before.
pub proof fn moving_a_slot_rearranges(v: AppView, delta: int)
    requires
        v.slots.len() <= usize::MAX,
    ensures
        v.slot_moved(delta).slots.to_multiset() == v.slots.to_multiset(),
        v.slot_moved(delta) != v ==> v.slot_moved(delta).slot_moved(-delta).slots == v.slots,
{
    let t = v.slot_moved(delta);
    if v.focus == Pane::Profile && selected_in(v.prof_sel, v.slots.len()) && 0 <= v.prof_sel->0
        + delta < v.slots.len() {
        let i = v.prof_sel->0 as int;
        lemma_swapped_multiset(v.slots, i, i + delta);
        assert(t.prof_sel == Some((i + delta) as usize));
        assert(swapped(swapped(v.slots, i, i + delta), i + delta, i) =~= v.slots);
    }
}

proof fn lemma_swapped_multiset<T>(v: Seq<T>, i: int, j: int)
    requires
        0 <= i < v.len(),
        0 <= j < v.len(),
    ensures
        swapped(v, i, j).to_multiset() == v.to_multiset(),
{
    broadcast use group_to_multiset_ensures;

    let a = v.update(i, v[j]);
    assert(a.to_multiset() =~= v.to_multiset().insert(v[j]).remove(v[i]));
    assert(a[j] == v[j] || i == j);
    assert(v.to_multiset().count(v[i]) > 0) by {
        assert(v.contains(v[i]));
    }
    assert(a.to_multiset().count(v[j]) > 0) by {
        assert(a.contains(v[j])) by {
            assert(a[i] == v[j]);
        }
    }
    assert(swapped(v, i, j).to_multiset() =~= a.to_multiset().insert(v[i]).remove(a[j]));
    assert(swapped(v, i, j).to_multiset() =~= v.to_multiset());
}

/// A profile that was moved in the list stays where it was moved: the order that
/// is written then is the order in which the profiles are listed again.
pub proof fn moved_profiles_stay_in_place(v: AppView, delta: int, names: Seq<Seq<char>>)
    requires
        v.profile_moves(delta),
        v.profiles.to_multiset() == names.to_multiset(),
        forall|i: int|
            0 <= i < v.profiles.len() ==> fits_a_line(#[trigger] v.profiles[i]) && trimmed(
                v.profiles[i],
            ) == v.profiles[i],
    ensures
        v.profile_moved_and_written(delta).1 matches RequestView::WriteOrder(text)
            && in_wanted_order(names, lines_of(text)) == v.profile_moved(delta).profiles,
{
    let i = v.profile_sel->0 as int;
    let moved = v.profile_moved(delta).profiles;
    let j = i + delta;
    lemma_swapped_multiset(v.profiles, i, j);
    let u = v.profiles.update(i, v.profiles[j]);
    assert(moved == u.update(j, v.profiles[i]));
    assert(0 <= i < v.profiles.len() && 0 <= j < v.profiles.len());
    assert forall|k: int| 0 <= k < moved.len() implies fits_a_line(#[trigger] moved[k]) && trimmed(
        moved[k],
    ) == moved[k] by {
        let from = if k == j {
            i
        } else if k == i {
            j
        } else {
            k
        };
        assert(moved[k] == v.profiles[from]);
        assert(fits_a_line(v.profiles[from]));
    }
    profile_order_reads_back(names, moved);
}

proof fn lemma_first_same(reqs: Seq<Seq<char>>, id: Seq<char>, from: int)
    requires
        0 <= from,
    ensures
        first_same(reqs, id, from) matches Some(p) ==> from <= p < reqs.len()
            && same_ignoring_case(reqs[p], id),
        first_same(reqs, id, from) is None ==> forall|i: int|
            from <= i < reqs.len() ==> !same_ignoring_case(#[trigger] reqs[i], id),
    decreases reqs.len() - from,
{
    if from < reqs.len() && !same_ignoring_case(reqs[from], id) {
        lemma_first_same(reqs, id, from + 1);
    }
}

/// A requirement is listed.
pub open spec fn requires_mod(reqs: Seq<Seq<char>>, id: Seq<char>) -> bool {
    exists|i: int| 0 <= i < reqs.len() && same_ignoring_case(#[trigger] reqs[i], id)
}

/// Toggling a requirement enters it if it was not listed and takes it out if it
/// was, as long as it is not listed twice; toggling one that was not listed a
/// second time gives the list that was there before.
pub proof fn toggling_a_requirement_flips_it(reqs: Seq<Seq<char>>, id: Seq<char>)
    requires
        forall|i: int, j: int|
            0 <= i < j < reqs.len() && same_ignoring_case(#[trigger] reqs[i], id)
                ==> !same_ignoring_case(#[trigger] reqs[j], id),
    ensures
        requires_mod(requirement_flipped(reqs, id), id) == !requires_mod(reqs, id),
        !requires_mod(reqs, id) ==> requirement_flipped(requirement_flipped(reqs, id), id) == reqs,
{
    lemma_first_same(reqs, id, 0);
    let t = requirement_flipped(reqs, id);
    lemma_first_same(t, id, 0);
    match first_same(reqs, id, 0) {
        Some(p) => {
            assert(same_ignoring_case(reqs[p], id));
            assert forall|i: int| 0 <= i < t.len() implies !same_ignoring_case(
                #[trigger] t[i],
                id,
            ) by {
                let j = if i < p {
                    i
                } else {
                    i + 1
                };
                assert(t[i] == reqs[j]);
                if same_ignoring_case(reqs[j], id) {
                    if j < p {
                        assert(same_ignoring_case(reqs[j], id) && same_ignoring_case(reqs[p], id));
                    } else {
                        assert(same_ignoring_case(reqs[p], id) && same_ignoring_case(reqs[j], id));
                    }
                }
            }
        },
        None => {
            let n = reqs.len() as int;
            assert(t[n] == id);
            assert(same_ignoring_case(t[n], id));
            assert forall|i: int| 0 <= i < n implies !same_ignoring_case(#[trigger] t[i], id) by {
                assert(t[i] == reqs[i]);
            }
            assert(first_same(t, id, 0) == Some(n));
            assert(t.remove(n) =~= reqs);
        },
    }
}

/// A mod that was added is at the end of the load order and no longer
/// available.
pub proof fn added_mod_is_in_the_load_order(v: AppView)
    requires
        v.pool.len() <= usize::MAX,
        selected_in(v.avail_sel, v.available().len()),
    ensures
        ({
            let i = v.available()[v.avail_sel->0 as int];
            let t = v.selected_added();
            &&& t.slots.drop_last() == v.slots
            &&& t.slots.last().is_mod(i)
            &&& t.slots.last().id == v.pool[i].id
            &&& !t.available().contains(i)
            &&& t.dirty
        }),
{
    available_mods_are_the_rest(v);
    let t = v.selected_added();
    available_mods_are_the_rest(t);
    let i = v.available()[v.avail_sel->0 as int];
    assert(v.available().contains(i));
    assert(0 <= i < v.pool.len());
    assert(t.slots.drop_last() =~= v.slots);
    assert(t.slots[t.slots.len() - 1].is_mod(i));
    assert(t.in_order(i));
}

/// Some slot has the mod `x` by id and position, and Steam moved it past its
/// pin.
spec fn is_outdated(v: AppView, slots: Seq<SlotView>, x: (Seq<char>, int)) -> bool {
    exists|k: int|
        0 <= k < slots.len() && v.updated(#[trigger] slots[k]) && x == (
            slots[k].id,
            slots[k].idx->0 as int,
        )
}

proof fn lemma_outdated(v: AppView, slots: Seq<SlotView>)
    ensures
        forall|k: int|
            0 <= k < slots.len() && v.updated(#[trigger] slots[k]) ==> v.outdated(slots).contains(
                (slots[k].id, slots[k].idx->0 as int),
            ),
        forall|j: int|
            0 <= j < v.outdated(slots).len() ==> is_outdated(v, slots, #[trigger] v.outdated(
                slots,
            )[j]),
    decreases slots.len(),
{
    if slots.len() > 0 {
        let s = slots.drop_last();
        lemma_outdated(v, s);
        let a = v.outdated(s);
        let b = v.outdated(slots);
        assert forall|k: int| 0 <= k < slots.len() && v.updated(#[trigger] slots[k]) implies b.contains(
            (slots[k].id, slots[k].idx->0 as int)) by {
            if k < s.len() {
                assert(s[k] == slots[k]);
                let x = (slots[k].id, slots[k].idx->0 as int);
                assert(a.contains(x));
                let j = choose|j: int| 0 <= j < a.len() && a[j] == x;
                assert(b[j] == x);
            } else {
                assert(b[b.len() - 1] == (slots[k].id, slots[k].idx->0 as int));
            }
        }
        assert forall|j: int| 0 <= j < b.len() implies is_outdated(v, slots, #[trigger] b[j]) by {
            if j < a.len() {
                assert(is_outdated(v, s, a[j]));
                let k = choose|k: int|
                    0 <= k < s.len() && v.updated(#[trigger] s[k]) && a[j] == (
                        s[k].id,
                        s[k].idx->0 as int,
                    );
                assert(slots[k] == s[k]);
            } else {
                assert(v.updated(slots[slots.len() - 1]));
            }
        }
    }
}

/// The targets are mods whose installed version is known, and the same id
/// always means the same mod.
spec fn good_targets(v: AppView, targets: Seq<(Seq<char>, int)>) -> bool {
    &&& forall|j: int|
        0 <= j < targets.len() ==> v.pool[(#[trigger] targets[j]).1].steam_id is Some
            && v.current_manifest(v.pool[targets[j].1].steam_id->0) is Some
    &&& forall|j: int, k: int|
        0 <= j < targets.len() && 0 <= k < targets.len() && (#[trigger] targets[j]).0 == (
        #[trigger] targets[k]).0 ==> targets[j].1 == targets[k].1
}

proof fn lemma_all_repinned(v: AppView, targets: Seq<(Seq<char>, int)>)
    requires
        good_targets(v, targets),
    ensures
        forall|j: int|
            0 <= j < targets.len() ==> v.all_repinned(targets).0.pin_of(
                (#[trigger] targets[j]).0,
            ) == v.current_manifest(v.pool[targets[j].1].steam_id->0),
        forall|id: Seq<char>|
            (forall|j: int| 0 <= j < targets.len() ==> (#[trigger] targets[j]).0 != id)
                ==> v.all_repinned(targets).0.pin_of(id) == v.pin_of(id),
    decreases targets.len(),
{
    if targets.len() > 0 {
        let rest = targets.drop_last();
        assert(good_targets(v, rest)) by {
            assert forall|j: int| 0 <= j < rest.len() implies v.pool[(
            #[trigger] rest[j]).1].steam_id is Some && v.current_manifest(
                v.pool[rest[j].1].steam_id->0,
            ) is Some by {
                assert(rest[j] == targets[j]);
            }
            assert forall|j: int, k: int|
                0 <= j < rest.len() && 0 <= k < rest.len() && (#[trigger] rest[j]).0 == (
                #[trigger] rest[k]).0 implies rest[j].1 == rest[k].1 by {
                assert(rest[j] == targets[j] && rest[k] == targets[k]);
            }
        }
        lemma_all_repinned(v, rest);
        lemma_repin_keeps(v, rest);
        let t = v.all_repinned(rest).0;
        let last = targets[targets.len() - 1];
        let m = v.current_manifest(v.pool[last.1].steam_id->0);
        assert(t.current_manifest(v.pool[last.1].steam_id->0) == m);
        let u = v.all_repinned(targets).0;
        assert(u.pin_of(last.0) == m);
        assert forall|j: int| 0 <= j < targets.len() implies u.pin_of((#[trigger] targets[j]).0)
            == v.current_manifest(v.pool[targets[j].1].steam_id->0) by {
            if targets[j].0 == last.0 {
                assert(targets[j].1 == targets[targets.len() - 1].1);
            } else {
                assert(rest[j] == targets[j]);
                assert(u.pin_of(targets[j].0) == t.pin_of(targets[j].0));
            }
        }
        assert forall|id: Seq<char>|
            (forall|j: int| 0 <= j < targets.len() ==> (#[trigger] targets[j]).0 != id) implies
            u.pin_of(id) == v.pin_of(id) by {
            assert(last.0 != id);
            assert forall|j: int| 0 <= j < rest.len() implies (#[trigger] rest[j]).0 != id by {
                assert(rest[j] == targets[j]);
            }
            assert(u.pin_of(id) == t.pin_of(id));
        }
    }
}

proof fn lemma_outdated_targets(v: AppView)
    requires
        ids_agree(v),
    ensures
        good_targets(v, v.outdated(v.slots)),
{
    let targets = v.outdated(v.slots);
    lemma_outdated(v, v.slots);
    assert(good_targets(v, targets)) by {
        assert forall|j: int| 0 <= j < targets.len() implies v.pool[(
        #[trigger] targets[j]).1].steam_id is Some && v.current_manifest(
            v.pool[targets[j].1].steam_id->0,
        ) is Some by {
            assert(is_outdated(v, v.slots, targets[j]));
            let i = choose|i: int|
                0 <= i < v.slots.len() && v.updated(#[trigger] v.slots[i]) && targets[j] == (
                    v.slots[i].id,
                    v.slots[i].idx->0 as int,
                );
            assert(v.updated(v.slots[i]));
        }
        assert forall|i: int, j: int|
            0 <= i < targets.len() && 0 <= j < targets.len() && (#[trigger] targets[i]).0 == (
            #[trigger] targets[j]).0 implies targets[i].1 == targets[j].1 by {
            assert(is_outdated(v, v.slots, targets[i]) && is_outdated(v, v.slots, targets[j]));
            let a = choose|a: int|
                0 <= a < v.slots.len() && v.updated(#[trigger] v.slots[a]) && targets[i] == (
                    v.slots[a].id,
                    v.slots[a].idx->0 as int,
                );
            let b = choose|b: int|
                0 <= b < v.slots.len() && v.updated(#[trigger] v.slots[b]) && targets[j] == (
                    v.slots[b].id,
                    v.slots[b].idx->0 as int,
                );
            assert(v.slots[a].id == v.slots[b].id);
        }
    }
}

/// Once every mod was updated, Steam has moved none past its pin, and the load
/// order is what it was.
pub proof fn updating_all_leaves_nothing_updated(v: AppView, k: int)
    requires
        ids_agree(v),
        0 <= k < v.slots.len(),
    ensures
        v.all_updated().0.slots == v.slots,
        !v.all_updated().0.updated(v.slots[k]),
{
    let targets = v.outdated(v.slots);
    let u = v.all_repinned(targets).0;
    lemma_outdated(v, v.slots);
    lemma_repin_keeps(v, targets);
    lemma_outdated_targets(v);
    lemma_all_repinned(v, targets);
    let s = v.slots[k];
    let id = s.id;
    if exists|j: int| 0 <= j < targets.len() && (#[trigger] targets[j]).0 == id {
        let j = choose|j: int| 0 <= j < targets.len() && (#[trigger] targets[j]).0 == id;
        assert(is_outdated(v, v.slots, targets[j]));
        let a = choose|a: int|
            0 <= a < v.slots.len() && v.updated(#[trigger] v.slots[a]) && targets[j] == (
                v.slots[a].id,
                v.slots[a].idx->0 as int,
            );
        assert(v.slots[a].id == v.slots[k].id);
        assert(s.idx == v.slots[a].idx);
        assert(u.pin_of(id) == v.current_manifest(v.pool[targets[j].1].steam_id->0));
    } else {
        assert(u.pin_of(id) == v.pin_of(id));
        if v.updated(s) {
            assert(targets.contains((s.id, s.idx->0 as int)));
            let j = choose|j: int|
                0 <= j < targets.len() && targets[j] == (s.id, s.idx->0 as int);
            assert(targets[j].0 == id);
        }
        assert(u.pins.contains_key(id) == v.pins.contains_key(id));
    }
}

proof fn lemma_first_with_pack(pool: Seq<ModView>, name: Seq<char>, from: int)
    requires
        0 <= from,
    ensures
        first_with_pack(pool, name, from) matches Some(i) ==> 0 <= i < pool.len(),
    decreases pool.len() - from,
{
    if from < pool.len() {
        lemma_first_with_pack(pool, name, from + 1);
    }
}

proof fn lemma_first_with_id(pool: Seq<ModView>, id: Seq<char>, from: int)
    requires
        0 <= from,
    ensures
        first_with_id(pool, id, from) matches Some(i) ==> 0 <= i < pool.len(),
    decreases pool.len() - from,
{
    if from < pool.len() {
        lemma_first_with_id(pool, id, from + 1);
    }
}

/// The slots of a profile point into the pool.
pub proof fn profile_slots_fit(pool: Seq<ModView>, entries: Seq<MlView>)
    requires
        pool.len() <= usize::MAX,
    ensures
        slots_fit(slots_for(pool, entries), pool.len()),
{
    assert forall|k: int| 0 <= k < entries.len() implies (#[trigger] slots_for(
        pool,
        entries,
    )[k]).is_below(pool.len()) by {
        lemma_first_with_id(pool, entries[k].id, 0);
    }
}

/// The slots of the launcher's load order point into the pool.
pub proof fn seeded_slots_fit(pool: Seq<ModView>, packs: Seq<Seq<char>>)
    requires
        pool.len() <= usize::MAX,
    ensures
        slots_fit(seeded(pool, packs), pool.len()),
    decreases packs.len(),
{
    if packs.len() > 0 {
        seeded_slots_fit(pool, packs.drop_last());
        lemma_first_with_pack(pool, packs.last(), 0);
        let s = seeded(pool, packs.drop_last());
        let t = seeded(pool, packs);
        assert forall|k: int| 0 <= k < t.len() implies (#[trigger] t[k]).is_below(pool.len()) by {
            if k < s.len() {
                assert(s[k].is_below(pool.len()));
            }
        }
    }
}

/// Applying a profile keeps every index pointing at something.
pub proof fn applying_keeps_the_state_fitting(v: AppView, name: Seq<char>, doc: JsonView)
    requires
        v.fits(),
        v.mode != Mode::RequirementPicker,
        v.pool.len() <= usize::MAX,
        listed_mods(doc) is Some,
    ensures
        v.applied(name, doc).fits(),
        v.applied(name, doc).current_profile == Some(name),
        !v.applied(name, doc).dirty,
{
    profile_slots_fit(v.pool, listed_mods(doc)->0);
}

/// At the start every index points at something.
pub proof fn first_state_fits(
    e: AppView,
    profile: Option<(Seq<char>, Option<Seq<char>>)>,
    packs: Seq<Seq<char>>,
)
    requires
        e.pool.len() <= usize::MAX,
        e.version_mod is None,
        e.req_slot is None,
    ensures
        (match profile {
            Some(p) => e.with_profile(p.0, p.1),
            None => AppView { slots: seeded(e.pool, packs), ..e },
        }).first_rows_selected().fits(),
{
    match profile {
        Some(p) => {
            profile_slots_fit(e.pool, crate::profiles::entries_or_none(p.1));
        },
        None => {
            seeded_slots_fit(e.pool, packs);
        },
    }
}

/// No two mods of the pool have the same id, whatever the case.
pub open spec fn ids_are_distinct(pool: Seq<ModView>) -> bool {
    forall|i: int, j: int|
        0 <= i < j < pool.len() ==> !same_ignoring_case(
            (#[trigger] pool[i]).id,
            (#[trigger] pool[j]).id,
        )
}

proof fn lemma_first_is_itself(pool: Seq<ModView>, i: int, from: int)
    requires
        ids_are_distinct(pool),
        0 <= from <= i < pool.len(),
    ensures
        first_with_id(pool, pool[i].id, from) == Some(i),
    decreases i - from,
{
    if from < i {
        lemma_first_is_itself(pool, i, from + 1);
    }
}

/// Slots that point at the first mod with their id do so the same way for the
/// same id.
pub proof fn resolved_slots_agree(v: AppView)
    requires
        slots_resolved(v.pool, v.slots),
    ensures
        ids_agree(v),
{
    assert forall|j: int, k: int|
        0 <= j < v.slots.len() && 0 <= k < v.slots.len() && (#[trigger] v.slots[j]).id == (
        #[trigger] v.slots[k]).id implies v.slots[j].idx == v.slots[k].idx by {
        assert(v.slots[j].idx == resolved_idx(v.pool, v.slots[j].id));
        assert(v.slots[k].idx == resolved_idx(v.pool, v.slots[k].id));
    }
}

/// The slots of a profile, and those of the launcher's load order, point at the
/// mods with their ids.
pub proof fn first_slots_are_resolved(
    pool: Seq<ModView>,
    entries: Seq<MlView>,
    packs: Seq<Seq<char>>,
)
    requires
        ids_are_distinct(pool),
    ensures
        slots_resolved(pool, slots_for(pool, entries)),
        slots_resolved(pool, seeded(pool, packs)),
    decreases packs.len(),
{
    if packs.len() > 0 {
        first_slots_are_resolved(pool, entries, packs.drop_last());
        lemma_first_with_pack(pool, packs.last(), 0);
        let s = seeded(pool, packs.drop_last());
        let t = seeded(pool, packs);
        assert forall|k: int| 0 <= k < t.len() implies (#[trigger] t[k]).idx == resolved_idx(
            pool,
            t[k].id,
        ) by {
            if k < s.len() {
                assert(s[k].idx == resolved_idx(pool, s[k].id));
            } else {
                let i = first_with_pack(pool, packs.last(), 0)->0;
                lemma_first_is_itself(pool, i, 0);
            }
        }
    }
}

proof fn lemma_changed_slots_resolved(v: AppView)
    requires
        v.fits(),
        v.pool.len() <= usize::MAX,
        ids_are_distinct(v.pool),
        slots_resolved(v.pool, v.slots),
    ensures
        slots_resolved(v.pool, v.selected_added().slots),
        slots_resolved(v.pool, v.selected_toggled().slots),
        slots_resolved(v.pool, v.selected_removed().slots),
        slots_resolved(v.pool, v.slot_moved(1).slots),
        slots_resolved(v.pool, v.slot_moved(-1).slots),
        slots_resolved(v.pool, v.requirement_toggled().slots),
{
    let p = v.pool;
    assert(slots_resolved(p, v.selected_added().slots)) by {
        available_mods_are_the_rest(v);
        let t = v.selected_added().slots;
        assert forall|k: int| 0 <= k < t.len() implies (#[trigger] t[k]).idx == resolved_idx(
            p,
            t[k].id,
        ) by {
            if k < v.slots.len() {
                assert(t[k] == v.slots[k]);
            } else {
                let i = v.available()[v.avail_sel->0 as int];
                assert(v.available().contains(i));
                lemma_first_is_itself(p, i, 0);
            }
        }
    }
    assert(slots_resolved(p, v.selected_toggled().slots)) by {
        let t = v.selected_toggled().slots;
        assert forall|k: int| 0 <= k < t.len() implies (#[trigger] t[k]).idx == resolved_idx(
            p,
            t[k].id,
        ) by {
            assert(v.slots[k].idx == resolved_idx(p, v.slots[k].id));
        }
    }
    assert(slots_resolved(p, v.requirement_toggled().slots)) by {
        let t = v.requirement_toggled().slots;
        assert forall|k: int| 0 <= k < t.len() implies (#[trigger] t[k]).idx == resolved_idx(
            p,
            t[k].id,
        ) by {
            assert(v.slots[k].idx == resolved_idx(p, v.slots[k].id));
        }
    }
    assert(slots_resolved(p, v.selected_removed().slots)) by {
        let t = v.selected_removed().slots;
        assert forall|k: int| 0 <= k < t.len() implies (#[trigger] t[k]).idx == resolved_idx(
            p,
            t[k].id,
        ) by {
            if selected_in(v.prof_sel, v.slots.len()) && k >= v.prof_sel->0 {
                assert(t[k] == v.slots[k + 1]);
            } else {
                assert(t[k] == v.slots[k]);
            }
        }
    }
    lemma_moved_slots_resolved(v, 1);
    lemma_moved_slots_resolved(v, -1);
}

proof fn lemma_moved_slots_resolved(v: AppView, delta: int)
    requires
        slots_resolved(v.pool, v.slots),
    ensures
        slots_resolved(v.pool, v.slot_moved(delta).slots),
{
    let t = v.slot_moved(delta).slots;
    if v.focus == Pane::Profile && selected_in(v.prof_sel, v.slots.len()) && 0 <= v.prof_sel->0
        + delta < v.slots.len() {
        let i = v.prof_sel->0 as int;
        let j = i + delta;
        let u = v.slots.update(i, v.slots[j]);
        assert(t == u.update(j, v.slots[i]));
        assert forall|k: int| 0 <= k < t.len() implies (#[trigger] t[k]).idx == resolved_idx(
            v.pool,
            t[k].id,
        ) by {
            assert(v.slots[i].idx == resolved_idx(v.pool, v.slots[i].id));
            assert(v.slots[j].idx == resolved_idx(v.pool, v.slots[j].id));
            assert(v.slots[k].idx == resolved_idx(v.pool, v.slots[k].id));
            assert(k != j ==> t[k] == u[k]);
            assert(k != i ==> u[k] == v.slots[k]);
        }
    }
}

/// Whatever key is pressed, every slot keeps pointing at the mod with its id.
#[verifier::rlimit(60)]
#[verifier::spinoff_prover]
pub proof fn keys_keep_slots_resolved(v: AppView, k: KeyPress)
    requires
        v.fits(),
        v.pool.len() <= usize::MAX,
        ids_are_distinct(v.pool),
        slots_resolved(v.pool, v.slots),
    ensures
        v.key_step(k).0.pool == v.pool,
        slots_resolved(v.pool, v.key_step(k).0.slots),
{
    let a = v.awake();
    lemma_changed_slots_resolved(a);
    lemma_repin_keeps(a, a.outdated(a.slots));
}

/// Saving the current profile moves no pin: a mod that was pinned is on the same
/// version afterwards, whether it is installed or not.
pub proof fn saving_moves_no_pin(
    v: AppView,
    name: Seq<char>,
    text: Seq<char>,
    shas: Seq<Option<Seq<char>>>,
    saved_at: u64,
    vaulted: nat,
    k: int,
)
    requires
        v.current_profile == Some(name),
        parsed_json(text) == Some(v.modlist_doc(shas, saved_at)),
        ids_agree(v),
        0 <= k < v.slots.len(),
        v.slots[k].idx is Some ==> v.slot_sid(v.slots[k]) is Some,
        v.pins.contains_key(v.slots[k].id),
    ensures
        ({
            let t = v.saved(name, Ok((text, vaulted)));
            &&& t.pins.contains_key(v.slots[k].id)
            &&& t.pins[v.slots[k].id] == v.pins[v.slots[k].id]
            &&& t.slots == v.slots
            &&& !t.dirty
        }),
{
    pins_are_sticky(v, shas, saved_at, k);
}

/// Steam has another version of the slot's mod installed than the one it is
/// pinned to.
pub open spec fn is_past_its_pin(v: AppView, k: int) -> bool {
    let s = v.slots[k];
    &&& s.idx is Some && v.pool[s.idx->0 as int].steam_id is Some
    &&& v.ws.contains_key(v.pool[s.idx->0 as int].steam_id->0)
    &&& v.ws[v.pool[s.idx->0 as int].steam_id->0].manifest.len() > 0
    &&& v.pins.contains_key(s.id)
    &&& v.pins[s.id] != v.ws[v.pool[s.idx->0 as int].steam_id->0].manifest
}

/// A slot is flagged as updated exactly if Steam has another version of its mod
/// installed than the one it is pinned to.
pub proof fn updated_slots_are_past_their_pins(v: AppView, k: int)
    ensures
        v.updated(v.slots[k]) == is_past_its_pin(v, k),
{
}

proof fn lemma_repin_stores(v: AppView, targets: Seq<(Seq<char>, int)>)
    requires
        good_targets(v, targets),
    ensures
        forall|q: StoreView| #[trigger]
            v.all_repinned(targets).1.contains(q) ==> exists|j: int|
                0 <= j < targets.len() && q == v.installed(
                    (#[trigger] targets[j]).1,
                    v.current_manifest(v.pool[targets[j].1].steam_id->0)->0,
                ),
        forall|j: int|
            0 <= j < targets.len() && v.pin_of((#[trigger] targets[j]).0) != v.current_manifest(
                v.pool[targets[j].1].steam_id->0,
            ) ==> v.all_repinned(targets).1.contains(
                v.installed(
                    targets[j].1,
                    v.current_manifest(v.pool[targets[j].1].steam_id->0)->0,
                ),
            ),
    decreases targets.len(),
{
    if targets.len() > 0 {
        let rest = targets.drop_last();
        assert(good_targets(v, rest)) by {
            assert forall|j: int| 0 <= j < rest.len() implies v.pool[(
            #[trigger] rest[j]).1].steam_id is Some && v.current_manifest(
                v.pool[rest[j].1].steam_id->0,
            ) is Some by {
                assert(rest[j] == targets[j]);
            }
            assert forall|j: int, k: int|
                0 <= j < rest.len() && 0 <= k < rest.len() && (#[trigger] rest[j]).0 == (
                #[trigger] rest[k]).0 implies rest[j].1 == rest[k].1 by {
                assert(rest[j] == targets[j] && rest[k] == targets[k]);
            }
        }
        lemma_repin_stores(v, rest);
        lemma_all_repinned(v, rest);
        lemma_repin_keeps(v, rest);
        let (t, before) = v.all_repinned(rest);
        let after = v.all_repinned(targets).1;
        let last = targets[targets.len() - 1];
        let m = v.current_manifest(v.pool[last.1].steam_id->0);
        assert(t.current_manifest(v.pool[last.1].steam_id->0) == m);
        let mine = v.installed(last.1, m->0);
        assert(t.installed(last.1, m->0) == mine);
        assert forall|q: StoreView| #[trigger] after.contains(q) implies exists|j: int|
            0 <= j < targets.len() && q == v.installed(
                (#[trigger] targets[j]).1,
                v.current_manifest(v.pool[targets[j].1].steam_id->0)->0,
            ) by {
            if before.contains(q) {
                let j = choose|j: int|
                    0 <= j < rest.len() && q == v.installed(
                        (#[trigger] rest[j]).1,
                        v.current_manifest(v.pool[rest[j].1].steam_id->0)->0,
                    );
                assert(targets[j] == rest[j]);
            } else {
                let k = choose|k: int| 0 <= k < after.len() && after[k] == q;
                if k < before.len() {
                    assert(before[k] == q);
                }
                assert(q == mine);
                assert(targets[targets.len() - 1] == last);
            }
        }
        assert forall|j: int|
            0 <= j < targets.len() && v.pin_of((#[trigger] targets[j]).0) != v.current_manifest(
                v.pool[targets[j].1].steam_id->0,
            ) implies after.contains(
            v.installed(targets[j].1, v.current_manifest(v.pool[targets[j].1].steam_id->0)->0),
        ) by {
            let q = v.installed(
                targets[j].1,
                v.current_manifest(v.pool[targets[j].1].steam_id->0)->0,
            );
            if exists|i: int| 0 <= i < rest.len() && (#[trigger] rest[i]).0 == targets[j].0 {
                let i = choose|i: int| 0 <= i < rest.len() && (#[trigger] rest[i]).0 == targets[j].0;
                assert(rest[i] == targets[i]);
                assert(before.contains(q));
                let k = choose|k: int| 0 <= k < before.len() && before[k] == q;
                assert(after[k] == q);
            } else {
                if j < rest.len() {
                    assert(rest[j] == targets[j]);
                }
                assert(j == targets.len() - 1);
                assert(t.pin_of(last.0) == v.pin_of(last.0));
                assert(after[after.len() - 1] == mine);
            }
        }
    }
}

/// Updating all mods pins every mod that Steam moved past its pin to the version
/// that is installed, which is to be stored from the mod's folder, and changes
/// no other pin and nothing else but the status.
pub proof fn updating_all_moves_every_outdated_pin(v: AppView)
    requires
        ids_agree(v),
    ensures
        ({
            let (r, stores) = v.all_updated();
            &&& r == (AppView { pins: r.pins, dirty: r.dirty, status: r.status, ..v })
            &&& forall|k: int|
                0 <= k < v.slots.len() && #[trigger] is_past_its_pin(v, k) ==> {
                    let m = v.pool[v.slots[k].idx->0 as int];
                    let w = v.ws[m.steam_id->0];
                    &&& r.pins.contains_key(v.slots[k].id) && r.pins[v.slots[k].id] == w.manifest
                    &&& r.dirty
                    &&& stores.contains(
                        StoreView {
                            sid: m.steam_id->0,
                            manifest: w.manifest,
                            dir: m.dir,
                            timeupdated: w.timeupdated,
                            size: w.size,
                        },
                    )
                }
            &&& forall|id: Seq<char>|
                (forall|k: int|
                    0 <= k < v.slots.len() && #[trigger] is_past_its_pin(v, k) ==> v.slots[k].id
                        != id) ==> (#[trigger] r.pins.contains_key(id) == v.pins.contains_key(id)) && (
                v.pins.contains_key(id) ==> r.pins[id] == v.pins[id])
            &&& forall|q: StoreView| #[trigger]
                stores.contains(q) ==> exists|k: int|
                    0 <= k < v.slots.len() && #[trigger] is_past_its_pin(v, k) && q.dir
                        == v.pool[v.slots[k].idx->0 as int].dir
        }),
{
    let targets = v.outdated(v.slots);
    let (u, stores) = v.all_repinned(targets);
    lemma_outdated(v, v.slots);
    lemma_repin_keeps(v, targets);
    lemma_outdated_targets(v);
    lemma_all_repinned(v, targets);
    lemma_repin_stores(v, targets);
    let r = v.all_updated().0;
    assert(r.pins == u.pins);
    assert forall|k: int| 0 <= k < v.slots.len() && #[trigger] is_past_its_pin(v, k) implies {
        let m = v.pool[v.slots[k].idx->0 as int];
        let w = v.ws[m.steam_id->0];
        &&& r.pins.contains_key(v.slots[k].id) && r.pins[v.slots[k].id] == w.manifest
        &&& r.dirty
        &&& stores.contains(
            StoreView {
                sid: m.steam_id->0,
                manifest: w.manifest,
                dir: m.dir,
                timeupdated: w.timeupdated,
                size: w.size,
            },
        )
    } by {
        let s = v.slots[k];
        assert(v.updated(s));
        assert(targets.contains((s.id, s.idx->0 as int)));
        let j = choose|j: int| 0 <= j < targets.len() && targets[j] == (s.id, s.idx->0 as int);
        assert(u.pin_of(targets[j].0) == v.current_manifest(v.pool[targets[j].1].steam_id->0));
        assert(stores.contains(
            v.installed(targets[j].1, v.current_manifest(v.pool[targets[j].1].steam_id->0)->0),
        ));
        assert(stores.len() > 0);
    }
    assert forall|id: Seq<char>|
        (forall|k: int|
            0 <= k < v.slots.len() && #[trigger] is_past_its_pin(v, k) ==> v.slots[k].id
                != id) implies (#[trigger] r.pins.contains_key(id) == v.pins.contains_key(id)) && (
    v.pins.contains_key(id) ==> r.pins[id] == v.pins[id]) by {
        assert forall|j: int| 0 <= j < targets.len() implies (#[trigger] targets[j]).0 != id by {
            assert(is_outdated(v, v.slots, targets[j]));
            let k = choose|k: int|
                0 <= k < v.slots.len() && v.updated(#[trigger] v.slots[k]) && targets[j] == (
                    v.slots[k].id,
                    v.slots[k].idx->0 as int,
                );
            assert(is_past_its_pin(v, k));
        }
        assert(u.pin_of(id) == v.pin_of(id));
    }
    assert forall|q: StoreView| #[trigger] v.all_updated().1.contains(q) implies exists|k: int|
        0 <= k < v.slots.len() && #[trigger] is_past_its_pin(v, k) && q.dir
            == v.pool[v.slots[k].idx->0 as int].dir by {
        assert(stores.contains(q));
        let j = choose|j: int|
            0 <= j < targets.len() && q == v.installed(
                (#[trigger] targets[j]).1,
                v.current_manifest(v.pool[targets[j].1].steam_id->0)->0,
            );
        assert(is_outdated(v, v.slots, targets[j]));
        let k = choose|k: int|
            0 <= k < v.slots.len() && v.updated(#[trigger] v.slots[k]) && targets[j] == (
                v.slots[k].id,
                v.slots[k].idx->0 as int,
            );
        assert(is_past_its_pin(v, k));
    }
}

/// Updating all mods changes their pins, and nothing else but the message and
/// that there is something to save.
pub proof fn repinning_keeps_the_load_order(v: AppView)
    ensures
        ({
            let r = v.all_updated().0;
            &&& r == (AppView { pins: r.pins, dirty: r.dirty, status: r.status, ..v })
            &&& r.dirty == (v.dirty || v.all_updated().1.len() > 0)
        }),
{
    lemma_repin_keeps(v, v.outdated(v.slots));
}

} // verus!
