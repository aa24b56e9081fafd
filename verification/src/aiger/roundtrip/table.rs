//! Symbol tables: the entries they list, replayed, name the same entries.

use crate::aiger::model::names_from_entries;
use crate::graph::symbols::{lemma_set_slot_found, named_entries, set_slot, SymbolKind, SymbolTable};
use super::{byte_weight, entries_readable, entries_weight, name_at, name_weight};
use vstd::prelude::*;

verus! {

/// The names of list `k` after naming `entries` in order, from `s`.
spec fn replay(
    s: Seq<Option<Seq<char>>>,
    entries: Seq<(SymbolKind, usize, Seq<char>)>,
    k: SymbolKind,
) -> Seq<Option<Seq<char>>>
    decreases entries.len(),
{
    if entries.len() == 0 {
        s
    } else {
        let prev = replay(s, entries.drop_last(), k);
        let (kind, index, name) = entries.last();
        if SymbolTable::storage_kind(kind) == k {
            set_slot(prev, index as int, name)
        } else {
            prev
        }
    }
}

proof fn lemma_replay_empty(entries: Seq<(SymbolKind, usize, Seq<char>)>, k: SymbolKind)
    ensures
        names_from_entries(entries, k) == replay(Seq::empty(), entries, k),
    decreases entries.len(),
{
    if entries.len() > 0 {
        lemma_replay_empty(entries.drop_last(), k);
    }
}

proof fn lemma_replay_concat(
    s: Seq<Option<Seq<char>>>,
    a: Seq<(SymbolKind, usize, Seq<char>)>,
    b: Seq<(SymbolKind, usize, Seq<char>)>,
    k: SymbolKind,
)
    ensures
        replay(s, a + b, k) == replay(replay(s, a, k), b, k),
    decreases b.len(),
{
    if b.len() == 0 {
        assert(a + b =~= a);
    } else {
        assert((a + b).drop_last() =~= a + b.drop_last());
        assert((a + b).last() == b.last());
        lemma_replay_concat(s, a, b.drop_last(), k);
    }
}

/// The named entries of one list, replayed, name that list's entries again
/// (the names of `s` stay where the list has none).
proof fn lemma_replay_named(
    s: Seq<Option<Seq<char>>>,
    kind: SymbolKind,
    names: Seq<Option<Seq<char>>>,
    k: SymbolKind,
)
    requires
        names.len() <= usize::MAX,
    ensures
        SymbolTable::storage_kind(kind) == k ==> forall|i: int|
            0 <= i ==> #[trigger] name_at(replay(s, named_entries(kind, names), k), i) == if name_at(
                names,
                i,
            ) is Some {
                name_at(names, i)
            } else {
                name_at(s, i)
            },
        SymbolTable::storage_kind(kind) != k ==> replay(s, named_entries(kind, names), k) == s,
    decreases names.len(),
{
    if names.len() > 0 {
        let dl = names.drop_last();
        lemma_replay_named(s, kind, dl, k);
        let rest = named_entries(kind, dl);
        let last = (names.len() - 1) as int;
        match names.last() {
            Some(name) => {
                assert(named_entries(kind, names) == rest.push((kind, last as usize, name)));
                assert(rest.push((kind, last as usize, name)).drop_last() =~= rest);
                if SymbolTable::storage_kind(kind) == k {
                    let prev = replay(s, rest, k);
                    lemma_set_slot_found(prev, last, name);
                    assert forall|i: int| 0 <= i implies #[trigger] name_at(
                        replay(s, named_entries(kind, names), k),
                        i,
                    ) == if name_at(names, i) is Some {
                        name_at(names, i)
                    } else {
                        name_at(s, i)
                    } by {
                        if i != last {
                            assert(name_at(names, i) == name_at(dl, i));
                            assert(name_at(prev, i) == if name_at(dl, i) is Some {
                                name_at(dl, i)
                            } else {
                                name_at(s, i)
                            });
                        }
                    }
                }
            },
            None => {
                assert(named_entries(kind, names) == rest);
                if SymbolTable::storage_kind(kind) == k {
                    assert forall|i: int| 0 <= i implies #[trigger] name_at(
                        replay(s, named_entries(kind, names), k),
                        i,
                    ) == if name_at(names, i) is Some {
                        name_at(names, i)
                    } else {
                        name_at(s, i)
                    } by {
                        assert(name_at(names, i) == name_at(dl, i));
                        assert(name_at(replay(s, rest, k), i) == if name_at(dl, i) is Some {
                            name_at(dl, i)
                        } else {
                            name_at(s, i)
                        });
                    }
                }
            },
        }
    }
}

/// Naming the entries that a table lists, in the order it lists them, names
/// the same entries of every list, where the table has no justice names.
pub(super) proof fn lemma_replay_symbols(st: &SymbolTable, k: SymbolKind)
    requires
        forall|i: int| #[trigger] name_at(st.names(SymbolKind::Justice), i) is None,
    ensures
        forall|i: int| 0 <= i ==> #[trigger] name_at(names_from_entries(st.spec_symbols(), k), i) == name_at(st.names(k), i),
{
    let e_i = named_entries(SymbolKind::Input, st.names(SymbolKind::Input));
    let e_l = named_entries(SymbolKind::Latch, st.names(SymbolKind::Latch));
    let e_o = named_entries(SymbolKind::Output, st.names(SymbolKind::Output));
    let e_b = named_entries(SymbolKind::BadState, st.names(SymbolKind::BadState));
    let e_c = named_entries(SymbolKind::Constraint, st.names(SymbolKind::Constraint));
    let e_j = named_entries(SymbolKind::Justice, st.names(SymbolKind::Justice));
    let e_f = named_entries(SymbolKind::Fairness, st.names(SymbolKind::Fairness));
    assert(st.spec_symbols() == e_i + e_l + e_o + e_b + e_c + e_j + e_f);
    lemma_replay_empty(st.spec_symbols(), k);
    let s0 = Seq::<Option<Seq<char>>>::empty();
    lemma_replay_concat(s0, e_i + e_l + e_o + e_b + e_c + e_j, e_f, k);
    lemma_replay_concat(s0, e_i + e_l + e_o + e_b + e_c, e_j, k);
    lemma_replay_concat(s0, e_i + e_l + e_o + e_b, e_c, k);
    lemma_replay_concat(s0, e_i + e_l + e_o, e_b, k);
    lemma_replay_concat(s0, e_i + e_l, e_o, k);
    lemma_replay_concat(s0, e_i, e_l, k);
    let s1 = replay(s0, e_i, k);
    let s2 = replay(s1, e_l, k);
    let s3 = replay(s2, e_o, k);
    let s4 = replay(s3, e_b, k);
    let s5 = replay(s4, e_c, k);
    let s6 = replay(s5, e_j, k);
    let s7 = replay(s6, e_f, k);
    assert(st.names(SymbolKind::Input).len() == st.inputs.len());
    assert(st.names(SymbolKind::Latch).len() == st.latches.len());
    assert(st.names(SymbolKind::Output).len() == st.outputs.len());
    assert(st.names(SymbolKind::BadState).len() == st.bad_states.len());
    assert(st.names(SymbolKind::Constraint).len() == st.constraints.len());
    assert(st.names(SymbolKind::Justice).len() == st.justice.len());
    assert(st.names(SymbolKind::Fairness).len() == st.fairness.len());
    lemma_replay_named(s0, SymbolKind::Input, st.names(SymbolKind::Input), k);
    lemma_replay_named(s1, SymbolKind::Latch, st.names(SymbolKind::Latch), k);
    lemma_replay_named(s2, SymbolKind::Output, st.names(SymbolKind::Output), k);
    lemma_replay_named(s3, SymbolKind::BadState, st.names(SymbolKind::BadState), k);
    lemma_replay_named(s4, SymbolKind::Constraint, st.names(SymbolKind::Constraint), k);
    lemma_replay_named(s5, SymbolKind::Justice, st.names(SymbolKind::Justice), k);
    lemma_replay_named(s6, SymbolKind::Fairness, st.names(SymbolKind::Fairness), k);
    assert forall|i: int| 0 <= i implies #[trigger] name_at(names_from_entries(st.spec_symbols(), k), i) == name_at(
        st.names(k),
        i,
    ) by {
        assert(name_at(s0, i) is None);
        assert(name_at(st.names(SymbolKind::Justice), i) is None);
        assert(name_at(s7, i) == name_at(names_from_entries(st.spec_symbols(), k), i));
    }
}

pub(super) proof fn lemma_entries_weight_concat(
    a: Seq<(SymbolKind, usize, Seq<char>)>,
    b: Seq<(SymbolKind, usize, Seq<char>)>,
    w: spec_fn(Seq<char>) -> nat,
)
    ensures
        entries_weight(a + b, w) == entries_weight(a, w) + entries_weight(b, w),
    decreases b.len(),
{
    if b.len() == 0 {
        assert(a + b =~= a);
    } else {
        assert((a + b).drop_last() =~= a + b.drop_last());
        lemma_entries_weight_concat(a, b.drop_last(), w);
    }
}

proof fn lemma_entries_weight_front(e: Seq<(SymbolKind, usize, Seq<char>)>, w: spec_fn(Seq<char>) -> nat)
    requires
        e.len() > 0,
    ensures
        entries_weight(e, w) == w(e[0].2) + entries_weight(e.drop_first(), w),
{
    let one = seq![e[0]];
    assert(e =~= one + e.drop_first());
    lemma_entries_weight_concat(one, e.drop_first(), w);
    assert(one.drop_last() =~= Seq::<(SymbolKind, usize, Seq<char>)>::empty());
    assert(entries_weight(one.drop_last(), w) == 0);
    assert(one.last() == e[0]);
    assert(entries_weight(one, w) == w(e[0].2));
}

/// Entries within the limits, with names free of line feeds and indices
/// below `usize::MAX`, are accepted one after the other.
pub(super) proof fn lemma_entries_readable(e: Seq<(SymbolKind, usize, Seq<char>)>, count: nat, bytes: nat)
    requires
        forall|k: int, j: int| 0 <= k < e.len() && 0 <= j < e[k].2.len() ==> #[trigger] e[k].2[j] != '\n',
        forall|k: int| 0 <= k < e.len() ==> (#[trigger] e[k]).1 < usize::MAX,
        count + entries_weight(e, |n: Seq<char>| name_weight(n)) + 3 <= u32::MAX,
        bytes + entries_weight(e, |n: Seq<char>| byte_weight(n)) <= u32::MAX,
    ensures
        entries_readable(e, count, bytes),
    decreases e.len(),
{
    if e.len() > 0 {
        let rest = e.drop_first();
        lemma_entries_weight_front(e, |n: Seq<char>| name_weight(n));
        lemma_entries_weight_front(e, |n: Seq<char>| byte_weight(n));
        assert forall|k: int, j: int| 0 <= k < rest.len() && 0 <= j < rest[k].2.len() implies #[trigger] rest[k].2[j]
            != '\n' by {
            assert(rest[k] == e[k + 1]);
        }
        assert forall|k: int| 0 <= k < rest.len() implies (#[trigger] rest[k]).1 < usize::MAX by {
            assert(rest[k] == e[k + 1]);
        }
        assert forall|j: int| 0 <= j < e[0].2.len() implies #[trigger] e[0].2[j] != '\n' by {}
        lemma_entries_readable(rest, count + name_weight(e[0].2), bytes + byte_weight(e[0].2));
    }
}

/// The total weight of the names in a list of names.
spec fn slot_weight(names: Seq<Option<Seq<char>>>, w: spec_fn(Seq<char>) -> nat) -> nat
    decreases names.len(),
{
    if names.len() == 0 {
        0
    } else {
        slot_weight(names.drop_last(), w) + match names.last() {
            Some(n) => w(n),
            None => 0,
        }
    }
}

/// The total weight of the names of the entries stored in list `k`.
spec fn kind_weight(
    entries: Seq<(SymbolKind, usize, Seq<char>)>,
    k: SymbolKind,
    w: spec_fn(Seq<char>) -> nat,
) -> nat
    decreases entries.len(),
{
    if entries.len() == 0 {
        0
    } else {
        kind_weight(entries.drop_last(), k, w) + if SymbolTable::storage_kind(entries.last().0) == k {
            w(entries.last().2)
        } else {
            0
        }
    }
}

/// Entries whose names hold no line feed and whose indices are below
/// `usize::MAX`.
pub(super) open spec fn entries_ok(e: Seq<(SymbolKind, usize, Seq<char>)>) -> bool {
    &&& forall|k: int, j: int| 0 <= k < e.len() && 0 <= j < e[k].2.len() ==> #[trigger] e[k].2[j] != '\n'
    &&& forall|k: int| 0 <= k < e.len() ==> (#[trigger] e[k]).1 < usize::MAX
}

/// Names that hold no line feed.
spec fn names_ok(names: Seq<Option<Seq<char>>>) -> bool {
    forall|i: int, j: int|
        0 <= i < names.len() && names[i] is Some && 0 <= j < names[i]->0.len() ==> #[trigger] names[i]->0[j]
            != '\n'
}

pub(super) proof fn lemma_entries_ok_concat(a: Seq<(SymbolKind, usize, Seq<char>)>, b: Seq<(SymbolKind, usize, Seq<char>)>)
    requires
        entries_ok(a),
        entries_ok(b),
    ensures
        entries_ok(a + b),
{
    assert forall|k: int, j: int| 0 <= k < (a + b).len() && 0 <= j < (a + b)[k].2.len() implies #[trigger] (a
        + b)[k].2[j] != '\n' by {
        if k < a.len() {
            assert((a + b)[k] == a[k]);
        } else {
            assert((a + b)[k] == b[k - a.len()]);
        }
    }
    assert forall|k: int| 0 <= k < (a + b).len() implies (#[trigger] (a + b)[k]).1 < usize::MAX by {
        if k < a.len() {
            assert((a + b)[k] == a[k]);
        } else {
            assert((a + b)[k] == b[k - a.len()]);
        }
    }
}

proof fn lemma_slot_weight_concat(
    a: Seq<Option<Seq<char>>>,
    b: Seq<Option<Seq<char>>>,
    w: spec_fn(Seq<char>) -> nat,
)
    ensures
        slot_weight(a + b, w) == slot_weight(a, w) + slot_weight(b, w),
    decreases b.len(),
{
    if b.len() == 0 {
        assert(a + b =~= a);
    } else {
        assert((a + b).drop_last() =~= a + b.drop_last());
        lemma_slot_weight_concat(a, b.drop_last(), w);
    }
}

proof fn lemma_slot_weight_none(n: nat, w: spec_fn(Seq<char>) -> nat)
    ensures
        slot_weight(Seq::new(n, |i: int| None::<Seq<char>>), w) == 0,
    decreases n,
{
    if n > 0 {
        assert(Seq::new(n, |i: int| None::<Seq<char>>).drop_last() =~= Seq::new(
            (n - 1) as nat,
            |i: int| None::<Seq<char>>,
        ));
        lemma_slot_weight_none((n - 1) as nat, w);
    }
}

proof fn lemma_slot_weight_update(s: Seq<Option<Seq<char>>>, i: int, v: Seq<char>, w: spec_fn(Seq<char>) -> nat)
    requires
        0 <= i < s.len(),
    ensures
        slot_weight(s.update(i, Some(v)), w) <= slot_weight(s, w) + w(v),
    decreases s.len(),
{
    let t = s.update(i, Some(v));
    if i == s.len() - 1 {
        assert(t.drop_last() =~= s.drop_last());
    } else {
        assert(t.drop_last() =~= s.drop_last().update(i, Some(v)));
        lemma_slot_weight_update(s.drop_last(), i, v, w);
    }
}

proof fn lemma_slot_weight_set(s: Seq<Option<Seq<char>>>, i: int, v: Seq<char>, w: spec_fn(Seq<char>) -> nat)
    requires
        0 <= i,
    ensures
        slot_weight(set_slot(s, i, v), w) <= slot_weight(s, w) + w(v),
{
    if s.len() <= i {
        let pad = Seq::new((i + 1 - s.len()) as nat, |j: int| None::<Seq<char>>);
        lemma_slot_weight_concat(s, pad, w);
        lemma_slot_weight_none((i + 1 - s.len()) as nat, w);
        lemma_slot_weight_update(s + pad, i, v, w);
    } else {
        lemma_slot_weight_update(s, i, v, w);
    }
}

/// Replaying entries adds at most the weight of the entries stored in the
/// list, and keeps names free of line feeds.
proof fn lemma_replay_weight(
    s: Seq<Option<Seq<char>>>,
    e: Seq<(SymbolKind, usize, Seq<char>)>,
    k: SymbolKind,
    w: spec_fn(Seq<char>) -> nat,
)
    ensures
        slot_weight(replay(s, e, k), w) <= slot_weight(s, w) + kind_weight(e, k, w),
        names_ok(s) && entries_ok(e) ==> names_ok(replay(s, e, k)),
    decreases e.len(),
{
    if e.len() > 0 {
        let dl = e.drop_last();
        lemma_replay_weight(s, dl, k, w);
        let prev = replay(s, dl, k);
        let (kind, index, name) = e.last();
        if SymbolTable::storage_kind(kind) == k {
            lemma_slot_weight_set(prev, index as int, name, w);
            if names_ok(s) && entries_ok(e) {
                assert(entries_ok(dl)) by {
                    assert forall|q: int, j: int| 0 <= q < dl.len() && 0 <= j < dl[q].2.len() implies #[trigger] dl[q].2[j]
                        != '\n' by {
                        assert(dl[q] == e[q]);
                    }
                    assert forall|q: int| 0 <= q < dl.len() implies (#[trigger] dl[q]).1 < usize::MAX by {
                        assert(dl[q] == e[q]);
                    }
                }
                lemma_set_slot_found(prev, index as int, name);
                let r = set_slot(prev, index as int, name);
                assert forall|i: int, j: int|
                    0 <= i < r.len() && r[i] is Some && 0 <= j < r[i]->0.len() implies #[trigger] r[i]->0[j]
                    != '\n' by {
                    if i == index as int {
                        assert(e[e.len() - 1].2[j] != '\n');
                    } else if i < prev.len() {
                        assert(r[i] == prev[i]);
                    }
                }
            }
        } else {
            if names_ok(s) && entries_ok(e) {
                assert(entries_ok(dl)) by {
                    assert forall|q: int, j: int| 0 <= q < dl.len() && 0 <= j < dl[q].2.len() implies #[trigger] dl[q].2[j]
                        != '\n' by {
                        assert(dl[q] == e[q]);
                    }
                    assert forall|q: int| 0 <= q < dl.len() implies (#[trigger] dl[q]).1 < usize::MAX by {
                        assert(dl[q] == e[q]);
                    }
                }
            }
        }
    }
}

/// The named entries of a list weigh what its names weigh; their names hold
/// no line feed where the list's names hold none, and their indices are
/// positions of the list.
proof fn lemma_named_entries_weight(kind: SymbolKind, names: Seq<Option<Seq<char>>>, w: spec_fn(Seq<char>) -> nat)
    requires
        names.len() <= usize::MAX,
    ensures
        entries_weight(named_entries(kind, names), w) == slot_weight(names, w),
        names_ok(names) ==> entries_ok(named_entries(kind, names)),
    decreases names.len(),
{
    if names.len() > 0 {
        let dl = names.drop_last();
        lemma_named_entries_weight(kind, dl, w);
        let rest = named_entries(kind, dl);
        let last = (names.len() - 1) as int;
        if names_ok(names) {
            assert(names_ok(dl)) by {
                assert forall|i: int, j: int|
                    0 <= i < dl.len() && dl[i] is Some && 0 <= j < dl[i]->0.len() implies #[trigger] dl[i]->0[j]
                    != '\n' by {
                    assert(dl[i] == names[i]);
                }
            }
        }
        match names.last() {
            Some(name) => {
                let e = rest.push((kind, last as usize, name));
                assert(e.drop_last() =~= rest);
                if names_ok(names) {
                    assert(entries_ok(seq![(kind, last as usize, name)])) by {
                        assert forall|q: int, j: int| 0 <= q < 1 && 0 <= j < seq![(kind, last as usize, name)][q].2.len()
                            implies #[trigger] seq![(kind, last as usize, name)][q].2[j] != '\n' by {
                            assert(names[last]->0[j] != '\n');
                        }
                    }
                    lemma_entries_ok_concat(rest, seq![(kind, last as usize, name)]);
                    assert(rest + seq![(kind, last as usize, name)] =~= e);
                }
            },
            None => {},
        }
    }
}

/// No entry is stored in the justice list.
proof fn lemma_replay_justice(s: Seq<Option<Seq<char>>>, e: Seq<(SymbolKind, usize, Seq<char>)>)
    ensures
        replay(s, e, SymbolKind::Justice) == s,
    decreases e.len(),
{
    if e.len() > 0 {
        lemma_replay_justice(s, e.drop_last());
    }
}

/// Every entry is stored in one of the six lists other than justice.
proof fn lemma_kind_weights(e: Seq<(SymbolKind, usize, Seq<char>)>, w: spec_fn(Seq<char>) -> nat)
    ensures
        kind_weight(e, SymbolKind::Input, w) + kind_weight(e, SymbolKind::Latch, w) + kind_weight(
            e,
            SymbolKind::Output,
            w,
        ) + kind_weight(e, SymbolKind::BadState, w) + kind_weight(e, SymbolKind::Constraint, w) + kind_weight(
            e,
            SymbolKind::Fairness,
            w,
        ) == entries_weight(e, w),
    decreases e.len(),
{
    if e.len() > 0 {
        lemma_kind_weights(e.drop_last(), w);
    }
}

/// The entries that a table lists, one list after the other.
spec fn listed(st: &SymbolTable) -> (
    Seq<(SymbolKind, usize, Seq<char>)>,
    Seq<(SymbolKind, usize, Seq<char>)>,
    Seq<(SymbolKind, usize, Seq<char>)>,
    Seq<(SymbolKind, usize, Seq<char>)>,
    Seq<(SymbolKind, usize, Seq<char>)>,
    Seq<(SymbolKind, usize, Seq<char>)>,
    Seq<(SymbolKind, usize, Seq<char>)>,
) {
    (
        named_entries(SymbolKind::Input, st.names(SymbolKind::Input)),
        named_entries(SymbolKind::Latch, st.names(SymbolKind::Latch)),
        named_entries(SymbolKind::Output, st.names(SymbolKind::Output)),
        named_entries(SymbolKind::BadState, st.names(SymbolKind::BadState)),
        named_entries(SymbolKind::Constraint, st.names(SymbolKind::Constraint)),
        named_entries(SymbolKind::Justice, st.names(SymbolKind::Justice)),
        named_entries(SymbolKind::Fairness, st.names(SymbolKind::Fairness)),
    )
}

proof fn lemma_names_len(st: &SymbolTable)
    ensures
        forall|k: SymbolKind| #[trigger] st.names(k).len() <= usize::MAX,
{
    assert forall|k: SymbolKind| #[trigger] st.names(k).len() <= usize::MAX by {
        assert(st.names(k).len() == st.slots(k).len());
        match k {
            SymbolKind::Output => assert(st.outputs@.len() == st.outputs.len()),
            SymbolKind::Input => assert(st.inputs@.len() == st.inputs.len()),
            SymbolKind::Latch => assert(st.latches@.len() == st.latches.len()),
            SymbolKind::BadState => assert(st.bad_states@.len() == st.bad_states.len()),
            SymbolKind::Constraint => assert(st.constraints@.len() == st.constraints.len()),
            SymbolKind::Justice => assert(st.justice@.len() == st.justice.len()),
            SymbolKind::Fairness => assert(st.fairness@.len() == st.fairness.len()),
        }
    }
}

/// A table that holds the names of `e` lists entries that weigh no more
/// than `e`.
pub(super) proof fn lemma_table_weight(st: &SymbolTable, e: Seq<(SymbolKind, usize, Seq<char>)>, w: spec_fn(Seq<char>) -> nat)
    requires
        forall|k: SymbolKind| #[trigger] st.names(k) == names_from_entries(e, k),
    ensures
        entries_weight(st.spec_symbols(), w) <= entries_weight(e, w),
{
    let (e_i, e_l, e_o, e_b, e_c, e_j, e_f) = listed(st);
    assert(st.spec_symbols() == e_i + e_l + e_o + e_b + e_c + e_j + e_f);
    lemma_names_len(st);
    lemma_entries_weight_concat(e_i + e_l + e_o + e_b + e_c + e_j, e_f, w);
    lemma_entries_weight_concat(e_i + e_l + e_o + e_b + e_c, e_j, w);
    lemma_entries_weight_concat(e_i + e_l + e_o + e_b, e_c, w);
    lemma_entries_weight_concat(e_i + e_l + e_o, e_b, w);
    lemma_entries_weight_concat(e_i + e_l, e_o, w);
    lemma_entries_weight_concat(e_i, e_l, w);
    let s0 = Seq::<Option<Seq<char>>>::empty();
    assert(slot_weight(s0, w) == 0);
    assert forall|k: SymbolKind| k != SymbolKind::Justice implies entries_weight(
        #[trigger] named_entries(k, st.names(k)),
        w,
    ) <= kind_weight(e, k, w) by {
        lemma_named_entries_weight(k, st.names(k), w);
        lemma_replay_empty(e, k);
        lemma_replay_weight(s0, e, k, w);
    }
    lemma_named_entries_weight(SymbolKind::Justice, st.names(SymbolKind::Justice), w);
    lemma_replay_empty(e, SymbolKind::Justice);
    lemma_replay_justice(s0, e);
    lemma_kind_weights(e, w);
}

/// A table that holds the names of entries whose names hold no line feed
/// lists only such entries, each at an index below `usize::MAX`, and has no
/// justice names.
pub(super) proof fn lemma_table_ok(st: &SymbolTable, e: Seq<(SymbolKind, usize, Seq<char>)>)
    requires
        forall|k: SymbolKind| #[trigger] st.names(k) == names_from_entries(e, k),
        entries_ok(e),
    ensures
        entries_ok(st.spec_symbols()),
        forall|i: int| #[trigger] name_at(st.names(SymbolKind::Justice), i) is None,
{
    let (e_i, e_l, e_o, e_b, e_c, e_j, e_f) = listed(st);
    assert(st.spec_symbols() == e_i + e_l + e_o + e_b + e_c + e_j + e_f);
    lemma_names_len(st);
    let s0 = Seq::<Option<Seq<char>>>::empty();
    let w = |n: Seq<char>| byte_weight(n);
    assert forall|k: SymbolKind| #[trigger] entries_ok(named_entries(k, st.names(k))) by {
        lemma_replay_empty(e, k);
        lemma_replay_weight(s0, e, k, w);
        lemma_named_entries_weight(k, st.names(k), w);
    }
    assert(entries_ok(e_i) && entries_ok(e_l) && entries_ok(e_o) && entries_ok(e_b) && entries_ok(e_c)
        && entries_ok(e_j) && entries_ok(e_f));
    lemma_entries_ok_concat(e_i, e_l);
    lemma_entries_ok_concat(e_i + e_l, e_o);
    lemma_entries_ok_concat(e_i + e_l + e_o, e_b);
    lemma_entries_ok_concat(e_i + e_l + e_o + e_b, e_c);
    lemma_entries_ok_concat(e_i + e_l + e_o + e_b + e_c, e_j);
    lemma_entries_ok_concat(e_i + e_l + e_o + e_b + e_c + e_j, e_f);
    lemma_replay_empty(e, SymbolKind::Justice);
    lemma_replay_justice(s0, e);
}

} // verus!
