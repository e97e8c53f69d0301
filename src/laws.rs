use vstd::prelude::*;
use crate::node::{Node, key_pos, lemma_key_pos, lemma_key_pos_at, lemma_key_pos_update};
use crate::merge::{
    Pending, name_of, objective_of, score_of, named, is_taken, kept, gathered, claim,
    pending_after, bonus, credited, merged_entry, is_new_entry, merge_result, expected_outcome,
    lemma_gathered_empty,
};

verus! {

/// The entries of `s` that belong to neither `from` nor `into`, in order.
pub open spec fn others(s: Seq<Node>, from: Seq<char>, into: Seq<char>) -> Seq<Node>
    decreases s.len(),
{
    if s.len() == 0 {
        s
    } else {
        let o = others(s.drop_last(), from, into);
        let e = s.last();
        if named(e, from) || named(e, into) {
            o
        } else {
            o.push(e)
        }
    }
}

proof fn lemma_keys_differ()
    ensures
        "Name"@ != "Score"@,
        "Name"@ != "Objective"@,
        "Objective"@ != "Score"@,
{
    reveal_strlit("Name");
    reveal_strlit("Score");
    reveal_strlit("Objective");
    assert("Name"@.len() != "Score"@.len());
    assert("Name"@.len() != "Objective"@.len());
    assert("Objective"@.len() != "Score"@.len());
}

/// Crediting a score changes neither the name nor the objective of an entry.
proof fn lemma_credited_keeps(old: Node, new: Node, d: i32)
    requires
        credited(old, new, d),
    ensures
        name_of(new) == name_of(old),
        objective_of(new) == objective_of(old),
{
    if new != old {
        let f = old->Compound_0@;
        let p = key_pos(f, "Score"@);
        let v = new->Compound_0@[p].1;
        lemma_key_pos(f, "Score"@);
        lemma_keys_differ();
        lemma_key_pos_update(f, p, v, "Name"@);
        lemma_key_pos_update(f, p, v, "Objective"@);
        lemma_key_pos(f, "Name"@);
        lemma_key_pos(f, "Objective"@);
    }
}

/// A new entry has the name, objective and score it was made with.
proof fn lemma_new_entry_fields(e: Node, player: Seq<char>, objective: Seq<char>, score: i32)
    requires
        is_new_entry(e, player, objective, score),
    ensures
        named(e, player),
        objective_of(e) matches Some(o) && o@ == objective,
        score_of(e) == Some(score),
{
    let f = e->Compound_0@;
    lemma_keys_differ();
    lemma_key_pos_at(f, "Name"@, 0);
    lemma_key_pos_at(f, "Objective"@, 1);
    lemma_key_pos_at(f, "Score"@, 2);
}

/// An entry that the merge changed belongs to `into`, before and after.
proof fn lemma_merged_entry_named(old: Node, new: Node, b: Option<i32>, into: Seq<char>)
    requires
        merged_entry(old, new, b),
        b is Some ==> named(old, into),
    ensures
        new == old || (named(old, into) && named(new, into)),
        name_of(new) == name_of(old),
{
    if b is Some {
        lemma_credited_keeps(old, new, b->Some_0);
    }
}

/// Only an entry of `into` claims a pending score.
proof fn lemma_bonus_named(s: Seq<Node>, k: int, into: Seq<char>, p0: Pending)
    requires
        0 <= k < s.len(),
    ensures
        bonus(s, k, into, p0) is Some ==> named(s[k], into),
{
}

proof fn lemma_others_push(s: Seq<Node>, e: Node, from: Seq<char>, into: Seq<char>)
    ensures
        others(s.push(e), from, into) == if named(e, from) || named(e, into) {
            others(s, from, into)
        } else {
            others(s, from, into).push(e)
        },
{
    assert(s.push(e).drop_last() == s);
}

/// Extraction keeps every entry that belongs to neither player.
proof fn lemma_kept_others(s: Seq<Node>, from: Seq<char>, into: Seq<char>)
    ensures
        others(kept(s, from), from, into) == others(s, from, into),
    decreases s.len(),
{
    if s.len() > 0 {
        let t = s.drop_last();
        lemma_kept_others(t, from, into);
        if !is_taken(s.last(), from) {
            lemma_others_push(kept(t, from), s.last(), from, into);
        }
    }
}

/// Two lists that differ only in entries of `into` have the same other entries.
proof fn lemma_others_pointwise(a: Seq<Node>, b: Seq<Node>, from: Seq<char>, into: Seq<char>)
    requires
        a.len() == b.len(),
        forall|i: int| 0 <= i < a.len() ==> #[trigger] a[i] == b[i] || (named(a[i], into) && named(b[i], into)),
    ensures
        others(a, from, into) == others(b, from, into),
    decreases a.len(),
{
    if a.len() > 0 {
        let n = a.len() - 1;
        assert(a[n] == b[n] || (named(a[n], into) && named(b[n], into)));
        assert forall|i: int| 0 <= i < n implies #[trigger] a.drop_last()[i] == b.drop_last()[i] || (
        named(a.drop_last()[i], into) && named(b.drop_last()[i], into)) by {
            assert(a[i] == b[i] || (named(a[i], into) && named(b[i], into)));
        }
        lemma_others_pointwise(a.drop_last(), b.drop_last(), from, into);
    }
}

/// Entries of `into` at the end of a list add no other entries.
proof fn lemma_others_tail(a: Seq<Node>, n: int, from: Seq<char>, into: Seq<char>)
    requires
        0 <= n <= a.len(),
        forall|i: int| n <= i < a.len() ==> named(#[trigger] a[i], into),
    ensures
        others(a, from, into) == others(a.subrange(0, n), from, into),
    decreases a.len(),
{
    if a.len() > n {
        let t = a.drop_last();
        assert(named(a[a.len() - 1], into));
        assert forall|i: int| n <= i < t.len() implies named(#[trigger] t[i], into) by {
            assert(named(a[i], into));
        }
        lemma_others_tail(t, n, from, into);
        assert(t.subrange(0, n) == a.subrange(0, n));
    } else {
        assert(a.subrange(0, n) == a);
    }
}

/// The entries of players other than `from` and `into` come out of the merge
/// unchanged and in the same order.
pub proof fn law_others_untouched(before: Seq<Node>, after: Seq<Node>, from: Seq<char>, into: Seq<char>)
    requires
        merge_result(before, after, from, into),
    ensures
        others(after, from, into) == others(before, from, into),
{
    let k = kept(before, from);
    let g = gathered(before, from);
    let rest = pending_after(k, into, g);
    let m = after.subrange(0, k.len() as int);
    assert forall|i: int| 0 <= i < k.len() implies #[trigger] k[i] == m[i] || (named(k[i], into)
        && named(m[i], into)) by {
        assert(merged_entry(k[i], after[i], bonus(k, i, into, g)));
        lemma_bonus_named(k, i, into, g);
        lemma_merged_entry_named(k[i], after[i], bonus(k, i, into, g), into);
    }
    lemma_others_pointwise(k, m, from, into);
    assert forall|i: int| k.len() <= i < after.len() implies named(#[trigger] after[i], into) by {
        let j = i - k.len();
        assert(is_new_entry(after[k.len() + j], into, rest[j].0@, rest[j].1));
        lemma_new_entry_fields(after[i], into, rest[j].0@, rest[j].1);
    }
    lemma_others_tail(after, k.len() as int, from, into);
    lemma_kept_others(before, from, into);
}

/// No entry that extraction keeps is taken.
proof fn lemma_kept_not_taken(s: Seq<Node>, from: Seq<char>)
    ensures
        forall|i: int| 0 <= i < kept(s, from).len() ==> !is_taken(#[trigger] kept(s, from)[i], from),
    decreases s.len(),
{
    if s.len() > 0 {
        let t = s.drop_last();
        lemma_kept_not_taken(t, from);
        let kt = kept(t, from);
        assert forall|i: int| 0 <= i < kept(s, from).len() implies !is_taken(#[trigger] kept(s, from)[i], from) by {
            if i < kt.len() {
                assert(kept(s, from)[i] == kt[i]);
            }
        }
    }
}

/// Where nothing is taken, extraction keeps the whole list.
proof fn lemma_kept_all(s: Seq<Node>, from: Seq<char>)
    requires
        forall|i: int| 0 <= i < s.len() ==> !is_taken(#[trigger] s[i], from),
    ensures
        kept(s, from) == s,
    decreases s.len(),
{
    if s.len() > 0 {
        let t = s.drop_last();
        assert forall|i: int| 0 <= i < t.len() implies !is_taken(#[trigger] t[i], from) by {
            assert(!is_taken(s[i], from));
        }
        lemma_kept_all(t, from);
        assert(!is_taken(s[s.len() - 1], from));
        assert(t.push(s.last()) == s);
    }
}

/// With nothing pending, nothing is claimed.
proof fn lemma_pending_after_empty(s: Seq<Node>, into: Seq<char>)
    ensures
        pending_after(s, into, Seq::empty()) == Seq::<(String, i32)>::empty(),
    decreases s.len(),
{
    if s.len() > 0 {
        lemma_pending_after_empty(s.drop_last(), into);
    }
}

/// After a merge of `from` into another player, `from` has no score entry
/// left that a merge would move.
pub proof fn law_nothing_left_to_move(before: Seq<Node>, after: Seq<Node>, from: Seq<char>, into: Seq<char>)
    requires
        from != into,
        merge_result(before, after, from, into),
    ensures
        forall|i: int| 0 <= i < after.len() ==> !is_taken(#[trigger] after[i], from),
{
    let k = kept(before, from);
    let g = gathered(before, from);
    let rest = pending_after(k, into, g);
    lemma_kept_not_taken(before, from);
    assert forall|i: int| 0 <= i < after.len() implies !is_taken(#[trigger] after[i], from) by {
        if i < k.len() {
            assert(merged_entry(k[i], after[i], bonus(k, i, into, g)));
            lemma_bonus_named(k, i, into, g);
            lemma_merged_entry_named(k[i], after[i], bonus(k, i, into, g), into);
            assert(!is_taken(k[i], from));
        } else {
            let j = i - k.len();
            assert(is_new_entry(after[k.len() + j], into, rest[j].0@, rest[j].1));
            lemma_new_entry_fields(after[i], into, rest[j].0@, rest[j].1);
        }
    }
}

/// Merging twice is not the same as merging once more: the second merge of
/// `from` into `into` finds no entry of `from` to move, reports so, and
/// leaves the list exactly as the first merge left it.
pub proof fn law_second_merge_changes_nothing(
    before: Seq<Node>,
    once: Seq<Node>,
    twice: Seq<Node>,
    from: Seq<char>,
    into: Seq<char>,
)
    requires
        from != into,
        merge_result(before, once, from, into),
        merge_result(once, twice, from, into),
    ensures
        twice == once,
        !expected_outcome(once, from, into).found_from,
{
    law_nothing_left_to_move(before, once, from, into);
    lemma_kept_all(once, from);
    lemma_gathered_empty(once, from);
    assert(gathered(once, from) == Seq::<(String, i32)>::empty());
    lemma_pending_after_empty(once, into);
    assert forall|i: int| 0 <= i < once.len() implies #[trigger] twice[i] == once[i] by {
        lemma_pending_after_empty(once.subrange(0, i), into);
        assert(bonus(once, i, into, Seq::empty()) is None);
        assert(merged_entry(once[i], twice[i], bonus(once, i, into, Seq::empty())));
    }
    assert(twice == once);
}

/// A score entry of `from` that lacks an `Int` score is neither moved nor
/// changed: it is still in the list after the merge.
pub proof fn law_entry_without_score_stays(
    before: Seq<Node>,
    after: Seq<Node>,
    from: Seq<char>,
    into: Seq<char>,
    i: int,
)
    requires
        merge_result(before, after, from, into),
        0 <= i < before.len(),
        named(before[i], from),
        score_of(before[i]) is None,
    ensures
        exists|j: int| 0 <= j < after.len() && #[trigger] after[j] == before[i],
{
    let k = kept(before, from);
    let g = gathered(before, from);
    let j = lemma_kept_keeps(before, from, i);
    assert(merged_entry(k[j], after[j], bonus(k, j, into, g)));
    assert(after[j] == before[i]);
}

/// An entry that is not taken is kept; returns where.
proof fn lemma_kept_keeps(s: Seq<Node>, from: Seq<char>, i: int) -> (j: int)
    requires
        0 <= i < s.len(),
        !is_taken(s[i], from),
    ensures
        0 <= j < kept(s, from).len(),
        kept(s, from)[j] == s[i],
    decreases s.len(),
{
    let t = s.drop_last();
    if i == s.len() - 1 {
        kept(t, from).len() as int
    } else {
        assert(t[i] == s[i]);
        let j = lemma_kept_keeps(t, from, i);
        if !is_taken(s.last(), from) {
            assert(kept(s, from)[j] == kept(t, from)[j]);
        }
        j
    }
}

/// `e` is an entry of `player` for `objective`.
pub open spec fn owns(e: Node, player: Seq<char>, objective: Seq<char>) -> bool {
    &&& named(e, player)
    &&& objective_of(e) is Some
    &&& objective_of(e)->Some_0@ == objective
}

/// `p` has `score` pending for `objective`.
pub open spec fn holds(p: Pending, objective: Seq<char>, score: i32) -> bool {
    key_pos(p, objective) >= 0 && p[key_pos(p, objective)].1 == score
}

/// Appending a pair leaves a pending objective where it was.
proof fn lemma_holds_push(p: Pending, x: (String, i32), o: Seq<char>, a: i32)
    requires
        holds(p, o, a),
    ensures
        holds(p.push(x), o, a),
        key_pos(p.push(x), o) == key_pos(p, o),
{
    lemma_key_pos(p, o);
    let q = p.push(x);
    assert forall|j: int| 0 <= j < key_pos(p, o) implies q[j].0@ != o by {
        assert(q[j] == p[j]);
    }
    lemma_key_pos_at(q, o, key_pos(p, o));
}

/// Recording another objective leaves a pending objective as it was.
proof fn lemma_holds_record_other(p: Pending, x: String, v: i32, o: Seq<char>, a: i32)
    requires
        holds(p, o, a),
        x@ != o,
    ensures
        holds(crate::merge::record(p, x, v), o, a),
{
    let c = key_pos(p, x@);
    lemma_key_pos(p, x@);
    lemma_key_pos(p, o);
    if c < 0 {
        lemma_holds_push(p, (x, v), o, a);
    } else {
        lemma_key_pos_update(p, c, v, o);
    }
}

/// Recording `objective` makes `score` pending for it.
proof fn lemma_holds_record(p: Pending, x: String, v: i32)
    ensures
        holds(crate::merge::record(p, x, v), x@, v),
{
    let c = key_pos(p, x@);
    lemma_key_pos(p, x@);
    if c < 0 {
        let q = p.push((x, v));
        assert forall|j: int| 0 <= j < p.len() implies q[j].0@ != x@ by {
            assert(q[j] == p[j]);
        }
        lemma_key_pos_at(q, x@, p.len() as int);
    } else {
        lemma_key_pos_update(p, c, v, x@);
    }
}

/// The last taken entry of `from` for an objective sets its pending score.
proof fn lemma_gathered_holds(s: Seq<Node>, from: Seq<char>, i: int)
    requires
        0 <= i < s.len(),
        is_taken(s[i], from),
        forall|j: int| i < j < s.len() && is_taken(#[trigger] s[j], from) ==> objective_of(s[j])->Some_0@ != objective_of(s[i])->Some_0@,
    ensures
        holds(gathered(s, from), objective_of(s[i])->Some_0@, score_of(s[i])->Some_0),
    decreases s.len(),
{
    let t = s.drop_last();
    let e = s.last();
    let o = objective_of(s[i])->Some_0@;
    let a = score_of(s[i])->Some_0;
    if i == s.len() - 1 {
        lemma_holds_record(gathered(t, from), objective_of(e)->Some_0, score_of(e)->Some_0);
    } else {
        assert(t[i] == s[i]);
        assert forall|j: int| i < j < t.len() && is_taken(#[trigger] t[j], from) implies objective_of(t[j])->Some_0@ != o by {
            assert(t[j] == s[j]);
        }
        lemma_gathered_holds(t, from, i);
        if is_taken(e, from) {
            assert(is_taken(s[s.len() - 1], from));
            lemma_holds_record_other(gathered(t, from), objective_of(e)->Some_0, score_of(e)->Some_0, o, a);
        }
    }
}

/// A claim by an entry that does not own `o` leaves `o`'s pending score as it was.
proof fn lemma_holds_claim_other(e: Node, into: Seq<char>, p: Pending, o: Seq<char>, a: i32)
    requires
        holds(p, o, a),
        !owns(e, into, o),
    ensures
        holds(if claim(e, into, p) < 0 { p } else { p.remove(claim(e, into, p)) }, o, a),
{
    let c = claim(e, into, p);
    if c >= 0 {
        let x = objective_of(e)->Some_0@;
        lemma_key_pos(p, x);
        lemma_key_pos(p, o);
        let k = key_pos(p, o);
        let q = p.remove(c);
        let nk = if c < k { k - 1 } else { k };
        assert(q[nk] == p[k]);
        assert forall|j: int| 0 <= j < nk implies q[j].0@ != o by {
            if j < c {
                assert(q[j] == p[j]);
            } else {
                assert(q[j] == p[j + 1]);
            }
        }
        lemma_key_pos_at(q, o, nk);
    }
}

/// Pending scores of an objective that no entry of `s` owns stay pending.
proof fn lemma_pending_after_holds(s: Seq<Node>, into: Seq<char>, p0: Pending, o: Seq<char>, a: i32)
    requires
        holds(p0, o, a),
        forall|j: int| 0 <= j < s.len() ==> !owns(#[trigger] s[j], into, o),
    ensures
        holds(pending_after(s, into, p0), o, a),
    decreases s.len(),
{
    if s.len() > 0 {
        let t = s.drop_last();
        assert forall|j: int| 0 <= j < t.len() implies !owns(#[trigger] t[j], into, o) by {
            assert(t[j] == s[j]);
        }
        lemma_pending_after_holds(t, into, p0, o, a);
        assert(!owns(s[s.len() - 1], into, o));
        lemma_holds_claim_other(s.last(), into, pending_after(t, into, p0), o, a);
    }
}

/// Every kept entry comes from the list it was kept from; returns where.
proof fn lemma_kept_source(s: Seq<Node>, from: Seq<char>, j: int) -> (i: int)
    requires
        0 <= j < kept(s, from).len(),
    ensures
        0 <= i < s.len(),
        s[i] == kept(s, from)[j],
    decreases s.len(),
{
    let t = s.drop_last();
    if j < kept(t, from).len() {
        let i = lemma_kept_source(t, from, j);
        assert(kept(s, from)[j] == kept(t, from)[j]);
        i
    } else {
        s.len() - 1
    }
}

/// The first entry of `k` that owns `o`, at or before `j`.
proof fn lemma_first_owner(k: Seq<Node>, into: Seq<char>, o: Seq<char>, j: int) -> (m: int)
    requires
        0 <= j < k.len(),
        owns(k[j], into, o),
    ensures
        0 <= m <= j,
        owns(k[m], into, o),
        forall|l: int| 0 <= l < m ==> !owns(#[trigger] k[l], into, o),
    decreases j,
{
    if exists|l: int| 0 <= l < j && owns(#[trigger] k[l], into, o) {
        let l = choose|l: int| 0 <= l < j && owns(#[trigger] k[l], into, o);
        lemma_first_owner(k, into, o, l)
    } else {
        j
    }
}

/// Crediting adds to the score.
proof fn lemma_credited_score(old: Node, new: Node, d: i32)
    requires
        credited(old, new, d),
        score_of(old) is Some,
    ensures
        score_of(new) == Some(score_of(old)->Some_0.wrapping_add(d)),
{
    let f = old->Compound_0@;
    let p = key_pos(f, "Score"@);
    lemma_key_pos(f, "Score"@);
    lemma_key_pos_update(f, p, new->Compound_0@[p].1, "Score"@);
}

/// Conservation of scores: for an objective of `from` (its last well-formed
/// entry for it, `i`), after the merge `into` has an entry for that objective
/// whose score is `from`'s score plus what `into` had there before (its one
/// entry `m`), or just `from`'s score where `into` had none (`m` < 0).
/// Additions wrap at the bounds of `i32`.
pub proof fn law_scores_conserved(
    before: Seq<Node>,
    after: Seq<Node>,
    from: Seq<char>,
    into: Seq<char>,
    i: int,
    m: int,
)
    requires
        from != into,
        merge_result(before, after, from, into),
        0 <= i < before.len(),
        is_taken(before[i], from),
        forall|j: int| i < j < before.len() && is_taken(#[trigger] before[j], from)
            ==> objective_of(before[j])->Some_0@ != objective_of(before[i])->Some_0@,
        m < before.len(),
        m < 0 ==> forall|j: int| 0 <= j < before.len()
            ==> !owns(#[trigger] before[j], into, objective_of(before[i])->Some_0@),
        m >= 0 ==> owns(before[m], into, objective_of(before[i])->Some_0@),
        m >= 0 ==> score_of(before[m]) is Some,
        m >= 0 ==> forall|j: int| 0 <= j < before.len()
            && owns(#[trigger] before[j], into, objective_of(before[i])->Some_0@) ==> j == m,
    ensures
        exists|n: int|
            0 <= n < after.len() && #[trigger] owns(after[n], into, objective_of(before[i])->Some_0@)
                && score_of(after[n]) == Some(
                if m < 0 {
                    score_of(before[i])->Some_0
                } else {
                    score_of(before[m])->Some_0.wrapping_add(score_of(before[i])->Some_0)
                },
            ),
{
    let o = objective_of(before[i])->Some_0@;
    let a = score_of(before[i])->Some_0;
    let k = kept(before, from);
    let g = gathered(before, from);
    let rest = pending_after(k, into, g);
    lemma_gathered_holds(before, from, i);
    if m < 0 {
        assert forall|j: int| 0 <= j < k.len() implies !owns(#[trigger] k[j], into, o) by {
            let src = lemma_kept_source(before, from, j);
        }
        lemma_pending_after_holds(k, into, g, o, a);
        let idx = key_pos(rest, o);
        lemma_key_pos(rest, o);
        let n = k.len() + idx;
        assert(is_new_entry(after[k.len() + idx], into, rest[idx].0@, rest[idx].1));
        lemma_new_entry_fields(after[n], into, o, a);
        assert(owns(after[n], into, o));
    } else {
        let b = score_of(before[m])->Some_0;
        let j0 = lemma_kept_keeps(before, from, m);
        let first = lemma_first_owner(k, into, o, j0);
        let src = lemma_kept_source(before, from, first);
        assert(owns(before[src], into, o));
        assert(k[first] == before[m]);
        let pre = k.subrange(0, first);
        assert forall|j: int| 0 <= j < pre.len() implies !owns(#[trigger] pre[j], into, o) by {
            assert(pre[j] == k[j]);
        }
        lemma_pending_after_holds(pre, into, g, o, a);
        assert(bonus(k, first, into, g) == Some(a));
        assert(merged_entry(k[first], after[first], bonus(k, first, into, g)));
        lemma_credited_keeps(k[first], after[first], a);
        lemma_credited_score(k[first], after[first], a);
        assert(owns(after[first], into, o));
    }
}

/// An objective that `from` has and `into` lacks becomes a new, unlocked
/// entry of `into` at the end of the list, with `from`'s score for it.
pub proof fn law_new_objective_appended(
    before: Seq<Node>,
    after: Seq<Node>,
    from: Seq<char>,
    into: Seq<char>,
    i: int,
)
    requires
        merge_result(before, after, from, into),
        0 <= i < before.len(),
        is_taken(before[i], from),
        forall|j: int| i < j < before.len() && is_taken(#[trigger] before[j], from)
            ==> objective_of(before[j])->Some_0@ != objective_of(before[i])->Some_0@,
        forall|j: int| 0 <= j < before.len()
            ==> !owns(#[trigger] before[j], into, objective_of(before[i])->Some_0@),
    ensures
        exists|n: int|
            kept(before, from).len() <= n < after.len() && #[trigger] is_new_entry(
                after[n],
                into,
                objective_of(before[i])->Some_0@,
                score_of(before[i])->Some_0,
            ),
{
    let o = objective_of(before[i])->Some_0@;
    let a = score_of(before[i])->Some_0;
    let k = kept(before, from);
    let g = gathered(before, from);
    let rest = pending_after(k, into, g);
    lemma_gathered_holds(before, from, i);
    assert forall|j: int| 0 <= j < k.len() implies !owns(#[trigger] k[j], into, o) by {
        let src = lemma_kept_source(before, from, j);
    }
    lemma_pending_after_holds(k, into, g, o, a);
    let idx = key_pos(rest, o);
    lemma_key_pos(rest, o);
    assert(is_new_entry(after[k.len() + idx], into, rest[idx].0@, rest[idx].1));
}

} // verus!
