use vstd::prelude::*;
use crate::node::{Node, field, key_pos, lemma_key_pos, lemma_key_pos_update, find_key, str_field, int_field, get_str, has_str, get_int};

verus! {

/// Objective name and score pairs waiting to be credited to the destination player.
pub type Pending = Seq<(String, i32)>;

/// The player an entry belongs to.
pub open spec fn name_of(e: Node) -> Option<String> {
    str_field(e, "Name"@)
}

/// The objective an entry scores.
pub open spec fn objective_of(e: Node) -> Option<String> {
    str_field(e, "Objective"@)
}

/// The score of an entry, when it is an `Int`.
pub open spec fn score_of(e: Node) -> Option<i32> {
    int_field(e, "Score"@)
}

/// `e` is a compound whose `Name` is `player`.
pub open spec fn named(e: Node, player: Seq<char>) -> bool {
    name_of(e) matches Some(n) && n@ == player
}

/// `e` is a score entry of `from` that the extraction pass moves out of the
/// list: its name matches and it has a string `Objective` and an `Int` `Score`.
pub open spec fn is_taken(e: Node, from: Seq<char>) -> bool {
    named(e, from) && objective_of(e) is Some && score_of(e) is Some
}

/// The entries that stay in the list after extraction, in their order.
pub open spec fn kept(s: Seq<Node>, from: Seq<char>) -> Seq<Node>
    decreases s.len(),
{
    if s.len() == 0 {
        s
    } else {
        let k = kept(s.drop_last(), from);
        if is_taken(s.last(), from) {
            k
        } else {
            k.push(s.last())
        }
    }
}

/// Records `score` for `objective`: a new objective goes to the end, a known
/// one has its score replaced.
pub open spec fn record(p: Pending, objective: String, score: i32) -> Pending {
    let i = key_pos(p, objective@);
    if i < 0 {
        p.push((objective, score))
    } else {
        p.update(i, (p[i].0, score))
    }
}

/// The per-objective scores gathered from the taken entries of `s`, in the
/// order each objective was first seen; a later entry's score wins.
pub open spec fn gathered(s: Seq<Node>, from: Seq<char>) -> Pending
    decreases s.len(),
{
    if s.len() == 0 {
        Seq::empty()
    } else {
        let p = gathered(s.drop_last(), from);
        let e = s.last();
        if is_taken(e, from) {
            record(p, objective_of(e).unwrap(), score_of(e).unwrap())
        } else {
            p
        }
    }
}

/// Removes every taken entry of `from` from `list`, in order, and returns
/// the gathered objective scores.
pub fn extract_scores(list: &mut Vec<Node>, from: &String) -> (pending: Vec<(String, i32)>)
    ensures
        final(list)@ == kept(old(list)@, from@),
        pending@ == gathered(old(list)@, from@),
{
    let ghost start = list@;
    let name_key = "Name".to_owned();
    let objective_key = "Objective".to_owned();
    let score_key = "Score".to_owned();
    let mut pending: Vec<(String, i32)> = Vec::new();
    let mut i: usize = 0;
    let ghost mut j: int = 0;
    while i < list.len()
        invariant
            0 <= i <= j <= start.len(),
            list@.len() == i + (start.len() - j),
            list@.subrange(0, i as int) == kept(start.subrange(0, j), from@),
            list@.subrange(i as int, list@.len() as int) == start.subrange(j, start.len() as int),
            pending@ == gathered(start.subrange(0, j), from@),
            name_key@ == "Name"@,
            objective_key@ == "Objective"@,
            score_key@ == "Score"@,
        decreases list@.len() - i,
    {
        let ghost prefix = start.subrange(0, j + 1);
        proof {
            assert(list@[i as int] == list@.subrange(i as int, list@.len() as int)[0]);
            assert(prefix.drop_last() == start.subrange(0, j));
            assert(prefix.last() == start[j]);
        }
        let mut taken = false;
        if has_str(&list[i], &name_key, from) {
            let objective = get_str(&list[i], &objective_key);
            let score = get_int(&list[i], &score_key);
            if let (Some(objective), Some(score)) = (objective, score) {
                match find_key(&pending, &objective) {
                    Some(p) => {
                        pending[p].1 = score;
                    },
                    None => {
                        pending.push((objective, score));
                    },
                }
                taken = true;
            }
        }
        if taken {
            let ghost before = list@;
            list.remove(i);
            proof {
                assert(list@.subrange(0, i as int) == before.subrange(0, i as int));
                assert(list@.subrange(i as int, list@.len() as int)
                    == before.subrange(i as int + 1, before.len() as int));
                assert(start.subrange(j + 1, start.len() as int)
                    == start.subrange(j, start.len() as int).drop_first());
            }
        } else {
            proof {
                assert(list@.subrange(0, i as int + 1)
                    == list@.subrange(0, i as int).push(list@[i as int]));
                assert(start.subrange(j + 1, start.len() as int)
                    == start.subrange(j, start.len() as int).drop_first());
            }
            i += 1;
        }
        proof {
            j = j + 1;
        }
    }
    proof {
        assert(start.subrange(0, j) == start);
        assert(list@.subrange(0, i as int) == list@);
    }
    pending
}

/// Index in `p` of the pending score that entry `e` claims, or -1: an entry of
/// `into` claims the pending score of its objective.
pub open spec fn claim(e: Node, into: Seq<char>, p: Pending) -> int {
    if named(e, into) && objective_of(e) is Some {
        key_pos(p, objective_of(e).unwrap()@)
    } else {
        -1
    }
}

/// What is still pending after the entries of `s` have claimed their scores, in order.
pub open spec fn pending_after(s: Seq<Node>, into: Seq<char>, p0: Pending) -> Pending
    decreases s.len(),
{
    if s.len() == 0 {
        p0
    } else {
        let p = pending_after(s.drop_last(), into, p0);
        let c = claim(s.last(), into, p);
        if c < 0 {
            p
        } else {
            p.remove(c)
        }
    }
}

/// The pending score that entry `k` of `s` claims, if any.
pub open spec fn bonus(s: Seq<Node>, k: int, into: Seq<char>, p0: Pending) -> Option<i32> {
    let p = pending_after(s.subrange(0, k), into, p0);
    let c = claim(s[k], into, p);
    if c < 0 {
        None
    } else {
        Some(p[c].1)
    }
}

/// `new` is `old` with `d` added (wrapping) to its `Int` score; an entry
/// without such a score stays as it is.
pub open spec fn credited(old: Node, new: Node, d: i32) -> bool {
    match old {
        Node::Compound(f) => {
            let p = key_pos(f@, "Score"@);
            if p >= 0 && f@[p].1 is Int {
                new is Compound && new->Compound_0@ == f@.update(
                    p,
                    (f@[p].0, Node::Int(f@[p].1->Int_0.wrapping_add(d))),
                )
            } else {
                new == old
            }
        },
        _ => new == old,
    }
}

/// `new` is `old` after it was credited with the claimed score `b`, if any.
pub open spec fn merged_entry(old: Node, new: Node, b: Option<i32>) -> bool {
    match b {
        None => new == old,
        Some(d) => credited(old, new, d),
    }
}

/// Adds `d` to the `Int` score of a compound entry, wrapping on overflow.
fn credit_score(e: &mut Node, score_key: &String, d: i32)
    requires
        score_key@ == "Score"@,
    ensures
        credited(*old(e), *final(e), d),
{
    match e {
        Node::Compound(f) => match find_key(f, score_key) {
            Some(p) => {
                let current = match &f[p].1 {
                    Node::Int(x) => Some(*x),
                    _ => None,
                };
                if let Some(x) = current {
                    let ghost before = f@;
                    let (key, _) = f.remove(p);
                    f.insert(p, (key, Node::Int(x.wrapping_add(d))));
                    assert(f@ == before.update(p as int, (before[p as int].0, Node::Int(x.wrapping_add(d)))));
                }
            },
            None => {},
        },
        _ => {},
    }
}

/// Credits each entry of `into`, left to right, with the pending score of its
/// objective, which then stops being pending. Returns whether `list` has an
/// entry of `into` at all.
pub fn credit_scores(list: &mut Vec<Node>, pending: &mut Vec<(String, i32)>, into: &String) -> (found: bool)
    ensures
        final(list)@.len() == old(list)@.len(),
        forall|k: int| 0 <= k < old(list)@.len() ==> merged_entry(
            old(list)@[k],
            #[trigger] final(list)@[k],
            bonus(old(list)@, k, into@, old(pending)@),
        ),
        final(pending)@ == pending_after(old(list)@, into@, old(pending)@),
        found == exists|k: int| 0 <= k < old(list)@.len() && named(#[trigger] old(list)@[k], into@),
{
    let ghost start = list@;
    let ghost p0 = pending@;
    let name_key = "Name".to_owned();
    let objective_key = "Objective".to_owned();
    let score_key = "Score".to_owned();
    let mut found = false;
    let mut i: usize = 0;
    while i < list.len()
        invariant
            0 <= i <= start.len(),
            list@.len() == start.len(),
            forall|k: int| 0 <= k < i ==> merged_entry(start[k], #[trigger] list@[k], bonus(start, k, into@, p0)),
            forall|k: int| i <= k < start.len() ==> #[trigger] list@[k] == start[k],
            pending@ == pending_after(start.subrange(0, i as int), into@, p0),
            found == exists|k: int| 0 <= k < i && named(#[trigger] start[k], into@),
            name_key@ == "Name"@,
            objective_key@ == "Objective"@,
            score_key@ == "Score"@,
        decreases start.len() - i,
    {
        let ghost prefix = start.subrange(0, i + 1);
        let ghost before = list@;
        proof {
            assert(prefix.drop_last() == start.subrange(0, i as int));
            assert(prefix.last() == start[i as int]);
        }
        if has_str(&list[i], &name_key, into) {
            found = true;
            match get_str(&list[i], &objective_key) {
                Some(objective) => match find_key(&pending, &objective) {
                    Some(p) => {
                        let (_, d) = pending.remove(p);
                        credit_score(&mut list[i], &score_key, d);
                    },
                    None => {},
                },
                None => {},
            }
        }
        proof {
            assert forall|k: int| 0 <= k < i + 1 implies merged_entry(start[k], #[trigger] list@[k], bonus(start, k, into@, p0)) by {
                if k < i {
                    assert(list@[k] == before[k]);
                }
            }
            assert forall|k: int| i + 1 <= k < start.len() implies #[trigger] list@[k] == start[k] by {
                assert(list@[k] == before[k]);
            }
            if named(start[i as int], into@) {
                assert(exists|k: int| 0 <= k < i + 1 && named(#[trigger] start[k], into@));
            }
        }
        i += 1;
    }
    proof {
        assert(start.subrange(0, i as int) == start);
    }
    found
}

/// `e` is a freshly made score entry: exactly the fields `Name`, `Objective`,
/// `Score` and `Locked`, in this order, with `Locked` set to 0.
pub open spec fn is_new_entry(e: Node, player: Seq<char>, objective: Seq<char>, score: i32) -> bool {
    &&& e is Compound
    &&& e->Compound_0@.len() == 4
    &&& e->Compound_0@[0].0@ == "Name"@
    &&& e->Compound_0@[0].1 is Str
    &&& e->Compound_0@[0].1->Str_0@ == player
    &&& e->Compound_0@[1].0@ == "Objective"@
    &&& e->Compound_0@[1].1 is Str
    &&& e->Compound_0@[1].1->Str_0@ == objective
    &&& e->Compound_0@[2].0@ == "Score"@
    &&& e->Compound_0@[2].1 == Node::Int(score)
    &&& e->Compound_0@[3].0@ == "Locked"@
    &&& e->Compound_0@[3].1 == Node::Byte(0)
}

/// Makes the score entry of `player` for `objective`, unlocked.
pub fn new_entry(player: &String, objective: String, score: i32) -> (e: Node)
    ensures
        is_new_entry(e, player@, objective@, score),
{
    let mut f: Vec<(String, Node)> = Vec::new();
    f.push(("Name".to_owned(), Node::Str(player.clone())));
    f.push(("Objective".to_owned(), Node::Str(objective)));
    f.push(("Score".to_owned(), Node::Int(score)));
    f.push(("Locked".to_owned(), Node::Byte(0)));
    Node::Compound(f)
}

/// Appends one new entry of `into` for each pending score, in order.
pub fn append_pending(list: &mut Vec<Node>, pending: &Vec<(String, i32)>, into: &String)
    ensures
        final(list)@.len() == old(list)@.len() + pending@.len(),
        final(list)@.subrange(0, old(list)@.len() as int) == old(list)@,
        forall|i: int| 0 <= i < pending@.len() ==> is_new_entry(
            #[trigger] final(list)@[old(list)@.len() + i],
            into@,
            pending@[i].0@,
            pending@[i].1,
        ),
{
    let ghost start = list@;
    let mut i: usize = 0;
    while i < pending.len()
        invariant
            0 <= i <= pending@.len(),
            list@.len() == start.len() + i,
            list@.subrange(0, start.len() as int) == start,
            forall|k: int| 0 <= k < i ==> is_new_entry(
                #[trigger] list@[start.len() + k],
                into@,
                pending@[k].0@,
                pending@[k].1,
            ),
        decreases pending@.len() - i,
    {
        let ghost before = list@;
        let e = new_entry(into, pending[i].0.clone(), pending[i].1);
        list.push(e);
        proof {
            assert(list@.subrange(0, start.len() as int) == before.subrange(0, start.len() as int));
            assert forall|k: int| 0 <= k < i + 1 implies is_new_entry(
                #[trigger] list@[start.len() + k],
                into@,
                pending@[k].0@,
                pending@[k].1,
            ) by {
                if k < i {
                    assert(list@[start.len() + k] == before[start.len() + k]);
                }
            }
        }
        i += 1;
    }
}

/// The whole merge, as a relation between the list before and after: the
/// entries that extraction keeps, each credited with the score it claims,
/// followed by one new entry per objective that no entry of `into` claimed.
pub open spec fn merge_result(before: Seq<Node>, after: Seq<Node>, from: Seq<char>, into: Seq<char>) -> bool {
    let k = kept(before, from);
    let g = gathered(before, from);
    let rest = pending_after(k, into, g);
    &&& after.len() == k.len() + rest.len()
    &&& forall|i: int| 0 <= i < k.len() ==> merged_entry(k[i], #[trigger] after[i], bonus(k, i, into, g))
    &&& forall|i: int| 0 <= i < rest.len() ==> is_new_entry(
        #[trigger] after[k.len() + i],
        into,
        rest[i].0@,
        rest[i].1,
    )
}

/// What the merge reports besides the new list.
#[derive(Debug, PartialEq, Eq, Clone, Copy)]
pub struct MergeOutcome {
    /// At least one score entry of the source player was moved.
    pub found_from: bool,
    /// The destination player has an entry in the list once the source's are moved.
    pub found_into: bool,
}

/// The outcome that the merge reports for the list `before`.
pub open spec fn expected_outcome(before: Seq<Node>, from: Seq<char>, into: Seq<char>) -> MergeOutcome {
    MergeOutcome {
        found_from: exists|i: int| 0 <= i < before.len() && is_taken(#[trigger] before[i], from),
        found_into: exists|i: int|
            0 <= i < kept(before, from).len() && named(#[trigger] kept(before, from)[i], into),
    }
}

/// The gathered scores are empty exactly when nothing is taken.
pub proof fn lemma_gathered_empty(s: Seq<Node>, from: Seq<char>)
    ensures
        (gathered(s, from).len() == 0) == (forall|i: int| 0 <= i < s.len() ==> !is_taken(#[trigger] s[i], from)),
    decreases s.len(),
{
    if s.len() > 0 {
        let t = s.drop_last();
        lemma_gathered_empty(t, from);
        lemma_gathered_grows(t, from);
        if is_taken(s.last(), from) {
            let e = s.last();
            lemma_key_pos(gathered(t, from), objective_of(e).unwrap()@);
            assert(!is_taken(s[s.len() - 1], from) == false);
        } else {
            assert forall|i: int| 0 <= i < s.len() - 1 implies s[i] == t[i] by {}
        }
    }
}

/// Gathering never forgets an objective.
pub proof fn lemma_gathered_grows(s: Seq<Node>, from: Seq<char>)
    ensures
        s.len() > 0 ==> gathered(s, from).len() >= gathered(s.drop_last(), from).len(),
{
    if s.len() > 0 && is_taken(s.last(), from) {
        let p = gathered(s.drop_last(), from);
        lemma_key_pos(p, objective_of(s.last()).unwrap()@);
    }
}

/// Moves every score of player `from` in `list` to player `into`: the
/// well-formed entries of `from` are removed, their scores credited to the
/// entries of `into` with the same objective, and the objectives `into`
/// lacks appended as new entries.
pub fn merge_scores(list: &mut Vec<Node>, from: &str, into: &str) -> (r: MergeOutcome)
    ensures
        merge_result(old(list)@, final(list)@, from@, into@),
        r == expected_outcome(old(list)@, from@, into@),
{
    let from = from.to_owned();
    let into = into.to_owned();
    let mut pending = extract_scores(list, &from);
    proof {
        lemma_gathered_empty(old(list)@, from@);
    }
    let found_from = pending.len() > 0;
    let ghost kept_list = list@;
    let found_into = credit_scores(list, &mut pending, &into);
    let ghost credited_list = list@;
    append_pending(list, &pending, &into);
    proof {
        assert forall|i: int| 0 <= i < kept_list.len() implies merged_entry(
            kept_list[i],
            #[trigger] list@[i],
            bonus(kept_list, i, into@, gathered(old(list)@, from@)),
        ) by {
            assert(list@[i] == list@.subrange(0, credited_list.len() as int)[i]);
        }
    }
    MergeOutcome { found_from, found_into }
}

/// Why a document has no player score list to merge in.
#[derive(Debug, PartialEq, Eq, Clone, Copy)]
pub enum NavError {
    /// The root, or its `data` field, is not a compound.
    NotACompound,
    /// `data` or `PlayerScores` is absent.
    MissingField,
    /// `PlayerScores` is present but not a list.
    WrongType,
}

/// The player score list of a document, found at `data` then `PlayerScores`.
pub open spec fn locate(root: Node) -> Result<Seq<Node>, NavError> {
    match root {
        Node::Compound(f) => match field(f@, "data"@) {
            None => Err(NavError::MissingField),
            Some(Node::Compound(g)) => match field(g@, "PlayerScores"@) {
                None => Err(NavError::MissingField),
                Some(Node::List(l)) => Ok(l@),
                Some(_) => Err(NavError::WrongType),
            },
            Some(_) => Err(NavError::NotACompound),
        },
        _ => Err(NavError::NotACompound),
    }
}

/// `new` is the document `old`, which has a player score list, with that list
/// replaced and everything else as it was.
pub open spec fn same_but_scores(old: Node, new: Node) -> bool {
    let f = old->Compound_0@;
    let p = key_pos(f, "data"@);
    let g = f[p].1->Compound_0@;
    let q = key_pos(g, "PlayerScores"@);
    let nf = new->Compound_0@;
    let ng = nf[p].1->Compound_0@;
    &&& new is Compound
    &&& nf == f.update(p, (f[p].0, nf[p].1))
    &&& nf[p].1 is Compound
    &&& ng == g.update(q, (g[q].0, ng[q].1))
    &&& ng[q].1 is List
}

/// Finds where the player score list of a document stands: the index of
/// `data` in the root, and of `PlayerScores` in `data`.
fn find_scores(root: &Node) -> (r: Result<(usize, usize), NavError>)
    ensures
        locate(*root) is Err ==> r == Err::<(usize, usize), NavError>(locate(*root)->Err_0),
        locate(*root) is Ok ==> (r matches Ok((p, q)) && {
            let f = root->Compound_0@;
            &&& p == key_pos(f, "data"@)
            &&& 0 <= p < f.len()
            &&& f[p as int].1 is Compound
            &&& q == key_pos(f[p as int].1->Compound_0@, "PlayerScores"@)
            &&& 0 <= q < f[p as int].1->Compound_0@.len()
            &&& f[p as int].1->Compound_0@[q as int].1 is List
        }),
{
    let data_key = "data".to_owned();
    let scores_key = "PlayerScores".to_owned();
    match root {
        Node::Compound(f) => match find_key(f, &data_key) {
            None => Err(NavError::MissingField),
            Some(p) => match &f[p].1 {
                Node::Compound(g) => match find_key(g, &scores_key) {
                    None => Err(NavError::MissingField),
                    Some(q) => match &g[q].1 {
                        Node::List(_) => Ok((p, q)),
                        _ => Err(NavError::WrongType),
                    },
                },
                _ => Err(NavError::NotACompound),
            },
        },
        _ => Err(NavError::NotACompound),
    }
}

/// Finds the player score list of the document `root` and merges the scores of
/// `from` into `into` there. A document without such a list is left untouched.
pub fn merge_document(root: &mut Node, from: &str, into: &str) -> (r: Result<MergeOutcome, NavError>)
    ensures
        locate(*old(root)) is Err ==> r == Err::<MergeOutcome, NavError>(locate(*old(root))->Err_0),
        locate(*old(root)) is Err ==> *final(root) == *old(root),
        locate(*old(root)) is Ok ==> r == Ok::<MergeOutcome, NavError>(
            expected_outcome(locate(*old(root))->Ok_0, from@, into@),
        ),
        locate(*old(root)) is Ok ==> same_but_scores(*old(root), *final(root)),
        locate(*old(root)) is Ok ==> locate(*final(root)) is Ok,
        locate(*old(root)) is Ok ==> merge_result(
            locate(*old(root))->Ok_0,
            locate(*final(root))->Ok_0,
            from@,
            into@,
        ),
{
    let (p, q) = match find_scores(root) {
        Ok(path) => path,
        Err(e) => {
            return Err(e);
        },
    };
    let r = match root {
        Node::Compound(f) => match &mut f[p].1 {
            Node::Compound(g) => match &mut g[q].1 {
                Node::List(l) => Ok(merge_scores(l, from, into)),
                _ => Err(NavError::WrongType),
            },
            _ => Err(NavError::NotACompound),
        },
        _ => Err(NavError::NotACompound),
    };
    proof {
        if locate(*old(root)) is Ok {
            let f = old(root)->Compound_0@;
            let p = key_pos(f, "data"@);
            let g = f[p].1->Compound_0@;
            let q = key_pos(g, "PlayerScores"@);
            let nf = root->Compound_0@;
            let ng = nf[p].1->Compound_0@;
            lemma_key_pos(f, "data"@);
            lemma_key_pos(g, "PlayerScores"@);
            lemma_key_pos_update(f, p, nf[p].1, "data"@);
            lemma_key_pos_update(g, q, ng[q].1, "PlayerScores"@);
        }
    }
    r
}

} // verus!
