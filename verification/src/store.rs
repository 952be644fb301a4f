//! The task store's operations: loading the list from its stored
//! bytes, saving it back, and the in-memory mutations, each with the
//! laws the store keeps.

use crate::codec::{
    decode_list, decode_task, dropped_count, encode_list, lemma_encode_list_push,
    lemma_first_nl_exact, parse_task, push_bytes, render_task, strip_cr, subvec,
};
use crate::task::{has_id, ids_at_most, models, unique_ids, Status, Task, TaskModel};
use vstd::prelude::*;

verus! {

/// Index of the first task of `s` carrying `id`, or the length of `s`.
pub open spec fn find_ix(s: Seq<TaskModel>, id: u32) -> int
    decreases s.len(),
{
    if s.len() == 0 {
        0
    } else if s[0].id == id {
        0
    } else {
        1 + find_ix(s.drop_first(), id)
    }
}

/// `t` with its status set to done.
pub open spec fn set_done(t: TaskModel) -> TaskModel {
    TaskModel { id: t.id, content: t.content, date: t.date, status: Status::Done }
}

/// What marking `id` done leaves of the list: the first task carrying
/// `id` set done, or the list unchanged when no task carries it.
pub open spec fn mark_done_spec(s: Seq<TaskModel>, id: u32) -> Seq<TaskModel> {
    if has_id(s, id) {
        s.update(find_ix(s, id), set_done(s[find_ix(s, id)]))
    } else {
        s
    }
}

/// What deleting `id` leaves of the list: the first task carrying `id`
/// removed, the rest kept in order, or the list unchanged when no task
/// carries it.
pub open spec fn delete_spec(s: Seq<TaskModel>, id: u32) -> Seq<TaskModel> {
    if has_id(s, id) {
        s.remove(find_ix(s, id))
    } else {
        s
    }
}

/// The subsequence of tasks not yet done, in their original order.
pub open spec fn undone_only(s: Seq<TaskModel>) -> Seq<TaskModel>
    decreases s.len(),
{
    if s.len() == 0 {
        s
    } else if s[0].status is Done {
        undone_only(s.drop_first())
    } else {
        seq![s[0]] + undone_only(s.drop_first())
    }
}

/// What `find_ix` finds: the first position carrying `id`, present
/// exactly when some task carries `id`.
pub proof fn lemma_find_ix(s: Seq<TaskModel>, id: u32)
    ensures
        0 <= find_ix(s, id) <= s.len(),
        find_ix(s, id) < s.len() ==> s[find_ix(s, id)].id == id,
        forall|j: int| 0 <= j < find_ix(s, id) ==> s[j].id != id,
        (find_ix(s, id) < s.len()) == has_id(s, id),
    decreases s.len(),
{
    if s.len() == 0 {
    } else if s[0].id == id {
        assert(has_id(s, id));
    } else {
        lemma_find_ix(s.drop_first(), id);
        if has_id(s, id) {
            let i = choose|i: int| 0 <= i < s.len() && s[i].id == id;
            assert(s.drop_first()[i - 1].id == id);
            assert(has_id(s.drop_first(), id));
        }
        if has_id(s.drop_first(), id) {
            let i = choose|i: int| 0 <= i < s.drop_first().len() && s.drop_first()[i].id == id;
            assert(s[i + 1].id == id);
            assert(has_id(s, id));
        }
        assert forall|j: int| 0 <= j < find_ix(s, id) implies s[j].id != id by {
            if j >= 1 {
                assert(s.drop_first()[j - 1].id != id);
            }
        }
    }
}

/// Reads the stored bytes of the task file as a list, and reports how
/// many lines were dropped for not fitting the record grammar: each
/// line is read on its own, the lines that fit are kept in file order.
#[verifier::loop_isolation(false)]
#[verifier::rlimit(50)]
pub fn load_report(data: &Vec<u8>) -> (r: (Vec<Task>, usize))
    ensures
        models(r.0@) == decode_list(data@),
        r.1 == dropped_count(data@),
{
    let mut out: Vec<Task> = Vec::new();
    let mut skipped: usize = 0;
    let n = data.len();
    let mut i: usize = 0;
    proof {
        assert(models(out@) =~= Seq::<TaskModel>::empty());
        assert(data@.subrange(0, n as int) =~= data@);
        assert(models(out@) + decode_list(data@) =~= decode_list(data@));
    }
    while i < n
        invariant
            i <= n,
            skipped <= i,
            decode_list(data@) == models(out@) + decode_list(data@.subrange(i as int, n as int)),
            dropped_count(data@) == skipped + dropped_count(
                data@.subrange(i as int, n as int),
            ),
        decreases n - i,
    {
        let mut j: usize = i;
        while j < n && data[j] != 0x0a
            invariant
                i <= j <= n,
                forall|k: int| i <= k < j ==> data@[k] != 0x0a,
            decreases n - j,
        {
            j += 1;
        }
        let mut hi: usize = j;
        if hi > i && data[hi - 1] == 0x0d {
            hi -= 1;
        }
        let line = subvec(data, i, hi);
        let ghost suf = data@.subrange(i as int, n as int);
        let next = if j < n {
            j + 1
        } else {
            j
        };
        proof {
            assert(forall|k: int| 0 <= k < j - i ==> suf[k] != 0x0a);
            lemma_first_nl_exact(suf, j - i);
            assert(suf.subrange(0, j - i) =~= data@.subrange(i as int, j as int));
            if hi < j {
                assert(data@.subrange(i as int, j as int).drop_last() =~= data@.subrange(
                    i as int,
                    hi as int,
                ));
            }
            assert(strip_cr(data@.subrange(i as int, j as int)) == line@);
            if j < n {
                assert(suf.subrange(j - i + 1, suf.len() as int) =~= data@.subrange(
                    next as int,
                    n as int,
                ));
            } else {
                assert(data@.subrange(next as int, n as int) =~= Seq::<u8>::empty());
            }
            assert(suf.len() > 0);
            assert(strip_cr(suf.subrange(0, j - i)) == line@);
            if decode_task(line@) is Some {
                assert(decode_list(suf) == seq![decode_task(line@).unwrap()] + decode_list(
                    data@.subrange(next as int, n as int),
                ));
                assert(dropped_count(suf) == dropped_count(
                    data@.subrange(next as int, n as int),
                ));
            } else {
                assert(decode_list(suf) == decode_list(data@.subrange(next as int, n as int)));
                assert(dropped_count(suf) == 1 + dropped_count(
                    data@.subrange(next as int, n as int),
                ));
            }
        }
        let ghost mprev = models(out@);
        match parse_task(&line) {
            Some(t) => {
                out.push(t);
                proof {
                    assert(models(out@) =~= mprev.push(t.model()));
                    assert(mprev.push(t.model()) + decode_list(
                        data@.subrange(next as int, n as int),
                    ) =~= mprev + decode_list(suf));
                }
            },
            None => {
                skipped += 1;
            },
        }
        i = next;
    }
    proof {
        assert(data@.subrange(n as int, n as int) =~= Seq::<u8>::empty());
        assert(models(out@) + decode_list(Seq::<u8>::empty()) =~= models(out@));
    }
    (out, skipped)
}

/// Reads the stored bytes of the task file as a list: the lines that
/// fit the record grammar, in file order, the others dropped.
pub fn load(data: &Vec<u8>) -> (list: Vec<Task>)
    ensures
        models(list@) == decode_list(data@),
{
    let r = load_report(data);
    r.0
}

/// Renders the whole list as the bytes of the task file: every task's
/// line followed by a line feed, in list order.  Saving is a total
/// rewrite of the file, never a patch.
#[verifier::loop_isolation(false)]
pub fn save(list: &Vec<Task>) -> (r: Vec<u8>)
    ensures
        r@ == encode_list(models(list@)),
{
    let mut out: Vec<u8> = Vec::new();
    let n = list.len();
    let mut i: usize = 0;
    while i < n
        invariant
            i <= n,
            out@ == encode_list(models(list@).take(i as int)),
        decreases n - i,
    {
        let rec = render_task(&list[i]);
        push_bytes(&mut out, &rec);
        out.push(0x0a);
        proof {
            lemma_encode_list_push(models(list@).take(i as int), models(list@)[i as int]);
            assert(models(list@).take(i as int).push(models(list@)[i as int]) =~= models(
                list@,
            ).take(i as int + 1));
            assert(out@ =~= encode_list(models(list@).take(i as int + 1)));
        }
        i += 1;
    }
    proof {
        assert(models(list@).take(n as int) =~= models(list@));
    }
    out
}

/// Appends a new task with the given id, content and creation
/// timestamp, status undone.  The caller persists the list afterwards.
pub fn insert(list: &mut Vec<Task>, content: Vec<u8>, date: Vec<u8>, id: u32)
    ensures
        models(final(list)@) == models(old(list)@).push(
            TaskModel { id, content: content@, date: date@, status: Status::Undone },
        ),
{
    let ghost c = content@;
    let ghost d = date@;
    list.push(Task { id, content, date, status: Status::Undone });
    proof {
        assert(models(list@) =~= models(old(list)@).push(
            TaskModel { id, content: c, date: d, status: Status::Undone },
        ));
    }
}

/// Sets the status of the first task carrying `id` to done; reports
/// whether any task carries `id` and changes nothing when none does.
/// Marking an already done task again is a no-op transition.
#[verifier::loop_isolation(false)]
pub fn mark_done(list: &mut Vec<Task>, id: u32) -> (found: bool)
    ensures
        found == has_id(models(old(list)@), id),
        models(final(list)@) == mark_done_spec(models(old(list)@), id),
{
    let ghost m0 = models(old(list)@);
    proof {
        lemma_find_ix(m0, id);
    }
    let n = list.len();
    let mut i: usize = 0;
    while i < n
        invariant
            i <= n,
            n == list@.len(),
            list@ == old(list)@,
            forall|j: int| 0 <= j < i ==> m0[j].id != id,
        decreases n - i,
    {
        if list[i].id == id {
            proof {
                assert(m0[i as int].id == id);
                assert(has_id(m0, id));
                assert(find_ix(m0, id) == i);
            }
            let t = list.remove(i);
            let t2 = Task { id: t.id, content: t.content, date: t.date, status: Status::Done };
            list.insert(i, t2);
            proof {
                assert(models(list@) =~= mark_done_spec(m0, id));
            }
            return true;
        }
        i += 1;
    }
    proof {
        if has_id(m0, id) {
            let k = choose|k: int| 0 <= k < m0.len() && m0[k].id == id;
            assert(m0[k].id != id);
        }
        assert(models(list@) =~= mark_done_spec(m0, id));
    }
    false
}

/// Removes the first task carrying `id`, keeping the rest in order;
/// reports whether any task carries `id` and changes nothing when none
/// does.
#[verifier::loop_isolation(false)]
pub fn delete(list: &mut Vec<Task>, id: u32) -> (found: bool)
    ensures
        found == has_id(models(old(list)@), id),
        models(final(list)@) == delete_spec(models(old(list)@), id),
{
    let ghost m0 = models(old(list)@);
    proof {
        lemma_find_ix(m0, id);
    }
    let n = list.len();
    let mut i: usize = 0;
    while i < n
        invariant
            i <= n,
            n == list@.len(),
            list@ == old(list)@,
            forall|j: int| 0 <= j < i ==> m0[j].id != id,
        decreases n - i,
    {
        if list[i].id == id {
            proof {
                assert(m0[i as int].id == id);
                assert(has_id(m0, id));
                assert(find_ix(m0, id) == i);
            }
            let _ = list.remove(i);
            proof {
                assert(models(list@) =~= delete_spec(m0, id));
            }
            return true;
        }
        i += 1;
    }
    proof {
        if has_id(m0, id) {
            let k = choose|k: int| 0 <= k < m0.len() && m0[k].id == id;
            assert(m0[k].id != id);
        }
        assert(models(list@) =~= delete_spec(m0, id));
    }
    false
}

/// Empties the list entirely.  The caller pairs this with resetting
/// the id allocator.
pub fn clear_all(list: &mut Vec<Task>)
    ensures
        models(final(list)@) == Seq::<TaskModel>::empty(),
{
    list.clear();
    proof {
        assert(models(list@) =~= Seq::<TaskModel>::empty());
    }
}

/// Removes every task already done, keeping the rest in order.
#[verifier::loop_isolation(false)]
pub fn clear_done(list: &mut Vec<Task>)
    ensures
        models(final(list)@) == undone_only(models(old(list)@)),
{
    let ghost m0 = models(old(list)@);
    let mut kept: Vec<Task> = Vec::new();
    while list.len() > 0
        invariant
            undone_only(m0) == models(kept@) + undone_only(models(list@)),
        decreases list@.len(),
    {
        let ghost mpre = models(list@);
        let ghost mkept = models(kept@);
        let t = list.remove(0);
        proof {
            assert(mpre =~= seq![t.model()] + models(list@));
            assert(mpre.drop_first() =~= models(list@));
        }
        match t.status {
            Status::Done => {
            },
            Status::Undone => {
                kept.push(t);
                proof {
                    assert(models(kept@) =~= mkept.push(t.model()));
                    assert(mkept.push(t.model()) + undone_only(models(list@)) =~= mkept + (
                    seq![t.model()] + undone_only(models(list@))));
                }
            },
        }
    }
    proof {
        assert(models(list@) =~= Seq::<TaskModel>::empty());
        assert(models(kept@) + undone_only(models(list@)) =~= models(kept@));
    }
    *list = kept;
}

/// Law: marking a task done twice is marking it once; the second call
/// finds the task just as the first did and never reports an error.
pub proof fn lemma_mark_done_idempotent(s: Seq<TaskModel>, id: u32)
    ensures
        has_id(mark_done_spec(s, id), id) == has_id(s, id),
        mark_done_spec(mark_done_spec(s, id), id) == mark_done_spec(s, id),
{
    if has_id(s, id) {
        lemma_find_ix(s, id);
        let f = find_ix(s, id);
        let s1 = s.update(f, set_done(s[f]));
        assert(s1[f].id == id);
        assert(has_id(s1, id));
        lemma_find_ix(s1, id);
        let f1 = find_ix(s1, id);
        assert(forall|j: int| 0 <= j < s1.len() ==> s1[j].id == s[j].id);
        assert(f1 == f);
        assert(s1.update(f1, set_done(s1[f1])) =~= s1);
    }
}

/// Law: deleting an id a unique-id list carries removes exactly one
/// task; deleting it again finds nothing and changes nothing.
pub proof fn lemma_delete_twice(s: Seq<TaskModel>, id: u32)
    requires
        unique_ids(s),
        has_id(s, id),
    ensures
        delete_spec(s, id).len() == s.len() - 1,
        !has_id(delete_spec(s, id), id),
        delete_spec(delete_spec(s, id), id) == delete_spec(s, id),
{
    lemma_find_ix(s, id);
    let f = find_ix(s, id);
    let s1 = s.remove(f);
    assert forall|k: int| 0 <= k < s1.len() implies s1[k].id != id by {
        if k < f {
            assert(s1[k] == s[k]);
        } else {
            assert(s1[k] == s[k + 1]);
            assert(s[f].id == id);
        }
    }
    if has_id(s1, id) {
        let k = choose|k: int| 0 <= k < s1.len() && s1[k].id == id;
        assert(s1[k].id != id);
    }
}

/// Law: a freshly minted id never repeats in the list.  When every id
/// of the list is at most the allocator's persisted counter and a task
/// carrying the next minted id (one above that counter) is appended,
/// the new id exceeds every id already present, the ids stay unique,
/// and the new counter value bounds the list again.
pub proof fn lemma_fresh_id_keeps_invariant(s: Seq<TaskModel>, bound: u32, t: TaskModel)
    requires
        unique_ids(s),
        ids_at_most(s, bound),
        bound < u32::MAX,
        t.id == bound + 1,
    ensures
        unique_ids(s.push(t)),
        ids_at_most(s.push(t), t.id),
        forall|i: int| 0 <= i < s.len() ==> t.id > #[trigger] s[i].id,
{
    assert forall|i: int, j: int| 0 <= i < j < s.push(t).len() implies s.push(t)[i].id != s.push(
        t,
    )[j].id by {
        if j < s.len() {
            assert(s.push(t)[i] == s[i] && s.push(t)[j] == s[j]);
        } else {
            assert(s.push(t)[i] == s[i] && s.push(t)[j] == t);
            assert(s[i].id <= bound);
        }
    }
}

/// Law: after clearing done tasks no done task remains, and every
/// task that was undone is still there; `undone_only` keeps them in
/// their original relative order by construction.
pub proof fn lemma_clear_done_result(s: Seq<TaskModel>)
    ensures
        forall|k: int| 0 <= k < undone_only(s).len() ==> !((#[trigger] undone_only(s)[k]).status
            is Done),
        forall|k: int|
            0 <= k < s.len() && !(s[k].status is Done) ==> undone_only(s).contains(#[trigger] s[k]),
        undone_only(s).len() <= s.len(),
    decreases s.len(),
{
    if s.len() > 0 {
        lemma_clear_done_result(s.drop_first());
        let rest = undone_only(s.drop_first());
        assert forall|k: int|
            0 <= k < s.len() && !(s[k].status is Done) implies undone_only(s).contains(
            #[trigger] s[k],
        ) by {
            if s[0].status is Done {
                assert(s.drop_first()[k - 1] == s[k]);
                assert(rest.contains(s[k]));
                let j = choose|j: int| 0 <= j < rest.len() && rest[j] == s[k];
                assert(undone_only(s)[j] == s[k]);
            } else {
                if k == 0 {
                    assert(undone_only(s)[0] == s[0]);
                } else {
                    assert(s.drop_first()[k - 1] == s[k]);
                    assert(rest.contains(s[k]));
                    let j = choose|j: int| 0 <= j < rest.len() && rest[j] == s[k];
                    assert(undone_only(s)[j + 1] == s[k]);
                }
            }
        }
    }
}

} // verus!
