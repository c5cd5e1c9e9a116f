//! Content hashes.
use vstd::prelude::*;

verus! {

/// A 160-bit content hash, held as its leading 32 bits and its trailing 128.
/// Two ids are the same id exactly when both parts agree.
#[derive(Clone, Copy, Debug, PartialEq, Eq, Hash, Structural)]
pub struct Oid {
    pub head: u32,
    pub tail: u128,
}

impl Oid {
    /// The id of these two parts.
    pub fn new(head: u32, tail: u128) -> (r: Oid)
        ensures
            r == (Oid { head, tail }),
    {
        Oid { head, tail }
    }
}

/// Whether `id` occurs in `ids`.
pub fn contains_id(ids: &Vec<Oid>, id: Oid) -> (r: bool)
    ensures
        r == ids@.contains(id),
{
    let mut i: usize = 0;
    while i < ids.len()
        invariant
            i <= ids.len(),
            forall|j: int| 0 <= j < i ==> ids@[j] != id,
        decreases ids.len() - i,
    {
        if ids[i] == id {
            return true;
        }
        i += 1;
    }
    false
}

/// `ids` with `id` appended unless it is already there.
pub open spec fn with_id(ids: Seq<Oid>, id: Oid) -> Seq<Oid> {
    if ids.contains(id) {
        ids
    } else {
        ids.push(id)
    }
}

/// `ids` with every id of `more` added in turn, each unless already there.
pub open spec fn with_ids(ids: Seq<Oid>, more: Seq<Oid>) -> Seq<Oid>
    decreases more.len(),
{
    if more.len() == 0 {
        ids
    } else {
        with_ids(with_id(ids, more[0]), more.drop_first())
    }
}

/// `ids` without any occurrence of `id`, the rest in their order.
pub open spec fn without_id(ids: Seq<Oid>, id: Oid) -> Seq<Oid>
    decreases ids.len(),
{
    if ids.len() == 0 {
        ids
    } else if ids.last() == id {
        without_id(ids.drop_last(), id)
    } else {
        without_id(ids.drop_last(), id).push(ids.last())
    }
}

/// Removing an id removes exactly that id, and keeps a list free of repetitions.
pub proof fn lemma_without_id(ids: Seq<Oid>, id: Oid)
    ensures
        forall|x: Oid|
            #![trigger without_id(ids, id).contains(x)]
            #![trigger ids.contains(x)]
            without_id(ids, id).contains(x) <==> (x != id && ids.contains(x)),
        ids.no_duplicates() ==> without_id(ids, id).no_duplicates(),
        !ids.contains(id) ==> without_id(ids, id) == ids,
        without_id(ids, id).len() <= ids.len(),
    decreases ids.len(),
{
    if ids.len() > 0 {
        let rest = ids.drop_last();
        let last = ids.last();
        lemma_without_id(rest, id);
        let out = without_id(ids, id);
        let sub = without_id(rest, id);
        assert(ids[ids.len() - 1] == last);
        assert forall|x: Oid| ids.contains(x) <==> (rest.contains(x) || x == last) by {
            if ids.contains(x) {
                let j = choose|j: int| 0 <= j < ids.len() && ids[j] == x;
                if j < rest.len() {
                    assert(rest[j] == x);
                }
            }
            if rest.contains(x) {
                let j = choose|j: int| 0 <= j < rest.len() && rest[j] == x;
                assert(ids[j] == x);
            }
        }
        assert forall|x: Oid| out.contains(x) <==> (x != id && ids.contains(x)) by {
            if last != id {
                assert(out[sub.len() as int] == last);
                if sub.contains(x) {
                    let j = choose|j: int| 0 <= j < sub.len() && sub[j] == x;
                    assert(out[j] == x);
                }
                if out.contains(x) {
                    let j = choose|j: int| 0 <= j < out.len() && out[j] == x;
                    if j < sub.len() {
                        assert(sub[j] == x);
                    }
                }
            }
        }
        if ids.no_duplicates() {
            assert(rest.no_duplicates()) by {
                assert forall|i: int, j: int| 0 <= i < rest.len() && 0 <= j < rest.len() && i != j implies rest[i] != rest[j] by {
                    assert(ids[i] != ids[j]);
                }
            }
            if rest.contains(last) {
                let j = choose|j: int| 0 <= j < rest.len() && rest[j] == last;
                assert(ids[j] == ids[ids.len() - 1]);
            }
        }
        if !ids.contains(id) {
            assert(out =~= ids);
        }
    }
}

/// Adding an id keeps a list free of repetitions, and adds exactly that id.
pub proof fn lemma_with_id(ids: Seq<Oid>, id: Oid)
    ensures
        ids.no_duplicates() ==> with_id(ids, id).no_duplicates(),
        forall|x: Oid|
            #![trigger with_id(ids, id).contains(x)]
            #![trigger ids.contains(x)]
            with_id(ids, id).contains(x) <==> (x == id || ids.contains(x)),
{
    let out = with_id(ids, id);
    if !ids.contains(id) {
        assert(out[ids.len() as int] == id);
        assert forall|x: Oid| out.contains(x) <==> (x == id || ids.contains(x)) by {
            if ids.contains(x) {
                let j = choose|j: int| 0 <= j < ids.len() && ids[j] == x;
                assert(out[j] == x);
            }
            if out.contains(x) {
                let j = choose|j: int| 0 <= j < out.len() && out[j] == x;
                if j < ids.len() {
                    assert(ids[j] == x);
                }
            }
        }
    }
}

/// Adding several ids keeps a list free of repetitions, and adds exactly those.
pub proof fn lemma_with_ids(ids: Seq<Oid>, more: Seq<Oid>)
    ensures
        ids.no_duplicates() ==> with_ids(ids, more).no_duplicates(),
        forall|x: Oid|
            #![trigger with_ids(ids, more).contains(x)]
            #![trigger ids.contains(x)]
            #![trigger more.contains(x)]
            with_ids(ids, more).contains(x) <==> (more.contains(x) || ids.contains(x)),
    decreases more.len(),
{
    if more.len() > 0 {
        lemma_with_id(ids, more[0]);
        lemma_with_ids(with_id(ids, more[0]), more.drop_first());
        assert forall|x: Oid| with_ids(ids, more).contains(x) <==> (more.contains(x)
            || ids.contains(x)) by {
            if more.contains(x) {
                let j = choose|j: int| 0 <= j < more.len() && more[j] == x;
                if j > 0 {
                    assert(more.drop_first()[j - 1] == x);
                }
            }
            if more.drop_first().contains(x) {
                let j = choose|j: int| 0 <= j < more.drop_first().len() && more.drop_first()[j] == x;
                assert(more[j + 1] == x);
            }
        }
    }
}

/// `ids` without any occurrence of any id of `gone`.
pub open spec fn without_all(ids: Seq<Oid>, gone: Seq<Oid>) -> Seq<Oid>
    decreases gone.len(),
{
    if gone.len() == 0 {
        ids
    } else {
        without_all(without_id(ids, gone[0]), gone.drop_first())
    }
}

/// Removing several ids removes exactly those.
pub proof fn lemma_without_all(ids: Seq<Oid>, gone: Seq<Oid>)
    ensures
        forall|x: Oid|
            #![trigger without_all(ids, gone).contains(x)]
            without_all(ids, gone).contains(x) <==> (!gone.contains(x) && ids.contains(x)),
        ids.no_duplicates() ==> without_all(ids, gone).no_duplicates(),
    decreases gone.len(),
{
    if gone.len() > 0 {
        let first = without_id(ids, gone[0]);
        let rest = gone.drop_first();
        lemma_without_id(ids, gone[0]);
        lemma_without_all(first, rest);
        assert(without_all(ids, gone) == without_all(first, rest));
        assert forall|x: Oid|
            #![trigger without_all(ids, gone).contains(x)]
            without_all(ids, gone).contains(x) <==> (!gone.contains(x) && ids.contains(x)) by {
            assert(without_all(first, rest).contains(x) <==> (!rest.contains(x) && first.contains(x)));
            assert(first.contains(x) <==> (x != gone[0] && ids.contains(x)));
            assert(gone.contains(x) <==> (x == gone[0] || rest.contains(x))) by {
                if gone.contains(x) {
                    let j = choose|j: int| 0 <= j < gone.len() && gone[j] == x;
                    if j > 0 {
                        assert(rest[j - 1] == x);
                    }
                }
                if rest.contains(x) {
                    let j = choose|j: int| 0 <= j < rest.len() && rest[j] == x;
                    assert(gone[j + 1] == x);
                }
                if x == gone[0] {
                    assert(gone[0] == x);
                }
            }
        }
    }
}

/// Adds `id` to `ids` unless it is already there.
pub fn insert_id(ids: &mut Vec<Oid>, id: Oid)
    ensures
        final(ids)@ == with_id(old(ids)@, id),
{
    if !contains_id(ids, id) {
        ids.push(id);
    }
}

/// Adds every id of `more` to `ids` in turn, each unless already there.
pub fn extend_ids(ids: &mut Vec<Oid>, more: &Vec<Oid>)
    ensures
        final(ids)@ == with_ids(old(ids)@, more@),
{
    let mut i: usize = 0;
    assert(more@.skip(0) =~= more@);
    while i < more.len()
        invariant
            i <= more.len(),
            with_ids(ids@, more@.skip(i as int)) == with_ids(old(ids)@, more@),
        decreases more.len() - i,
    {
        assert(more@.skip(i as int).drop_first() =~= more@.skip(i as int + 1));
        insert_id(ids, more[i]);
        i += 1;
    }
}

/// Removes `id` from `ids`; tells whether it was there.
pub fn remove_id(ids: &mut Vec<Oid>, id: Oid) -> (found: bool)
    ensures
        final(ids)@ == without_id(old(ids)@, id),
        found == old(ids)@.contains(id),
{
    let mut out: Vec<Oid> = Vec::new();
    let mut found = false;
    let mut i: usize = 0;
    while i < ids.len()
        invariant
            i <= ids.len(),
            out@ == without_id(ids@.take(i as int), id),
            found == ids@.take(i as int).contains(id),
        decreases ids.len() - i,
    {
        proof {
            let before = ids@.take(i as int);
            let after = ids@.take(i as int + 1);
            assert(after.drop_last() =~= before);
            assert(after.last() == ids@[i as int]);
            assert(after.contains(id) <==> (before.contains(id) || ids@[i as int] == id)) by {
                if before.contains(id) {
                    let j = choose|j: int| 0 <= j < before.len() && before[j] == id;
                    assert(after[j] == id);
                }
                if ids@[i as int] == id {
                    assert(after[i as int] == id);
                }
                if after.contains(id) {
                    let j = choose|j: int| 0 <= j < after.len() && after[j] == id;
                    if j < i {
                        assert(before[j] == id);
                    }
                }
            }
        }
        if ids[i] == id {
            found = true;
        } else {
            out.push(ids[i]);
        }
        i += 1;
    }
    assert(ids@.take(ids.len() as int) =~= ids@);
    *ids = out;
    found
}

} // verus!
