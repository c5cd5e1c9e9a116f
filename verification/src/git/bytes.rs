//! Byte strings: commit summaries are bytes, not necessarily text.
use vstd::prelude::*;

verus! {

/// Whether `text` begins with `prefix`.
pub open spec fn has_prefix(text: Seq<u8>, prefix: Seq<u8>) -> bool {
    prefix.len() <= text.len() && forall|i: int| 0 <= i < prefix.len() ==> text[i] == prefix[i]
}

/// What follows `prefix` in `text`, if `text` begins with it.
pub open spec fn after_prefix(text: Seq<u8>, prefix: Seq<u8>) -> Option<Seq<u8>> {
    if has_prefix(text, prefix) {
        Some(text.skip(prefix.len() as int))
    } else {
        None
    }
}

/// Whether `text` begins with `prefix`.
pub fn starts_with(text: &Vec<u8>, prefix: &Vec<u8>) -> (r: bool)
    ensures
        r == has_prefix(text@, prefix@),
{
    if prefix.len() > text.len() {
        return false;
    }
    let mut i: usize = 0;
    while i < prefix.len()
        invariant
            i <= prefix.len(),
            prefix.len() <= text.len(),
            forall|j: int| 0 <= j < i ==> text@[j] == prefix@[j],
        decreases prefix.len() - i,
    {
        if text[i] != prefix[i] {
            return false;
        }
        i += 1;
    }
    true
}

/// The bytes of `text` from index `from` up to, not including, `to`.
pub fn slice_of(text: &Vec<u8>, from: usize, to: usize) -> (r: Vec<u8>)
    requires
        from <= to <= text.len(),
    ensures
        r@ == text@.subrange(from as int, to as int),
{
    let mut out: Vec<u8> = Vec::new();
    let mut i: usize = from;
    while i < to
        invariant
            from <= i <= to,
            to <= text.len(),
            out@ == text@.subrange(from as int, i as int),
        decreases to - i,
    {
        out.push(text[i]);
        assert(out@ =~= text@.subrange(from as int, i as int + 1));
        i += 1;
    }
    out
}

/// What follows `prefix` in `text`, if `text` begins with it.
pub fn strip_prefix(text: &Vec<u8>, prefix: &Vec<u8>) -> (r: Option<Vec<u8>>)
    ensures
        after_prefix(text@, prefix@) matches Some(rest) ==> r matches Some(v) && v@ == rest,
        after_prefix(text@, prefix@) is None ==> r is None,
{
    if starts_with(text, prefix) {
        let rest = slice_of(text, prefix.len(), text.len());
        assert(rest@ =~= text@.skip(prefix.len() as int));
        Some(rest)
    } else {
        None
    }
}

/// Whether the two are the same bytes.
pub fn same_bytes(a: &Vec<u8>, b: &Vec<u8>) -> (r: bool)
    ensures
        r == (a@ == b@),
{
    if a.len() != b.len() {
        return false;
    }
    let mut i: usize = 0;
    while i < a.len()
        invariant
            i <= a.len(),
            a.len() == b.len(),
            forall|j: int| 0 <= j < i ==> a@[j] == b@[j],
        decreases a.len() - i,
    {
        if a[i] != b[i] {
            return false;
        }
        i += 1;
    }
    assert(a@ =~= b@);
    true
}

/// Whether `a` comes before `b` in the order of byte strings: at the first
/// place where they differ `a` has the smaller byte, or `a` ends there and `b`
/// goes on.
pub open spec fn lex_less(a: Seq<u8>, b: Seq<u8>) -> bool
    decreases a.len(),
{
    if b.len() == 0 {
        false
    } else if a.len() == 0 {
        true
    } else if a[0] != b[0] {
        a[0] < b[0]
    } else {
        lex_less(a.drop_first(), b.drop_first())
    }
}

/// Whether `a` comes before `b` in the order of byte strings.
pub fn bytes_less(a: &Vec<u8>, b: &Vec<u8>) -> (r: bool)
    ensures
        r == lex_less(a@, b@),
{
    let mut i: usize = 0;
    assert(a@.skip(0) =~= a@);
    assert(b@.skip(0) =~= b@);
    while i < a.len() && i < b.len()
        invariant
            i <= a.len(),
            i <= b.len(),
            lex_less(a@.skip(i as int), b@.skip(i as int)) == lex_less(a@, b@),
        decreases a.len() - i,
    {
        assert(a@.skip(i as int)[0] == a@[i as int]);
        assert(b@.skip(i as int)[0] == b@[i as int]);
        if a[i] != b[i] {
            return a[i] < b[i];
        }
        assert(a@.skip(i as int).drop_first() =~= a@.skip(i as int + 1));
        assert(b@.skip(i as int).drop_first() =~= b@.skip(i as int + 1));
        i += 1;
    }
    i < b.len()
}

/// The same bytes again.
pub fn copy_bytes(a: &Vec<u8>) -> (r: Vec<u8>)
    ensures
        r@ == a@,
{
    let r = slice_of(a, 0, a.len());
    assert(r@ =~= a@);
    r
}

} // verus!
