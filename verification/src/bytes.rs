//! Small helpers on byte strings.

use vstd::prelude::*;

verus! {

/// The concatenation of the byte strings of `parts`, in order.
pub open spec fn joined(parts: Seq<Seq<u8>>) -> Seq<u8>
    decreases parts.len(),
{
    if parts.len() == 0 {
        Seq::<u8>::empty()
    } else {
        joined(parts.drop_last()) + parts.last()
    }
}

/// An owned copy of `src`.
pub fn copy_of(src: &[u8]) -> (out: Vec<u8>)
    ensures
        out@ == src@,
{
    let mut out: Vec<u8> = Vec::new();
    let mut i: usize = 0;
    while i < src.len()
        invariant
            i <= src.len(),
            out@ == src@.subrange(0, i as int),
        decreases src.len() - i,
    {
        out.push(src[i]);
        i = i + 1;
    }
    assert(src@.subrange(0, src@.len() as int) =~= src@);
    out
}

/// An owned copy of every byte string of `group`, in order.
pub fn copy_group(group: &Vec<Vec<u8>>) -> (out: Vec<Vec<u8>>)
    ensures
        out.deep_view() == group.deep_view(),
{
    let mut out: Vec<Vec<u8>> = Vec::new();
    let mut k: usize = 0;
    while k < group.len()
        invariant
            k <= group.len(),
            out.len() == k,
            forall|j: int| 0 <= j < k ==> out[j]@ == group[j]@,
        decreases group.len() - k,
    {
        out.push(copy_of(group[k].as_slice()));
        k = k + 1;
    }
    assert(out.deep_view() =~= group.deep_view());
    out
}

/// Whether `a` and `b` hold the same bytes.
pub fn same_bytes(a: &[u8], b: &[u8]) -> (same: bool)
    ensures
        same == (a@ == b@),
{
    if a.len() != b.len() {
        return false;
    }
    let mut i: usize = 0;
    while i < a.len()
        invariant
            a@.len() == b@.len(),
            i <= a.len(),
            forall|k: int| 0 <= k < i ==> a@[k] == b@[k],
        decreases a.len() - i,
    {
        if a[i] != b[i] {
            return false;
        }
        i = i + 1;
    }
    assert(a@ =~= b@);
    true
}

/// Appends the bytes of `src` to `dst`.
pub fn push_all(dst: &mut Vec<u8>, src: &[u8])
    ensures
        final(dst)@ == old(dst)@ + src@,
{
    let mut i: usize = 0;
    while i < src.len()
        invariant
            i <= src.len(),
            dst@ == old(dst)@ + src@.subrange(0, i as int),
        decreases src.len() - i,
    {
        dst.push(src[i]);
        i = i + 1;
        assert(dst@ =~= old(dst)@ + src@.subrange(0, i as int));
    }
    assert(src@.subrange(0, src@.len() as int) =~= src@);
}

/// `group` without its member at `position`.
pub fn without(group: Vec<Vec<u8>>, position: usize) -> (out: Vec<Vec<u8>>)
    requires
        position < group.len(),
    ensures
        out.deep_view() == group.deep_view().remove(position as int),
{
    let mut out = group;
    let _ = out.remove(position);
    assert(out.deep_view() =~= group.deep_view().remove(position as int));
    out
}

/// The byte strings of `parts` one after another.
pub fn join(parts: &[Vec<u8>]) -> (out: Vec<u8>)
    ensures
        out@ == joined(parts.deep_view()),
{
    let mut out: Vec<u8> = Vec::new();
    let mut i: usize = 0;
    while i < parts.len()
        invariant
            i <= parts.len(),
            out@ == joined(parts.deep_view().subrange(0, i as int)),
        decreases parts.len() - i,
    {
        push_all(&mut out, parts[i].as_slice());
        proof {
            let done = parts.deep_view().subrange(0, i + 1);
            assert(done.drop_last() =~= parts.deep_view().subrange(0, i as int));
            assert(done.last() == parts[i as int]@);
        }
        i = i + 1;
    }
    assert(parts.deep_view().subrange(0, parts.deep_view().len() as int) =~= parts.deep_view());
    out
}

} // verus!
