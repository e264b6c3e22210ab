//! Paths.
use vstd::prelude::*;
use crate::filesystem::bytes::slice_of;

verus! {

pub const SLASH: u8 = 0x2f;

/// End of the element that begins at `pos`.
pub open spec fn element_end(path: Seq<u8>, pos: int) -> int
    decreases path.len() - pos,
{
    if pos >= path.len() || path[pos] == SLASH {
        pos
    } else {
        element_end(path, pos + 1)
    }
}

/// The elements of a path from `pos` on: what stands between slashes, without what is empty.
pub open spec fn elements_from(path: Seq<u8>, pos: int) -> Seq<Seq<u8>>
    decreases path.len() - pos,
{
    if pos >= path.len() {
        Seq::empty()
    } else if path[pos] == SLASH {
        elements_from(path, pos + 1)
    } else {
        proof {
            lemma_element_end(path, pos);
        }
        seq![path.subrange(pos, element_end(path, pos))] + elements_from(path, element_end(path, pos))
    }
}

pub proof fn lemma_element_end(path: Seq<u8>, pos: int)
    ensures
        pos < path.len() && path[pos] != SLASH ==> pos < element_end(path, pos) <= path.len(),
        pos <= path.len() ==> pos <= element_end(path, pos) <= path.len(),
        element_end(path, pos) < path.len() ==> path[element_end(path, pos)] == SLASH,
    decreases path.len() - pos,
{
    if pos < path.len() && path[pos] != SLASH {
        lemma_element_end(path, pos + 1);
    }
}

pub open spec fn elements(path: Seq<u8>) -> Seq<Seq<u8>> {
    elements_from(path, 0)
}

pub open spec fn is_absolute(path: Seq<u8>) -> bool {
    path.len() > 0 && path[0] == SLASH
}

/// Whether the path begins at the root.
pub fn starts_at_root(path: &Vec<u8>) -> (b: bool)
    ensures
        b == is_absolute(path@),
{
    path.len() > 0 && path[0] == SLASH
}

/// The next element from `pos` on and where it ends.
pub fn next_element(path: &Vec<u8>, pos: usize) -> (r: Option<(Vec<u8>, usize)>)
    requires
        pos <= path@.len(),
    ensures
        match r {
            Some((name, end)) => {
                &&& pos < end <= path@.len()
                &&& elements_from(path@, pos as int) == seq![name@] + elements_from(path@, end as int)
                &&& 0 < name@.len() <= end
                &&& end < path@.len() ==> path@[end as int] == SLASH
                &&& name@ == path@.subrange(end - name@.len(), end as int)
                &&& forall|i: int| 0 <= i < name@.len() ==> #[trigger] name@[i] != SLASH
            },
            None => elements_from(path@, pos as int) == Seq::<Seq<u8>>::empty(),
        },
{
    let mut start = pos;
    while start < path.len() && path[start] == SLASH
        invariant
            pos <= start <= path@.len(),
            elements_from(path@, pos as int) == elements_from(path@, start as int),
        decreases path@.len() - start,
    {
        start = start + 1;
    }
    if start == path.len() {
        return None;
    }
    let mut end = start;
    while end < path.len() && path[end] != SLASH
        invariant
            start <= end <= path@.len(),
            element_end(path@, start as int) == element_end(path@, end as int),
            forall|i: int| start <= i < end ==> #[trigger] path@[i] != SLASH,
        decreases path@.len() - end,
    {
        end = end + 1;
    }
    proof {
        lemma_element_end(path@, start as int);
    }
    let name = slice_of(path, start, end - start);
    proof {
        assert(name@ =~= path@.subrange(end - name@.len(), end as int));
    }
    Some((name, end))
}

/// Whether the path ends in a slash.
pub open spec fn ends_in_slash(path: Seq<u8>) -> bool {
    path.len() > 0 && path[path.len() - 1] == SLASH
}

/// Where no element is left but something is, the path ends in a slash.
pub proof fn lemma_no_element(path: Seq<u8>, pos: int)
    requires
        0 <= pos < path.len(),
        elements_from(path, pos).len() == 0,
    ensures
        ends_in_slash(path),
    decreases path.len() - pos,
{
    if path[pos] == SLASH {
        if pos + 1 < path.len() {
            lemma_no_element(path, pos + 1);
        }
    }
}

} // verus!
