//! Paths as text: segments joined by `/`.

use crate::text::{from_chars, texts, to_chars};
use vstd::prelude::*;

verus! {

/// `base` with `segment` below it: the two are separated by one `/`, which
/// is left out where `base` is empty or already ends in `/`.
pub open spec fn join(base: Seq<char>, segment: Seq<char>) -> Seq<char> {
    if base.len() > 0 && base.last() != '/' {
        base.push('/') + segment
    } else {
        base + segment
    }
}

/// `base` with `segments` below it, one after the other.
pub open spec fn join_all(base: Seq<char>, segments: Seq<Seq<char>>) -> Seq<char>
    decreases segments.len(),
{
    if segments.len() == 0 {
        base
    } else {
        join(join_all(base, segments.drop_last()), segments.last())
    }
}

/// Appends `segment` to the path in `buf`.
pub fn push_segment(buf: &mut Vec<char>, segment: &str)
    ensures
        final(buf)@ == join(old(buf)@, segment@),
{
    let n: usize = buf.len();
    if n > 0 && buf[n - 1] != '/' {
        buf.push('/');
    }
    let mut tail = to_chars(segment);
    buf.append(&mut tail);
}

/// The path that holds `segments[from..to]` below `base`.
pub fn join_segments(base: &str, segments: &Vec<String>, from: usize, to: usize) -> (path: String)
    requires
        from <= to <= segments@.len(),
    ensures
        path@ == join_all(base@, texts(segments@).subrange(from as int, to as int)),
{
    let mut buf = to_chars(base);
    let ghost all = texts(segments@).subrange(from as int, to as int);
    let mut i: usize = from;
    assert(all.take(0) =~= Seq::<Seq<char>>::empty());
    while i < to
        invariant
            from <= i <= to <= segments@.len(),
            all == texts(segments@).subrange(from as int, to as int),
            buf@ == join_all(base@, all.take(i - from)),
        decreases to - i,
    {
        push_segment(&mut buf, segments[i].as_str());
        proof {
            let next = all.take(i - from + 1);
            assert(next.drop_last() =~= all.take(i - from));
            assert(next.last() == segments@[i as int]@);
        }
        i += 1;
    }
    assert(all.take(i - from) =~= all);
    let n: usize = buf.len();
    assert(buf@.subrange(0, n as int) =~= buf@);
    from_chars(&buf, 0, n)
}

} // verus!
