use vstd::prelude::*;

verus! {

/// One more element taken is the previous prefix and that element.
pub(crate) proof fn lemma_take_last<A>(s: Seq<A>, i: int)
    requires
        0 <= i < s.len(),
    ensures
        s.take(i + 1).drop_last() == s.take(i),
        s.take(i + 1).last() == s[i],
        s.take(i + 1).len() == i + 1,
{
    assert(s.take(i + 1).drop_last() =~= s.take(i));
}

/// Dropping the pushed element gives the sequence back.
pub(crate) proof fn lemma_push_drop_last<A>(s: Seq<A>, x: A)
    ensures
        s.push(x).drop_last() == s,
        s.push(x).last() == x,
{
    assert(s.push(x).drop_last() =~= s);
}

/// What a sequence holds after a push.
pub(crate) proof fn lemma_push_contains<A>(s: Seq<A>, x: A)
    ensures
        forall|c: A| #[trigger] s.push(x).contains(c) <==> (s.contains(c) || c == x),
{
    assert forall|c: A| #[trigger] s.push(x).contains(c) <==> (s.contains(c) || c == x) by {
        if s.push(x).contains(c) {
            let i = choose|i: int| 0 <= i < s.push(x).len() && s.push(x)[i] == c;
            if i < s.len() {
                assert(s[i] == c);
            }
        }
        if s.contains(c) {
            let i = choose|i: int| 0 <= i < s.len() && s[i] == c;
            assert(s.push(x)[i] == c);
        }
        if c == x {
            assert(s.push(x)[s.len() as int] == c);
        }
    }
}

/// What a sequence holds, split into its front and its last element.
pub(crate) proof fn lemma_drop_last_contains<A>(s: Seq<A>)
    ensures
        s.len() > 0 ==> forall|c: A| #[trigger] s.contains(c) <==> (s.drop_last().contains(c) || c == s.last()),
{
    if s.len() > 0 {
        lemma_push_contains(s.drop_last(), s.last());
        assert(s.drop_last().push(s.last()) =~= s);
    }
}

/// A suffix starts with its first element, followed by the next suffix.
pub(crate) proof fn lemma_skip_step<A>(s: Seq<A>, k: int)
    requires
        0 <= k < s.len(),
    ensures
        s.skip(k)[0] == s[k],
        s.skip(k).drop_first() == s.skip(k + 1),
        s.skip(k).len() > 0,
{
    assert(s.skip(k).drop_first() =~= s.skip(k + 1));
}

} // verus!
