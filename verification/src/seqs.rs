//! Small facts about sequences that several modules use.

use vstd::prelude::*;

verus! {

/// Taking every element of a sequence gives the sequence.
pub proof fn lemma_take_all<T>(s: Seq<T>)
    ensures
        s.take(s.len() as int) == s,
{
    assert(s.take(s.len() as int) =~= s);
}

/// Taking one element more appends that element.
pub proof fn lemma_take_step<T>(s: Seq<T>, i: int)
    requires
        0 <= i < s.len(),
    ensures
        s.take(i + 1) == s.take(i).push(s[i]),
        s.take(i + 1).drop_last() == s.take(i),
        s.take(i + 1).last() == s[i],
{
    assert(s.take(i + 1) =~= s.take(i).push(s[i]));
    assert(s.take(i + 1).drop_last() =~= s.take(i));
}

/// What a sequence holds once one more element is appended.
pub proof fn lemma_push_contains<T>(s: Seq<T>, x: T)
    ensures
        forall|y: T| s.push(x).contains(y) == (s.contains(y) || y == x),
{
    assert forall|y: T| s.push(x).contains(y) == (s.contains(y) || y == x) by {
        if s.contains(y) {
            let i = choose|i: int| 0 <= i < s.len() && s[i] == y;
            assert(s.push(x)[i] == y);
        }
        if y == x {
            assert(s.push(x)[s.len() as int] == y);
        }
    }
}

/// Copies a slice of plain values.
pub fn copy_slice<T: Copy>(a: &[T]) -> (r: Vec<T>)
    ensures
        r@ == a@,
{
    let mut r: Vec<T> = Vec::new();
    let mut i: usize = 0;
    while i < a.len()
        invariant
            i <= a.len(),
            r@ == a@.take(i as int),
        decreases a.len() - i,
    {
        r.push(a[i]);
        proof {
            lemma_take_step(a@, i as int);
        }
        i = i + 1;
    }
    proof {
        lemma_take_all(a@);
    }
    r
}

} // verus!
