//! Character-level helpers shared by the parser and the textual encoders.

use vstd::prelude::*;

verus! {

/// Relies on str::chars: the characters of the string, in order.
#[verifier::external_body]
pub fn to_chars(s: &str) -> (r: Vec<char>)
    ensures
        r@ == s@,
{
    s.chars().collect()
}

/// Relies on String::push: appends the character to the end of the string.
#[verifier::external_body]
pub fn push_char(s: &mut String, c: char)
    ensures
        final(s)@ == old(s)@.push(c),
{
    s.push(c);
}

/// The sequence in reverse order.
pub open spec fn rev_seq<A>(s: Seq<A>) -> Seq<A>
    decreases s.len(),
{
    if s.len() == 0 {
        Seq::empty()
    } else {
        rev_seq(s.drop_first()).push(s.first())
    }
}

pub proof fn lemma_rev_len<A>(s: Seq<A>)
    ensures
        rev_seq(s).len() == s.len(),
    decreases s.len(),
{
    if s.len() > 0 {
        lemma_rev_len(s.drop_first());
    }
}

/// Reversing a sequence with one element appended puts that element first.
pub proof fn lemma_rev_push<A>(s: Seq<A>, x: A)
    ensures
        rev_seq(s.push(x)) == seq![x] + rev_seq(s),
    decreases s.len(),
{
    reveal_with_fuel(rev_seq, 3);
    lemma_rev_len(s);
    if s.len() == 0 {
        assert(s.push(x).drop_first() =~= Seq::<A>::empty());
        assert(rev_seq(s.push(x)) =~= seq![x] + rev_seq(s));
    } else {
        assert(s.push(x).drop_first() =~= s.drop_first().push(x));
        lemma_rev_push(s.drop_first(), x);
        assert(rev_seq(s.push(x)) =~= seq![x] + rev_seq(s));
    }
}

/// Each element of the reversal, by index.
pub proof fn lemma_rev_index<A>(s: Seq<A>)
    ensures
        rev_seq(s).len() == s.len(),
        forall|i: int| 0 <= i < s.len() ==> rev_seq(s)[i] == s[s.len() - 1 - i],
    decreases s.len(),
{
    lemma_rev_len(s);
    if s.len() > 0 {
        lemma_rev_index(s.drop_first());
        assert forall|i: int| 0 <= i < s.len() implies rev_seq(s)[i] == s[s.len() - 1 - i] by {
            if i < s.len() - 1 {
                assert(rev_seq(s)[i] == rev_seq(s.drop_first())[i]);
                assert(s.drop_first()[s.len() - 2 - i] == s[s.len() - 1 - i]);
            }
        }
    }
}

/// The elements of `v`, last first.
pub fn rev_vec<T: Copy>(v: &Vec<T>) -> (r: Vec<T>)
    ensures
        r@ == rev_seq(v@),
{
    let mut r: Vec<T> = Vec::new();
    let mut i: usize = v.len();
    while i > 0
        invariant
            i <= v.len(),
            r@ == rev_seq(v@.skip(i as int)),
        decreases i,
    {
        i = i - 1;
        r.push(v[i]);
        proof {
            assert(v@.skip(i as int).drop_first() =~= v@.skip(i as int + 1));
            assert(r@ =~= rev_seq(v@.skip(i as int)));
        }
    }
    proof {
        assert(v@.skip(0) =~= v@);
    }
    r
}

/// Builds a string from the characters of `v`, last character first.
pub fn rev_to_string(v: &Vec<char>) -> (r: String)
    ensures
        r@ == rev_seq(v@),
{
    let mut s = String::new();
    let mut i: usize = v.len();
    while i > 0
        invariant
            i <= v.len(),
            s@ == rev_seq(v@.skip(i as int)),
        decreases i,
    {
        i = i - 1;
        push_char(&mut s, v[i]);
        proof {
            assert(v@.skip(i as int).drop_first() =~= v@.skip(i as int + 1));
            assert(s@ == rev_seq(v@.skip(i as int)));
        }
    }
    proof {
        assert(v@.skip(0) =~= v@);
    }
    s
}

/// Builds a string from the characters of `v` in order.
pub fn to_string_of(v: &Vec<char>) -> (r: String)
    ensures
        r@ == v@,
{
    let mut s = String::new();
    let mut i: usize = 0;
    while i < v.len()
        invariant
            i <= v.len(),
            s@ == v@.take(i as int),
        decreases v.len() - i,
    {
        push_char(&mut s, v[i]);
        i = i + 1;
        proof {
            assert(v@.take(i as int) =~= v@.take(i as int - 1).push(v@[i as int - 1]));
        }
    }
    proof {
        assert(v@.take(v@.len() as int) =~= v@);
    }
    s
}

} // verus!
