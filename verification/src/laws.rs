use vstd::prelude::*;

verus! {

/// The sequence built by inserting value `j` at index `j` for each
/// `j in 0..n`, in increasing order — the abstract effect of appending
/// `0..n` to an empty list one element at a time.
pub open spec fn ramp(n: nat) -> Seq<int>
    decreases n,
{
    if n == 0 {
        Seq::empty()
    } else {
        ramp((n - 1) as nat).insert(n - 1, n - 1)
    }
}

/// Inserting one value into a sequence makes it one longer.
proof fn lemma_ramp_len(n: nat)
    ensures
        ramp(n).len() == n,
    decreases n,
{
    if n > 0 {
        lemma_ramp_len((n - 1) as nat);
    }
}

/// Round trip: after inserting values `0..n` at successive increasing
/// indices, the element at each index `i` is `i` itself (and the length
/// is `n`).
pub proof fn lemma_round_trip(n: nat, i: int)
    requires
        0 <= i < n,
    ensures
        ramp(n).len() == n,
        ramp(n)[i] == i,
    decreases n,
{
    lemma_ramp_len(n);
    if n > 0 {
        lemma_ramp_len((n - 1) as nat);
        if i < n - 1 {
            lemma_round_trip((n - 1) as nat, i);
        }
    }
}

/// Inserting `v` at index `i` and then removing index `i` gives back the
/// original sequence, and the inserted pair reads back `v`; so a list's
/// length is unchanged net of such a pair.
pub proof fn lemma_insert_then_remove<V>(s: Seq<V>, i: int, v: V)
    requires
        0 <= i <= s.len(),
    ensures
        s.insert(i, v)[i] == v,
        s.insert(i, v).len() == s.len() + 1,
        s.insert(i, v).remove(i) == s,
{
    assert(s.insert(i, v).remove(i) =~= s);
}

/// Shift on removal: removing index `i` leaves every element before `i`
/// in place and moves every element previously at an index `j > i` to
/// `j - 1`.
pub proof fn lemma_remove_shift<V>(s: Seq<V>, i: int)
    requires
        0 <= i < s.len(),
    ensures
        s.remove(i).len() == s.len() - 1,
        forall|j: int| 0 <= j < i ==> s.remove(i)[j] == s[j],
        forall|j: int| i < j < s.len() ==> s.remove(i)[j - 1] == s[j],
{
}

/// Shift on insertion: inserting at index `i` leaves every element before
/// `i` in place, puts `v` at `i`, and moves every element previously at an
/// index `j >= i` to `j + 1`.
pub proof fn lemma_insert_shift<V>(s: Seq<V>, i: int, v: V)
    requires
        0 <= i <= s.len(),
    ensures
        s.insert(i, v).len() == s.len() + 1,
        forall|j: int| 0 <= j < i ==> s.insert(i, v)[j] == s[j],
        s.insert(i, v)[i] == v,
        forall|j: int| i <= j < s.len() ==> s.insert(i, v)[j + 1] == s[j],
{
}

} // verus!
