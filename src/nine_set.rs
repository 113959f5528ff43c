use vstd::prelude::*;

verus! {

/// The digits a Sudoku cell can hold: 1 through 9.
pub open spec fn all_digits() -> Set<u8> {
    Set::new(|v: u8| 1 <= v <= 9)
}

/// The digits 1 through `k` whose flag in `flags` is set (`flags[v - 1]` stands for `v`).
pub open spec fn flagged_upto(flags: Seq<bool>, k: int) -> Set<u8> {
    Set::new(|v: u8| 1 <= v <= k && flags[v - 1])
}

/// A set that can hold numbers in the range [1, 9].
#[derive(Clone, Copy)]
pub struct NineSet {
    contents: [bool; 9],
}

impl View for NineSet {
    type V = Set<u8>;

    closed spec fn view(&self) -> Set<u8> {
        flagged_upto(self.contents@, 9)
    }
}

/// Adding digit `k + 1` to the flagged digits below it grows the set by one
/// exactly when its flag is set; the set stays finite throughout.
proof fn lemma_flagged_step(flags: Seq<bool>, k: int)
    requires
        0 <= k < 9,
        flags.len() == 9,
    ensures
        flags[k] ==> flagged_upto(flags, k + 1) == flagged_upto(flags, k).insert((k + 1) as u8),
        !flags[k] ==> flagged_upto(flags, k + 1) == flagged_upto(flags, k),
        !flagged_upto(flags, k).contains((k + 1) as u8),
{
    if flags[k] {
        assert(flagged_upto(flags, k + 1) =~= flagged_upto(flags, k).insert((k + 1) as u8));
    } else {
        assert(flagged_upto(flags, k + 1) =~= flagged_upto(flags, k));
    }
}

/// The flagged digits up to `k` form a finite set.
proof fn lemma_flagged_finite(flags: Seq<bool>, k: int)
    requires
        0 <= k <= 9,
        flags.len() == 9,
    ensures
        flagged_upto(flags, k).finite(),
    decreases k,
{
    if k == 0 {
        assert(flagged_upto(flags, 0) =~= Set::empty());
    } else {
        lemma_flagged_finite(flags, k - 1);
        lemma_flagged_step(flags, k - 1);
    }
}

impl NineSet {
    /// Every member of a set is a digit, and the set is finite.
    pub proof fn lemma_bounded(&self)
        ensures
            self@.subset_of(all_digits()),
            self@.finite(),
    {
        lemma_flagged_finite(self.contents@, 9);
    }

    /// Create and return an empty NineSet.
    pub fn empty() -> (r: Self)
        ensures
            r@ == Set::<u8>::empty(),
    {
        let contents = [false; 9];
        let r = NineSet { contents };
        assert(r@ =~= Set::<u8>::empty());
        r
    }

    /// Add n to this NineSet; n must be in the range [1, 9].
    pub fn add(&mut self, n: u8)
        requires
            1 <= n <= 9,
        ensures
            final(self)@ == old(self)@.insert(n),
    {
        self.contents[(n - 1) as usize] = true;
        assert(self@ =~= old(self)@.insert(n));
    }

    /// Indicates whether this NineSet contains n.
    pub fn contains(&self, n: u8) -> (r: bool)
        ensures
            r == self@.contains(n),
    {
        n >= 1 && n <= 9 && self.contents[(n - 1) as usize]
    }

    /// Returns the number of distinct numbers contained in this set.
    pub fn size(&self) -> (r: usize)
        ensures
            r == self@.len(),
    {
        let mut count: usize = 0;
        let mut i: usize = 0;
        assert(flagged_upto(self.contents@, 0) =~= Set::<u8>::empty());
        while i < 9
            invariant
                i <= 9,
                count <= i,
                flagged_upto(self.contents@, i as int).finite(),
                count == flagged_upto(self.contents@, i as int).len(),
            decreases 9 - i,
        {
            proof {
                lemma_flagged_step(self.contents@, i as int);
            }
            if self.contents[i] {
                count = count + 1;
            }
            i = i + 1;
        }
        count
    }

    /// Returns the members of this set in ascending order.
    pub fn to_vec(&self) -> (r: Vec<u8>)
        ensures
            forall|i: int, j: int| 0 <= i < j < r.len() ==> r@[i] < r@[j],
            forall|i: int| 0 <= i < r.len() ==> self@.contains(#[trigger] r@[i]),
            forall|v: u8| self@.contains(v) ==> r@.contains(v),
    {
        let mut r: Vec<u8> = Vec::new();
        let mut n: u8 = 1;
        while n <= 9
            invariant
                1 <= n <= 10,
                forall|i: int, j: int| 0 <= i < j < r.len() ==> r@[i] < r@[j],
                forall|i: int| 0 <= i < r.len() ==> r@[i] < n && self@.contains(#[trigger] r@[i]),
                forall|v: u8| v < n && self@.contains(v) ==> r@.contains(v),
            decreases 10 - n,
        {
            if self.contains(n) {
                let ghost before = r@;
                r.push(n);
                assert forall|v: u8| v < n + 1 && self@.contains(v) implies r@.contains(v) by {
                    if v < n {
                        let k = choose|k: int| 0 <= k < before.len() && before[k] == v;
                        assert(r@[k] == v);
                    } else {
                        assert(r@[r.len() - 1] == v);
                    }
                }
            }
            n = n + 1;
        }
        proof {
            self.lemma_bounded();
        }
        r
    }

    /// Returns the set of all numbers in [1, 9] that are not members of this set.
    pub fn complement(&self) -> (r: Self)
        ensures
            r@ == all_digits().difference(self@),
    {
        let mut contents = [true; 9];
        let mut i: usize = 0;
        while i < 9
            invariant
                i <= 9,
                forall|j: int| 0 <= j < i ==> contents[j] == !self.contents[j],
            decreases 9 - i,
        {
            contents[i] = !self.contents[i];
            i = i + 1;
        }
        let r = NineSet { contents };
        assert(r@ =~= all_digits().difference(self@));
        r
    }

    /// Builds the set of the given numbers, each of which must be in [1, 9].
    pub fn from_vec(nums: &Vec<u8>) -> (r: Self)
        requires
            forall|i: int| 0 <= i < nums.len() ==> 1 <= #[trigger] nums@[i] <= 9,
        ensures
            r@ == nums@.to_set(),
    {
        let mut set = NineSet::empty();
        let mut i: usize = 0;
        while i < nums.len()
            invariant
                i <= nums.len(),
                forall|k: int| 0 <= k < nums.len() ==> 1 <= #[trigger] nums@[k] <= 9,
                set@ == nums@.subrange(0, i as int).to_set(),
            decreases nums.len() - i,
        {
            set.add(nums[i]);
            assert(nums@.subrange(0, i + 1) =~= nums@.subrange(0, i as int) + seq![nums@[i as int]]);
            proof {
                Seq::lemma_to_set_insert_commutes(nums@.subrange(0, i as int), nums@[i as int]);
            }
            i = i + 1;
        }
        assert(nums@.subrange(0, nums.len() as int) =~= nums@);
        set
    }
}

impl PartialEq for NineSet {
    fn eq(&self, other: &NineSet) -> (r: bool) {
        let mut i: usize = 0;
        while i < 9
            invariant
                i <= 9,
                forall|j: int| 0 <= j < i ==> self.contents[j] == other.contents[j],
            decreases 9 - i,
        {
            if self.contents[i] != other.contents[i] {
                assert(!self@.contains((i + 1) as u8) || !other@.contains((i + 1) as u8));
                return false;
            }
            i = i + 1;
        }
        assert(self@ =~= other@);
        true
    }
}

impl vstd::std_specs::cmp::PartialEqSpecImpl for NineSet {
    open spec fn obeys_eq_spec() -> bool {
        true
    }

    open spec fn eq_spec(&self, other: &NineSet) -> bool {
        self@ == other@
    }
}

/// The numbers held by at least one of the given sets.
pub open spec fn union_of(sets: Seq<NineSet>) -> Set<u8> {
    Set::new(|v: u8| exists|i: int| 0 <= i < sets.len() && (#[trigger] sets[i])@.contains(v))
}

/// Creates and returns a set containing all the numbers contained
/// by at least one of the sets in the provided list of sets.
pub fn union(sets: Vec<NineSet>) -> (r: NineSet)
    ensures
        r@ == union_of(sets@),
{
    let mut r = NineSet::empty();
    let mut n: u8 = 1;
    while n <= 9
        invariant
            1 <= n <= 10,
            forall|v: u8| #[trigger] r@.contains(v) <==> (1 <= v < n && union_of(sets@).contains(v)),
        decreases 10 - n,
    {
        let mut found = false;
        let mut i: usize = 0;
        while i < sets.len()
            invariant
                i <= sets.len(),
                found <==> exists|k: int| 0 <= k < i && (#[trigger] sets@[k])@.contains(n),
            decreases sets.len() - i,
        {
            if sets[i].contains(n) {
                found = true;
            }
            i = i + 1;
        }
        if found {
            r.add(n);
        }
        n = n + 1;
    }
    assert forall|v: u8| union_of(sets@).contains(v) implies 1 <= v <= 9 by {
        let k = choose|k: int| 0 <= k < sets.len() && (#[trigger] sets@[k])@.contains(v);
        sets@[k].lemma_bounded();
    }
    assert(r@ =~= union_of(sets@));
    r
}

/// A set is the complement of its complement.
pub proof fn lemma_complement_involutive(s: NineSet)
    ensures
        all_digits().difference(all_digits().difference(s@)) == s@,
{
    s.lemma_bounded();
    assert(all_digits().difference(all_digits().difference(s@)) =~= s@);
}

/// The union of no sets is empty.
pub proof fn lemma_union_empty()
    ensures
        union_of(Seq::<NineSet>::empty()) == Set::<u8>::empty(),
{
    assert(union_of(Seq::<NineSet>::empty()) =~= Set::<u8>::empty());
}

/// The union of a single set is that set.
pub proof fn lemma_union_single(s: NineSet)
    ensures
        union_of(seq![s]) == s@,
{
    assert(seq![s][0] == s);
    assert(union_of(seq![s]) =~= s@);
}

/// Union does not depend on the order of its arguments: joining two lists in
/// either order gives the same set.
pub proof fn lemma_union_commutative(a: Seq<NineSet>, b: Seq<NineSet>)
    ensures
        union_of(a + b) == union_of(b + a),
{
    assert forall|v: u8| union_of(a + b).contains(v) implies union_of(b + a).contains(v) by {
        let k = choose|k: int| 0 <= k < (a + b).len() && (#[trigger] (a + b)[k])@.contains(v);
        if k < a.len() {
            assert((b + a)[b.len() + k] == a[k]);
        } else {
            assert((b + a)[k - a.len()] == b[k - a.len()]);
        }
    }
    assert forall|v: u8| union_of(b + a).contains(v) implies union_of(a + b).contains(v) by {
        let k = choose|k: int| 0 <= k < (b + a).len() && (#[trigger] (b + a)[k])@.contains(v);
        if k < b.len() {
            assert((a + b)[a.len() + k] == b[k]);
        } else {
            assert((a + b)[k - b.len()] == a[k - b.len()]);
        }
    }
    assert(union_of(a + b) =~= union_of(b + a));
}

/// Repeating the same sets does not change their union.
pub proof fn lemma_union_idempotent(a: Seq<NineSet>)
    ensures
        union_of(a + a) == union_of(a),
{
    assert forall|v: u8| union_of(a + a).contains(v) implies union_of(a).contains(v) by {
        let k = choose|k: int| 0 <= k < (a + a).len() && (#[trigger] (a + a)[k])@.contains(v);
        if k < a.len() {
            assert((a + a)[k] == a[k]);
        } else {
            assert((a + a)[k] == a[k - a.len()]);
        }
    }
    assert forall|v: u8| union_of(a).contains(v) implies union_of(a + a).contains(v) by {
        let k = choose|k: int| 0 <= k < a.len() && (#[trigger] a[k])@.contains(v);
        assert((a + a)[k] == a[k]);
    }
    assert(union_of(a + a) =~= union_of(a));
}

} // verus!
