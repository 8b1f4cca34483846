//! Deterministic name disambiguation: probing `name`, `name (2)`,
//! `name (3)`, ... until a free slot is found, and the `UniqueNameFinder`
//! that applies the scheme to a growing collection of names.

use vstd::prelude::*;

use crate::strings::{eq_str, lemma_dec_str_val, sp_dec_str, u128_to_string};

verus! {

/// `name` with the number `i` affixed: `name<pre><i><suf>`.
pub open spec fn sp_affixed(name: Seq<char>, pre: Seq<char>, suf: Seq<char>, i: int) -> Seq<
    char,
> {
    name + pre + sp_dec_str(i) + suf
}

/// Distinct numbers give distinct affixed names.
pub proof fn lemma_affixed_injective(
    name: Seq<char>,
    pre: Seq<char>,
    suf: Seq<char>,
    i: int,
    j: int,
)
    requires
        i >= 0,
        j >= 0,
        i != j,
    ensures
        sp_affixed(name, pre, suf, i) != sp_affixed(name, pre, suf, j),
{
    let a = sp_affixed(name, pre, suf, i);
    let b = sp_affixed(name, pre, suf, j);
    lemma_dec_str_val(i);
    lemma_dec_str_val(j);
    if a == b {
        let di = sp_dec_str(i);
        let dj = sp_dec_str(j);
        assert(a.len() == name.len() + pre.len() + di.len() + suf.len());
        assert(b.len() == name.len() + pre.len() + dj.len() + suf.len());
        assert(di.len() == dj.len());
        let lo = name.len() + pre.len();
        assert(a.subrange(lo as int, lo + di.len() as int) =~= di);
        assert(b.subrange(lo as int, lo + dj.len() as int) =~= dj);
        assert(di == dj);
        crate::strings::lemma_dec_str_injective(i, j);
    }
}

/// The affixed names already probed: numbers `2` up to (excluding) `i`.
pub open spec fn sp_probed(name: Seq<char>, pre: Seq<char>, suf: Seq<char>, i: int) -> Set<
    Seq<char>,
> {
    Set::new(|c: Seq<char>| exists|j: int| 2 <= j < i && c == sp_affixed(name, pre, suf, j))
}

/// The probed set is finite and counts the probes.
pub proof fn lemma_probed_card(name: Seq<char>, pre: Seq<char>, suf: Seq<char>, i: int)
    requires
        i >= 2,
    ensures
        sp_probed(name, pre, suf, i).finite(),
        sp_probed(name, pre, suf, i).len() == i - 2,
    decreases i,
{
    if i == 2 {
        assert(sp_probed(name, pre, suf, 2) =~= Set::<Seq<char>>::empty());
    } else {
        lemma_probed_card(name, pre, suf, i - 1);
        let prev = sp_probed(name, pre, suf, i - 1);
        let cur = sp_probed(name, pre, suf, i);
        assert(cur =~= prev.insert(sp_affixed(name, pre, suf, i - 1)));
        assert(!prev.contains(sp_affixed(name, pre, suf, i - 1))) by {
            if prev.contains(sp_affixed(name, pre, suf, i - 1)) {
                let j = choose|j: int|
                    2 <= j < i - 1 && sp_affixed(name, pre, suf, i - 1) == #[trigger] sp_affixed(
                        name,
                        pre,
                        suf,
                        j,
                    );
                lemma_affixed_injective(name, pre, suf, i - 1, j);
            }
        }
    }
}

/// If every affixed name up to `i` is taken from the list, the probes
/// cannot outnumber the list.
pub proof fn lemma_probe_bound(
    name: Seq<char>,
    pre: Seq<char>,
    suf: Seq<char>,
    i: int,
    taken: Seq<Seq<char>>,
)
    requires
        i >= 2,
        forall|j: int| 2 <= j < i ==> taken.contains(sp_affixed(name, pre, suf, j)),
    ensures
        i - 2 <= taken.len(),
{
    lemma_probed_card(name, pre, suf, i);
    taken.lemma_cardinality_of_set();
    let probed = sp_probed(name, pre, suf, i);
    assert(probed.subset_of(taken.to_set())) by {
        assert forall|c: Seq<char>| probed.contains(c) implies taken.to_set().contains(c) by {
            let j = choose|j: int| 2 <= j < i && c == #[trigger] sp_affixed(name, pre, suf, j);
            assert(taken.contains(c));
        }
    }
    vstd::set_lib::lemma_len_subset(probed, taken.to_set());
}

/// Whether the list holds the name.
pub fn contains_name(names: &Vec<String>, s: &str) -> (r: bool)
    ensures
        r == names.deep_view().contains(s@),
{
    let ghost dv = names.deep_view();
    let n = names.len();
    let mut i: usize = 0;
    while i < n
        invariant
            0 <= i <= n,
            n == names.len(),
            dv == names.deep_view(),
            forall|j: int| 0 <= j < i ==> dv[j] != s@,
        decreases n - i,
    {
        proof {
            assert(dv[i as int] == names[i as int]@);
        }
        if eq_str(names[i].as_str(), s) {
            assert(dv.contains(s@));
            return true;
        }
        i = i + 1;
    }
    proof {
        if dv.contains(s@) {
            let j = choose|j: int| 0 <= j < dv.len() && dv[j] == s@;
        }
    }
    false
}

/// Affixes a number to a name.
pub fn affix_name(name: &str, pre: &str, suf: &str, i: u128) -> (r: String)
    ensures
        r@ == sp_affixed(name@, pre@, suf@, i as int),
{
    let mut s = String::from_str(name);
    s.append(pre);
    let d = u128_to_string(i);
    s.append(d.as_str());
    s.append(suf);
    proof {
        assert(s@ =~= sp_affixed(name@, pre@, suf@, i as int));
    }
    s
}

/// Keeps the names given out so far, and disambiguates a repeated name
/// by affixing the smallest free number, starting at 2.
pub struct UniqueNameFinder {
    pub names: Vec<String>,
    pub number_prefix: String,
    pub number_suffix: String,
}

impl UniqueNameFinder {
    /// A finder with no names taken, affixing numbers between the given
    /// prefix and suffix.
    pub fn new(number_prefix: &str, number_suffix: &str) -> (r: Self)
        ensures
            r.names.deep_view() == Seq::<Seq<char>>::empty(),
            r.number_prefix@ == number_prefix@,
            r.number_suffix@ == number_suffix@,
    {
        let r = UniqueNameFinder {
            names: Vec::new(),
            number_prefix: String::from_str(number_prefix),
            number_suffix: String::from_str(number_suffix),
        };
        proof {
            assert(r.names.deep_view() =~= Seq::<Seq<char>>::empty());
        }
        r
    }

    /// Returns `name` if it was never given out, else `name` with the
    /// smallest free number affixed; either way the result is recorded
    /// as taken.
    pub fn find(&mut self, name: String) -> (r: String)
        ensures
            final(self).number_prefix == old(self).number_prefix,
            final(self).number_suffix == old(self).number_suffix,
            final(self).names.deep_view() == old(self).names.deep_view().push(r@),
            !old(self).names.deep_view().contains(r@),
            ({
                let taken = old(self).names.deep_view();
                let pre = old(self).number_prefix@;
                let suf = old(self).number_suffix@;
                if !taken.contains(name@) {
                    r@ == name@
                } else {
                    exists|k: int|
                        2 <= k && r@ == sp_affixed(name@, pre, suf, k) && !taken.contains(
                            sp_affixed(name@, pre, suf, k),
                        ) && forall|j: int|
                            2 <= j < k ==> taken.contains(
                                #[trigger] sp_affixed(name@, pre, suf, j),
                            )
                }
            }),
    {
        let ghost taken = self.names.deep_view();
        let ghost pre = self.number_prefix@;
        let ghost suf = self.number_suffix@;
        if !contains_name(&self.names, name.as_str()) {
            let ghost prev = self.names.deep_view();
            let r = name.clone();
            self.names.push(name);
            proof {
                assert(self.names.deep_view() =~= prev.push(r@));
            }
            return r;
        }
        let count = self.names.len();
        let mut i: u128 = 2;
        loop
            invariant
                2 <= i,
                i - 2 <= taken.len(),
                count == taken.len(),
                self.names == old(self).names,
                self.number_prefix == old(self).number_prefix,
                self.number_suffix == old(self).number_suffix,
                taken == self.names.deep_view(),
                taken.contains(name@),
                pre == self.number_prefix@,
                suf == self.number_suffix@,
                forall|j: int|
                    2 <= j < i ==> taken.contains(#[trigger] sp_affixed(name@, pre, suf, j)),
            decreases taken.len() + 2 - i,
        {
            let candidate = affix_name(
                name.as_str(),
                self.number_prefix.as_str(),
                self.number_suffix.as_str(),
                i,
            );
            if !contains_name(&self.names, candidate.as_str()) {
                let ghost prev = self.names.deep_view();
                let r = candidate.clone();
                self.names.push(candidate);
                proof {
                    assert(self.names.deep_view() =~= prev.push(r@));
                }
                return r;
            }
            proof {
                lemma_probe_bound(name@, pre, suf, i + 1, taken);
            }
            i = i + 1;
        }
    }
}

} // verus!
