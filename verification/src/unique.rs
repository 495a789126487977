//! What ordering by key and making unique guarantees.

use crate::aci::{insert_unique, rank_from, sorted_unique};
use crate::model::{key, Regex};
use crate::order::{lemma_text_lt_total, lemma_text_lt_transitive, text_lt};
use vstd::prelude::*;

verus! {

/// The keys of `s` rise strictly from each expression to the next.
pub open spec fn strictly_sorted(s: Seq<Regex>) -> bool {
    forall|i: int, j: int| 0 <= i < j < s.len() ==> text_lt(key(#[trigger] s[i]), key(#[trigger] s[j]))
}

/// `x` is one of the expressions of `s`.
pub open spec fn is_among(x: Regex, s: Seq<Regex>) -> bool {
    exists|i: int| 0 <= i < s.len() && #[trigger] s[i] == x
}

/// An expression of `s` has the key of `x`.
pub open spec fn key_is_among(x: Regex, s: Seq<Regex>) -> bool {
    exists|i: int| 0 <= i < s.len() && key(#[trigger] s[i]) == key(x)
}

/// The rank of `k` in `s` lies behind exactly the expressions whose keys
/// come before `k`, as far as the scan from `j` goes.
pub proof fn lemma_rank_from(s: Seq<Regex>, k: Seq<char>, j: int)
    requires
        0 <= j <= s.len(),
    ensures
        j <= rank_from(s, k, j) <= s.len(),
        forall|i: int| j <= i < rank_from(s, k, j) ==> text_lt(key(#[trigger] s[i]), k),
        rank_from(s, k, j) < s.len() ==> !text_lt(key(s[rank_from(s, k, j)]), k),
    decreases s.len() - j,
{
    if j < s.len() && text_lt(key(s[j]), k) {
        lemma_rank_from(s, k, j + 1);
    }
}

/// Putting an expression into a strictly sorted list keeps the list
/// strictly sorted, keeps what was there, and adds nothing but that
/// expression, whose key is there afterwards.
pub proof fn lemma_insert_unique(s: Seq<Regex>, x: Regex)
    requires
        strictly_sorted(s),
    ensures
        strictly_sorted(insert_unique(s, x)),
        key_is_among(x, insert_unique(s, x)),
        forall|i: int| 0 <= i < s.len() ==> is_among(#[trigger] s[i], insert_unique(s, x)),
        forall|i: int|
            0 <= i < insert_unique(s, x).len() ==> insert_unique(s, x)[i] == x || is_among(
                #[trigger] insert_unique(s, x)[i],
                s,
            ),
        s.len() <= insert_unique(s, x).len() <= s.len() + 1,
{
    let k = key(x);
    let j = rank_from(s, k, 0);
    let r = insert_unique(s, x);
    lemma_rank_from(s, k, 0);
    if j < s.len() && key(s[j]) == k {
        assert(r == s);
        assert(key(r[j]) == key(x));
        assert forall|i: int| 0 <= i < s.len() implies is_among(#[trigger] s[i], r) by {
            assert(r[i] == s[i]);
        }
        assert forall|i: int| 0 <= i < r.len() implies r[i] == x || is_among(
            #[trigger] r[i],
            s,
        ) by {
            assert(s[i] == r[i]);
        }
    } else {
        assert(r == s.insert(j, x));
        assert(r.len() == s.len() + 1);
        assert(r[j] == x);
        assert forall|i: int| 0 <= i < r.len() && i != j implies r[i] == s[if i < j {
            i
        } else {
            i - 1
        }] by {}
        assert(key(r[j]) == key(x));
        assert forall|i: int| 0 <= i < s.len() implies is_among(#[trigger] s[i], r) by {
            if i < j {
                assert(r[i] == s[i]);
            } else {
                assert(r[i + 1] == s[i]);
            }
        }
        assert forall|i: int| 0 <= i < r.len() implies r[i] == x || is_among(
            #[trigger] r[i],
            s,
        ) by {
            if i < j {
                assert(s[i] == r[i]);
            } else if i > j {
                assert(s[i - 1] == r[i]);
            }
        }
        assert forall|a: int, b: int| 0 <= a < b < r.len() implies text_lt(
            key(#[trigger] r[a]),
            key(#[trigger] r[b]),
        ) by {
            if b < j {
                assert(r[a] == s[a] && r[b] == s[b]);
            } else if b == j {
                assert(r[a] == s[a]);
            } else if a == j {
                // behind the rank no key comes before k, and none is k
                assert(r[b] == s[b - 1]);
                lemma_text_lt_total(k, key(s[b - 1]));
                if b - 1 > j {
                    lemma_text_lt_total(k, key(s[j]));
                    if text_lt(key(s[b - 1]), k) {
                        lemma_text_lt_transitive(key(s[j]), key(s[b - 1]), k);
                    }
                    if key(s[b - 1]) == k {
                        assert(text_lt(key(s[j]), key(s[b - 1])));
                    }
                }
            } else if a < j {
                assert(r[a] == s[a] && r[b] == s[b - 1]);
            } else {
                assert(r[a] == s[a - 1] && r[b] == s[b - 1]);
            }
        }
    }
}

/// The ordered, unique list is strictly sorted; each of its expressions is
/// one of the given ones, and the key of each given one is in it.
pub proof fn lemma_sorted_unique(bs: Seq<Regex>)
    ensures
        strictly_sorted(sorted_unique(bs)),
        forall|i: int| 0 <= i < bs.len() ==> key_is_among(#[trigger] bs[i], sorted_unique(bs)),
        forall|j: int|
            0 <= j < sorted_unique(bs).len() ==> is_among(#[trigger] sorted_unique(bs)[j], bs),
        sorted_unique(bs).len() <= bs.len(),
        bs.len() > 0 ==> sorted_unique(bs).len() > 0,
    decreases bs.len(),
{
    if bs.len() > 0 {
        let front = bs.drop_last();
        let s = sorted_unique(front);
        let x = bs.last();
        let r = sorted_unique(bs);
        lemma_sorted_unique(front);
        lemma_insert_unique(s, x);
        assert(r == insert_unique(s, x));
        assert forall|i: int| 0 <= i < bs.len() implies key_is_among(#[trigger] bs[i], r) by {
            if i < front.len() {
                assert(front[i] == bs[i]);
                assert(key_is_among(front[i], s));
                let m = choose|m: int| 0 <= m < s.len() && key(#[trigger] s[m]) == key(front[i]);
                assert(is_among(s[m], r));
                let n = choose|n: int| 0 <= n < r.len() && #[trigger] r[n] == s[m];
                assert(key(r[n]) == key(bs[i]));
            }
        }
        assert forall|j: int| 0 <= j < r.len() implies is_among(#[trigger] r[j], bs) by {
            if r[j] == x {
                assert(bs[bs.len() - 1] == x);
            } else {
                assert(is_among(r[j], s));
                let m = choose|m: int| 0 <= m < s.len() && #[trigger] s[m] == r[j];
                assert(is_among(s[m], front));
                let n = choose|n: int| 0 <= n < front.len() && #[trigger] front[n] == s[m];
                assert(bs[n] == r[j]);
            }
        }
    }
}

/// A strictly sorted list is its own ordered, unique list.
pub proof fn lemma_sorted_unique_fixed(s: Seq<Regex>)
    requires
        strictly_sorted(s),
    ensures
        sorted_unique(s) == s,
    decreases s.len(),
{
    if s.len() > 0 {
        let front = s.drop_last();
        let x = s.last();
        assert forall|i: int, j: int| 0 <= i < j < front.len() implies text_lt(
            key(#[trigger] front[i]),
            key(#[trigger] front[j]),
        ) by {
            assert(front[i] == s[i] && front[j] == s[j]);
        }
        lemma_sorted_unique_fixed(front);
        lemma_rank_from(front, key(x), 0);
        let j = rank_from(front, key(x), 0);
        if j < front.len() {
            assert(front[j] == s[j]);
            assert(text_lt(key(s[j]), key(s[s.len() - 1])));
        }
        assert(front.insert(front.len() as int, x) =~= s);
    } else {
        assert(sorted_unique(s) =~= s);
    }
}

} // verus!
