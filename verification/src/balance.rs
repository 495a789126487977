//! The parentheses in the text of a tidy tree are balanced, so the text of a
//! concatenation falls apart into the texts of its factors in one way only.

use crate::model::{body_key, concat_keys, joined_keys, key, Regex};
use crate::tidy::{tidy, tidy_branches, tidy_factors};
use vstd::prelude::*;

verus! {

/// What `c` adds to the depth of nesting.
pub open spec fn step(c: char) -> int {
    if c == '(' {
        1
    } else if c == ')' {
        -1
    } else {
        0
    }
}

/// The opening parentheses of `s` less its closing ones.
pub open spec fn net(s: Seq<char>) -> int
    decreases s.len(),
{
    if s.len() == 0 {
        0
    } else {
        net(s.drop_last()) + step(s.last())
    }
}

/// The parentheses of `s` are balanced: none closes what was not opened,
/// and none stays open.
pub open spec fn safe(s: Seq<char>) -> bool {
    &&& net(s) == 0
    &&& forall|n: int| 0 <= n <= s.len() ==> net(#[trigger] s.take(n)) >= 0
}

pub proof fn lemma_net_add(a: Seq<char>, b: Seq<char>)
    ensures
        net(a + b) == net(a) + net(b),
    decreases b.len(),
{
    if b.len() == 0 {
        assert(a + b =~= a);
    } else {
        assert((a + b).drop_last() =~= a + b.drop_last());
        lemma_net_add(a, b.drop_last());
    }
}

pub proof fn lemma_net_single(c: char)
    ensures
        net(seq![c]) == step(c),
{
    assert(seq![c].drop_last() =~= Seq::<char>::empty());
    assert(net(Seq::<char>::empty()) == 0);
    assert(seq![c].last() == c);
}

pub proof fn lemma_safe_empty()
    ensures
        safe(Seq::<char>::empty()),
{
    assert forall|n: int| 0 <= n <= 0 implies net(#[trigger] Seq::<char>::empty().take(n)) >= 0 by {
        assert(Seq::<char>::empty().take(n) =~= Seq::<char>::empty());
    }
}

pub proof fn lemma_safe_add(a: Seq<char>, b: Seq<char>)
    requires
        safe(a),
        safe(b),
    ensures
        safe(a + b),
{
    lemma_net_add(a, b);
    assert forall|n: int| 0 <= n <= (a + b).len() implies net(#[trigger] (a + b).take(n)) >= 0 by {
        if n <= a.len() {
            assert((a + b).take(n) =~= a.take(n));
        } else {
            assert((a + b).take(n) =~= a + b.take(n - a.len()));
            lemma_net_add(a, b.take(n - a.len()));
        }
    }
}

pub proof fn lemma_safe_single(c: char)
    requires
        c != '(',
        c != ')',
    ensures
        safe(seq![c]),
{
    lemma_net_single(c);
    assert forall|n: int| 0 <= n <= 1 implies net(#[trigger] seq![c].take(n)) >= 0 by {
        if n == 0 {
            assert(seq![c].take(n) =~= Seq::<char>::empty());
        } else {
            assert(seq![c].take(n) =~= seq![c]);
        }
    }
}

/// A balanced text in parentheses is balanced, and so is one with a star
/// behind the parentheses.
pub proof fn lemma_safe_group(x: Seq<char>)
    requires
        safe(x),
    ensures
        safe(seq!['('] + x + seq![')']),
        safe(seq!['('] + x + seq![')', '*']),
{
    let open = seq!['('];
    let g = open + x + seq![')'];
    lemma_net_single('(');
    lemma_net_single(')');
    lemma_net_add(open, x);
    lemma_net_add(open + x, seq![')']);
    assert forall|n: int| 0 <= n <= g.len() implies net(#[trigger] g.take(n)) >= 0 by {
        if n == 0 {
            assert(g.take(n) =~= Seq::<char>::empty());
        } else if n <= 1 + x.len() {
            assert(g.take(n) =~= open + x.take(n - 1));
            lemma_net_add(open, x.take(n - 1));
        } else {
            assert(g.take(n) =~= g);
        }
    }
    lemma_safe_single('*');
    lemma_safe_add(g, seq!['*']);
    assert(g + seq!['*'] =~= open + x + seq![')', '*']);
}

/// The text of a tidy tree is balanced.
pub proof fn lemma_key_safe(r: Regex)
    requires
        tidy(r),
    ensures
        safe(key(r)),
        safe(body_key(r)),
    decreases r, 1int,
{
    match r {
        Regex::Alt(bs) => {
            lemma_joined_keys_safe(bs);
            lemma_safe_group(joined_keys(bs));
        },
        Regex::Concat(fs) => {
            lemma_concat_keys_safe(fs);
        },
        Regex::Star(b) => {
            lemma_key_safe(*b);
            lemma_safe_group(body_key(*b));
        },
        Regex::Char(c) => {
            lemma_safe_single(c);
        },
    }
}

/// The text of tidy factors, one after the other, is balanced.
pub proof fn lemma_concat_keys_safe(fs: Seq<Regex>)
    requires
        tidy_factors(fs),
    ensures
        safe(concat_keys(fs)),
    decreases fs, 0int,
{
    if fs.len() == 0 {
        lemma_safe_empty();
    } else {
        let front = fs.drop_last();
        assert forall|i: int| 0 <= i < front.len() implies {
            let f = #[trigger] front[i];
            !(f is Concat) && crate::tidy::solid(f) && tidy(f)
        } by {
            assert(front[i] == fs[i]);
        }
        lemma_concat_keys_safe(front);
        lemma_key_safe(fs.last());
        lemma_safe_add(concat_keys(front), key(fs.last()));
    }
}

/// The text of tidy branches, separated by `|`, is balanced.
pub proof fn lemma_joined_keys_safe(bs: Seq<Regex>)
    requires
        tidy_branches(bs),
    ensures
        safe(joined_keys(bs)),
    decreases bs, 0int,
{
    if bs.len() == 0 {
        lemma_safe_empty();
    } else if bs.len() == 1 {
        lemma_key_safe(bs[0]);
    } else {
        let front = bs.drop_last();
        assert forall|i: int| 0 <= i < front.len() implies {
            let b = #[trigger] front[i];
            (b is Concat || b is Star) && tidy(b)
        } by {
            assert(front[i] == bs[i]);
        }
        lemma_joined_keys_safe(front);
        lemma_key_safe(bs.last());
        lemma_safe_single('|');
        lemma_safe_add(joined_keys(front), seq!['|']);
        lemma_safe_add(joined_keys(front) + seq!['|'], key(bs.last()));
    }
}

/// The text of a tidy factor is not empty and does not start with `*`; it
/// starts with `(` unless the factor is a literal.
pub proof fn lemma_key_start(f: Regex)
    requires
        tidy(f),
        !(f is Concat),
    ensures
        key(f).len() > 0,
        key(f)[0] != '*',
        f is Char ==> key(f).len() == 1 && key(f)[0] != '(',
        !(f is Char) ==> key(f).len() >= 2 && key(f)[0] == '(',
{
}

/// The text of a group: its inside in parentheses, and `*` behind them if
/// it is a star.
proof fn lemma_group_key(f: Regex) -> (x: Seq<char>)
    requires
        tidy(f),
        f is Alt || f is Star,
    ensures
        safe(x),
        key(f).len() == x.len() + if f is Star {
            3int
        } else {
            2int
        },
        key(f)[0] == '(',
        forall|i: int| 0 <= i < x.len() ==> key(f)[1 + i] == #[trigger] x[i],
        key(f)[1 + x.len() as int] == ')',
        f is Star ==> key(f)[2 + x.len() as int] == '*',
{
    match f {
        Regex::Star(b) => {
            lemma_key_safe(*b);
            body_key(*b)
        },
        _ => {
            lemma_key_safe(f);
            body_key(f)
        },
    }
}

/// A balanced text does not go on, behind a balanced start of it, with a
/// closing parenthesis.
proof fn lemma_no_early_close(x: Seq<char>, y: Seq<char>)
    requires
        safe(x),
        safe(y),
        x.len() < y.len(),
        forall|i: int| 0 <= i < x.len() ==> #[trigger] y[i] == x[i],
    ensures
        y[x.len() as int] != ')',
{
    let n = x.len() as int;
    assert(y.take(n) =~= x);
    assert(y.take(n + 1).drop_last() =~= y.take(n));
    assert(y.take(n + 1).last() == y[n]);
    assert(net(y.take(n + 1)) >= 0);
}

/// Two tidy factors whose texts start the same text have the same text,
/// given that what follows either does not start with `*`.
pub proof fn lemma_same_first_key(f: Regex, g: Regex, r1: Seq<char>, r2: Seq<char>)
    requires
        tidy(f),
        !(f is Concat),
        tidy(g),
        !(g is Concat),
        key(f) + r1 == key(g) + r2,
        r1.len() > 0 ==> r1[0] != '*',
        r2.len() > 0 ==> r2[0] != '*',
    ensures
        key(f) == key(g),
        r1 == r2,
{
    let k = key(f) + r1;
    lemma_key_start(f);
    lemma_key_start(g);
    assert(k[0] == key(f)[0]);
    assert((key(g) + r2)[0] == key(g)[0]);
    if f is Char || g is Char {
        assert(f is Char && g is Char);
        assert(key(f) =~= key(g));
    } else {
        let x = lemma_group_key(f);
        let y = lemma_group_key(g);
        assert forall|i: int| 0 <= i < x.len() && i < y.len() implies x[i] == y[i] by {
            assert(k[1 + i] == key(f)[1 + i]);
            assert((key(g) + r2)[1 + i] == key(g)[1 + i]);
        }
        let n = x.len() as int;
        let m = y.len() as int;
        if n < m {
            lemma_no_early_close(x, y);
            assert(k[1 + n] == key(f)[1 + n]);
            assert((key(g) + r2)[1 + n] == key(g)[1 + n]);
            assert(y[n] == key(g)[1 + n]);
            assert(false);
        }
        if m < n {
            lemma_no_early_close(y, x);
            assert(k[1 + m] == key(f)[1 + m]);
            assert((key(g) + r2)[1 + m] == key(g)[1 + m]);
            assert(x[m] == key(f)[1 + m]);
            assert(false);
        }
        if (f is Star) != (g is Star) {
            if f is Star {
                assert(k[2 + n] == key(f)[2 + n]);
                assert((key(g) + r2)[2 + n] == r2[0]);
            } else {
                assert(k[2 + n] == r1[0]);
                assert((key(g) + r2)[2 + n] == key(g)[2 + n]);
            }
            assert(false);
        }
        assert(key(f).len() == key(g).len());
        assert forall|i: int| 0 <= i < key(f).len() implies key(f)[i] == key(g)[i] by {
            assert(k[i] == key(f)[i]);
            assert((key(g) + r2)[i] == key(g)[i]);
        }
        assert(key(f) =~= key(g));
    }
    assert(r1 =~= k.subrange(key(f).len() as int, k.len() as int));
    assert(r2 =~= (key(g) + r2).subrange(key(g).len() as int, k.len() as int));
}

/// The text of factors is the text of the first and then that of the rest.
pub proof fn lemma_concat_keys_front(fs: Seq<Regex>)
    requires
        fs.len() > 0,
    ensures
        concat_keys(fs) == key(fs[0]) + concat_keys(fs.drop_first()),
    decreases fs.len(),
{
    if fs.len() == 1 {
        assert(fs.drop_last() =~= Seq::<Regex>::empty());
        assert(fs.drop_first() =~= Seq::<Regex>::empty());
        assert(concat_keys(fs) =~= key(fs[0]) + concat_keys(fs.drop_first()));
    } else {
        let front = fs.drop_last();
        lemma_concat_keys_front(front);
        assert(front.drop_first() =~= fs.drop_first().drop_last());
        assert(front[0] == fs[0]);
        assert(fs.drop_first().last() == fs.last());
        assert(concat_keys(fs) =~= key(fs[0]) + concat_keys(fs.drop_first()));
    }
}

/// The text of tidy factors is empty only if there is no factor, and never
/// starts with `*`.
pub proof fn lemma_concat_keys_start(fs: Seq<Regex>)
    requires
        tidy_factors(fs),
    ensures
        fs.len() > 0 ==> concat_keys(fs).len() > 0 && concat_keys(fs)[0] != '*',
        fs.len() == 0 ==> concat_keys(fs).len() == 0,
{
    if fs.len() > 0 {
        lemma_concat_keys_front(fs);
        lemma_key_start(fs[0]);
        assert(concat_keys(fs)[0] == key(fs[0])[0]);
    }
}

/// Tidy factors with the same text are as many, and have the same texts one
/// by one.
pub proof fn lemma_unique_factors(fs: Seq<Regex>, gs: Seq<Regex>)
    requires
        tidy_factors(fs),
        tidy_factors(gs),
        concat_keys(fs) == concat_keys(gs),
    ensures
        fs.len() == gs.len(),
        forall|j: int| 0 <= j < fs.len() ==> key(#[trigger] fs[j]) == key(gs[j]),
    decreases fs.len(),
{
    lemma_concat_keys_start(fs);
    lemma_concat_keys_start(gs);
    if fs.len() > 0 {
        let fr = fs.drop_first();
        let gr = gs.drop_first();
        lemma_concat_keys_front(fs);
        lemma_concat_keys_front(gs);
        assert forall|i: int| 0 <= i < fr.len() implies {
            let f = #[trigger] fr[i];
            !(f is Concat) && crate::tidy::solid(f) && tidy(f)
        } by {
            assert(fr[i] == fs[i + 1]);
        }
        assert forall|i: int| 0 <= i < gr.len() implies {
            let f = #[trigger] gr[i];
            !(f is Concat) && crate::tidy::solid(f) && tidy(f)
        } by {
            assert(gr[i] == gs[i + 1]);
        }
        lemma_concat_keys_start(fr);
        lemma_concat_keys_start(gr);
        lemma_same_first_key(fs[0], gs[0], concat_keys(fr), concat_keys(gr));
        lemma_unique_factors(fr, gr);
        assert forall|j: int| 0 <= j < fs.len() implies key(#[trigger] fs[j]) == key(gs[j]) by {
            if j > 0 {
                assert(fs[j] == fr[j - 1]);
                assert(gs[j] == gr[j - 1]);
            }
        }
    }
}

/// No `|` of `s` stands outside all parentheses.
pub open spec fn bar_free(s: Seq<char>) -> bool {
    forall|n: int| 0 <= n < s.len() && s[n] == '|' ==> net(#[trigger] s.take(n)) > 0
}

proof fn lemma_bar_free_add(a: Seq<char>, b: Seq<char>)
    requires
        safe(a),
        bar_free(a),
        bar_free(b),
    ensures
        bar_free(a + b),
{
    let c = a + b;
    assert forall|n: int| 0 <= n < c.len() && c[n] == '|' implies net(#[trigger] c.take(n)) > 0 by {
        if n < a.len() {
            assert(c.take(n) =~= a.take(n));
            assert(a[n] == '|');
        } else {
            let m = n - a.len();
            assert(c.take(n) =~= a + b.take(m));
            lemma_net_add(a, b.take(m));
            assert(b[m] == '|');
        }
    }
}

proof fn lemma_bar_free_group(x: Seq<char>)
    requires
        safe(x),
    ensures
        bar_free(seq!['('] + x + seq![')']),
        bar_free(seq!['('] + x + seq![')', '*']),
{
    let open = seq!['('];
    lemma_net_single('(');
    let g = open + x + seq![')'];
    assert forall|n: int| 0 <= n < g.len() && g[n] == '|' implies net(#[trigger] g.take(n)) > 0 by {
        assert(0 < n <= x.len());
        assert(g.take(n) =~= open + x.take(n - 1));
        lemma_net_add(open, x.take(n - 1));
    }
    let h = open + x + seq![')', '*'];
    assert forall|n: int| 0 <= n < h.len() && h[n] == '|' implies net(#[trigger] h.take(n)) > 0 by {
        assert(0 < n <= x.len());
        assert(h.take(n) =~= open + x.take(n - 1));
        lemma_net_add(open, x.take(n - 1));
    }
}

/// In the text of a tidy factor no `|` stands outside all parentheses.
pub proof fn lemma_factor_key_bar_free(f: Regex)
    requires
        tidy(f),
        !(f is Concat),
    ensures
        bar_free(key(f)),
        safe(key(f)),
{
    lemma_key_safe(f);
    match f {
        Regex::Alt(bs) => {
            lemma_joined_keys_safe(bs);
            lemma_bar_free_group(joined_keys(bs));
        },
        Regex::Star(b) => {
            lemma_key_safe(*b);
            lemma_bar_free_group(body_key(*b));
        },
        _ => {},
    }
}

/// In the text of tidy factors, one after the other, no `|` stands outside
/// all parentheses.
pub proof fn lemma_concat_keys_bar_free(fs: Seq<Regex>)
    requires
        tidy_factors(fs),
    ensures
        bar_free(concat_keys(fs)),
        safe(concat_keys(fs)),
    decreases fs.len(),
{
    lemma_concat_keys_safe(fs);
    if fs.len() > 0 {
        let front = fs.drop_last();
        assert forall|i: int| 0 <= i < front.len() implies {
            let f = #[trigger] front[i];
            !(f is Concat) && crate::tidy::solid(f) && tidy(f)
        } by {
            assert(front[i] == fs[i]);
        }
        assert(tidy(fs[fs.len() - 1]));
        lemma_concat_keys_bar_free(front);
        lemma_factor_key_bar_free(fs.last());
        lemma_bar_free_add(concat_keys(front), key(fs.last()));
    }
}

/// In the text of a tidy branch no `|` stands outside all parentheses.
pub proof fn lemma_branch_key_bar_free(x: Regex)
    requires
        tidy(x),
        x is Concat || x is Star,
    ensures
        bar_free(key(x)),
        safe(key(x)),
{
    match x {
        Regex::Concat(fs) => {
            assert(tidy_factors(fs));
            lemma_concat_keys_bar_free(fs);
        },
        _ => {
            lemma_factor_key_bar_free(x);
        },
    }
}

/// The text of two branches or more is the text of the first, a `|`, and
/// the text of the rest.
pub proof fn lemma_joined_keys_front(bs: Seq<Regex>)
    requires
        bs.len() >= 2,
    ensures
        joined_keys(bs) == key(bs[0]) + seq!['|'] + joined_keys(bs.drop_first()),
    decreases bs.len(),
{
    let front = bs.drop_last();
    let rest = bs.drop_first();
    assert(front[0] == bs[0]);
    assert(rest.last() == bs.last());
    if bs.len() == 2 {
        assert(rest[0] == bs[1]);
        assert(joined_keys(front) == key(bs[0]));
        assert(joined_keys(rest) == key(bs[1]));
        assert(joined_keys(bs) =~= key(bs[0]) + seq!['|'] + joined_keys(rest));
    } else {
        lemma_joined_keys_front(front);
        assert(front.drop_first() =~= rest.drop_last());
        assert(joined_keys(bs) =~= key(bs[0]) + seq!['|'] + joined_keys(rest));
    }
}

/// The text of two tidy branches or more has a `|` outside all parentheses.
pub proof fn lemma_joined_keys_bar(bs: Seq<Regex>)
    requires
        tidy_branches(bs),
        bs.len() >= 2,
    ensures
        !bar_free(joined_keys(bs)),
{
    let k = key(bs[0]);
    let j = joined_keys(bs);
    lemma_joined_keys_front(bs);
    lemma_branch_key_bar_free(bs[0]);
    let n = k.len() as int;
    assert(j[n] == '|');
    assert(j.take(n) =~= k);
}

/// Two lists of tidy branches with the same text, neither empty, are as
/// long, and have the same texts one by one.
pub proof fn lemma_unique_branches(bs: Seq<Regex>, cs: Seq<Regex>)
    requires
        tidy_branches(bs),
        tidy_branches(cs),
        bs.len() > 0,
        cs.len() > 0,
        joined_keys(bs) == joined_keys(cs),
    ensures
        bs.len() == cs.len(),
        forall|j: int| 0 <= j < bs.len() ==> key(#[trigger] bs[j]) == key(cs[j]),
    decreases bs.len(),
{
    let j = joined_keys(bs);
    let a = key(bs[0]);
    let b = key(cs[0]);
    lemma_branch_key_bar_free(bs[0]);
    lemma_branch_key_bar_free(cs[0]);
    if bs.len() >= 2 {
        lemma_joined_keys_front(bs);
    }
    if cs.len() >= 2 {
        lemma_joined_keys_front(cs);
    }
    assert forall|i: int| 0 <= i < a.len() && i < b.len() implies a[i] == b[i] by {
        assert(j[i] == a[i]);
        assert(joined_keys(cs)[i] == b[i]);
    }
    if a.len() < b.len() {
        // behind the shorter text stands a `|`, outside all parentheses of the longer
        let n = a.len() as int;
        assert(bs.len() >= 2);
        assert(j[n] == '|');
        assert(joined_keys(cs)[n] == b[n]);
        assert(b.take(n) =~= a);
        assert(false);
    }
    if b.len() < a.len() {
        let n = b.len() as int;
        assert(cs.len() >= 2);
        assert(joined_keys(cs)[n] == '|');
        assert(j[n] == a[n]);
        assert(a.take(n) =~= b);
        assert(false);
    }
    assert(a =~= b);
    if bs.len() >= 2 && cs.len() >= 2 {
        let br = bs.drop_first();
        let cr = cs.drop_first();
        assert forall|i: int| 0 <= i < br.len() implies {
            let x = #[trigger] br[i];
            (x is Concat || x is Star) && tidy(x)
        } by {
            assert(br[i] == bs[i + 1]);
        }
        assert forall|i: int| 0 <= i < cr.len() implies {
            let x = #[trigger] cr[i];
            (x is Concat || x is Star) && tidy(x)
        } by {
            assert(cr[i] == cs[i + 1]);
        }
        let n = a.len() as int + 1;
        assert(joined_keys(br) =~= j.subrange(n, j.len() as int));
        assert(joined_keys(cr) =~= joined_keys(cs).subrange(n, j.len() as int));
        lemma_unique_branches(br, cr);
        assert forall|i: int| 0 <= i < bs.len() implies key(#[trigger] bs[i]) == key(cs[i]) by {
            if i > 0 {
                assert(bs[i] == br[i - 1]);
                assert(cs[i] == cr[i - 1]);
            }
        }
    } else {
        assert(j.len() == a.len() || joined_keys(cs).len() == a.len());
    }
}

} // verus!
