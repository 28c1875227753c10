//! The names that renaming gives: a base name, the tag of a block and a
//! number, joined by dots. No two of them are the same.

use vstd::prelude::*;
use vstd::string::StringExecFns;
use crate::ir::{decimal, decimal_text, digit};

verus! {

/// The name `base.tag.k`.
pub open spec fn minted(base: Seq<char>, tag: nat, k: nat) -> Seq<char> {
    base + seq!['.'] + decimal(tag) + seq!['.'] + decimal(k)
}

/// The name `base.undef`.
pub open spec fn undefined_name(base: Seq<char>) -> Seq<char> {
    base + ".undef"@
}

/// Whether no character of `s` is a dot.
pub open spec fn dotless(s: Seq<char>) -> bool {
    forall|i: int| 0 <= i < s.len() ==> #[trigger] s[i] != '.'
}

/// The digits are ten different characters, none of them a dot.
pub proof fn lemma_digit(a: nat, b: nat)
    requires
        a < 10,
        b < 10,
    ensures
        digit(a) != '.',
        digit(a) == digit(b) ==> a == b,
{
    assert(digit(a) as u32 == 48 + a);
    assert(digit(b) as u32 == 48 + b);
    assert('.' as u32 == 46);
}

/// A numeral has at least one digit and no dot.
pub proof fn lemma_decimal_plain(n: nat)
    ensures
        decimal(n).len() >= 1,
        n >= 10 ==> decimal(n).len() >= 2,
        dotless(decimal(n)),
    decreases n,
{
    if n < 10 {
        lemma_digit(n, 0);
        assert(decimal(n)[0] == digit(n));
    } else {
        lemma_decimal_plain(n / 10);
        lemma_digit(n % 10, 0);
        let rest = decimal(n / 10);
        let whole = decimal(n);
        assert forall|i: int| 0 <= i < whole.len() implies #[trigger] whole[i] != '.' by {
            if i < rest.len() {
                assert(whole[i] == rest[i]);
            }
        }
    }
}

/// Different numbers have different numerals.
pub proof fn lemma_decimal_injective(n: nat, m: nat)
    requires
        decimal(n) == decimal(m),
    ensures
        n == m,
    decreases n,
{
    lemma_decimal_plain(n);
    lemma_decimal_plain(m);
    if n < 10 {
        if m >= 10 {
            assert(false);
        }
        assert(decimal(n)[0] == digit(n));
        assert(decimal(m)[0] == digit(m));
        lemma_digit(n, m);
    } else {
        if m < 10 {
            assert(false);
        }
        let a = decimal(n / 10);
        let b = decimal(m / 10);
        assert(decimal(n).last() == digit(n % 10));
        assert(decimal(m).last() == digit(m % 10));
        lemma_digit(n % 10, m % 10);
        assert(a =~= decimal(n).drop_last());
        assert(b =~= decimal(m).drop_last());
        lemma_decimal_injective(n / 10, m / 10);
    }
}

/// A text is cut at its last dot in one way only.
pub proof fn lemma_split_at_last_dot(a: Seq<char>, x: Seq<char>, b: Seq<char>, y: Seq<char>)
    requires
        a + seq!['.'] + x == b + seq!['.'] + y,
        dotless(x),
        dotless(y),
    ensures
        a == b,
        x == y,
{
    let s = a + seq!['.'] + x;
    let t = b + seq!['.'] + y;
    assert(s.len() == a.len() + 1 + x.len());
    assert(t.len() == b.len() + 1 + y.len());
    if x.len() < y.len() {
        assert(s[a.len() as int] == '.');
        assert(t[a.len() as int] == y[a.len() - b.len() - 1]);
        assert(false);
    }
    if y.len() < x.len() {
        assert(t[b.len() as int] == '.');
        assert(s[b.len() as int] == x[b.len() - a.len() - 1]);
        assert(false);
    }
    assert(a =~= b) by {
        assert forall|i: int| 0 <= i < a.len() implies a[i] == b[i] by {
            assert(s[i] == a[i]);
            assert(t[i] == b[i]);
        }
    }
    assert(x =~= y) by {
        assert forall|i: int| 0 <= i < x.len() implies x[i] == y[i] by {
            assert(s[a.len() + 1 + i] == x[i]);
            assert(t[b.len() + 1 + i] == y[i]);
        }
    }
}

/// Names made of different parts are different.
pub proof fn lemma_minted_injective(b1: Seq<char>, t1: nat, k1: nat, b2: Seq<char>, t2: nat, k2: nat)
    requires
        minted(b1, t1, k1) == minted(b2, t2, k2),
    ensures
        b1 == b2,
        t1 == t2,
        k1 == k2,
{
    lemma_decimal_plain(t1);
    lemma_decimal_plain(t2);
    lemma_decimal_plain(k1);
    lemma_decimal_plain(k2);
    lemma_split_at_last_dot(
        b1 + seq!['.'] + decimal(t1),
        decimal(k1),
        b2 + seq!['.'] + decimal(t2),
        decimal(k2),
    );
    lemma_split_at_last_dot(b1, decimal(t1), b2, decimal(t2));
    lemma_decimal_injective(t1, t2);
    lemma_decimal_injective(k1, k2);
}

/// The name `base.tag.k`.
pub fn mint(base: &String, tag: u64, k: u64) -> (s: String)
    ensures
        s@ == minted(base@, tag as nat, k as nat),
{
    let mut s = base.clone();
    proof {
        reveal_strlit(".");
    }
    s.append(".");
    let t = decimal_text(tag);
    s.append(t.as_str());
    s.append(".");
    let n = decimal_text(k);
    s.append(n.as_str());
    assert(s@ =~= minted(base@, tag as nat, k as nat));
    s
}

/// The name `base.undef`.
pub fn undefined(base: &String) -> (s: String)
    ensures
        s@ == undefined_name(base@),
{
    let mut s = base.clone();
    s.append(".undef");
    s
}

/// A name that local value numbering makes holds a dot, so it is none
/// that is written without one: no name of the surface syntax, which has no
/// dot among the characters of its names.
pub proof fn lemma_suffixed_not_dotless(base: Seq<char>, n: nat)
    ensures
        !dotless(crate::ir::suffixed(base, n)),
{
    crate::ir::lemma_suffixed_has_dot(base, n);
    let s = crate::ir::suffixed(base, n);
    assert(s[base.len() as int] == '.');
    assert(s.contains('.'));
}

} // verus!
