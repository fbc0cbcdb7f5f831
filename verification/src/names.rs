//! Names of the files in a rotation chain.
//!
//! Generation 0 is the active output file and carries the base name itself;
//! generation `N` (`N >= 1`) is named `base.N`, with `N` written as a
//! decimal numeral.

use vstd::prelude::*;

verus! {

/// The character for a single decimal digit.
pub open spec fn digit_char(d: nat) -> char
    recommends
        d < 10,
{
    if d == 0 {
        '0'
    } else if d == 1 {
        '1'
    } else if d == 2 {
        '2'
    } else if d == 3 {
        '3'
    } else if d == 4 {
        '4'
    } else if d == 5 {
        '5'
    } else if d == 6 {
        '6'
    } else if d == 7 {
        '7'
    } else if d == 8 {
        '8'
    } else {
        '9'
    }
}

/// The decimal numeral of `n`: most significant digit first, no leading
/// zeros (a single `'0'` for zero itself).
pub open spec fn dec_str(n: nat) -> Seq<char>
    decreases n,
{
    if n < 10 {
        seq![digit_char(n)]
    } else {
        dec_str(n / 10).push(digit_char(n % 10))
    }
}

/// The name of generation `i` in the chain rooted at `base`: the base name
/// itself for the active file, `base.i` for a numbered backup.
pub open spec fn gen_name(base: Seq<char>, i: nat) -> Seq<char> {
    if i == 0 {
        base
    } else {
        base + seq!['.'] + dec_str(i)
    }
}

proof fn lemma_digit_char_injective(a: nat, b: nat)
    requires
        a < 10,
        b < 10,
        digit_char(a) == digit_char(b),
    ensures
        a == b,
{
}

proof fn lemma_dec_str_len(n: nat)
    ensures
        dec_str(n).len() >= 1,
        n >= 10 ==> dec_str(n).len() >= 2,
    decreases n,
{
    if n >= 10 {
        lemma_dec_str_len(n / 10);
    }
}

/// Distinct numbers have distinct decimal numerals.
pub proof fn lemma_dec_str_injective(a: nat, b: nat)
    requires
        dec_str(a) == dec_str(b),
    ensures
        a == b,
    decreases a,
{
    lemma_dec_str_len(a);
    lemma_dec_str_len(b);
    if a < 10 && b < 10 {
        assert(dec_str(a)[0] == digit_char(a));
        assert(dec_str(b)[0] == digit_char(b));
        lemma_digit_char_injective(a, b);
    } else if a >= 10 && b >= 10 {
        assert(dec_str(a).last() == digit_char(a % 10));
        assert(dec_str(b).last() == digit_char(b % 10));
        lemma_digit_char_injective(a % 10, b % 10);
        assert(dec_str(a).drop_last() =~= dec_str(a / 10));
        assert(dec_str(b).drop_last() =~= dec_str(b / 10));
        lemma_dec_str_injective(a / 10, b / 10);
    }
    // the mixed cases contradict the equal lengths
}

/// Distinct generations of one chain have distinct names.
pub proof fn lemma_gen_name_injective(base: Seq<char>, i: nat, j: nat)
    requires
        i != j,
    ensures
        gen_name(base, i) != gen_name(base, j),
{
    lemma_dec_str_len(i);
    lemma_dec_str_len(j);
    if i >= 1 && j >= 1 && gen_name(base, i) == gen_name(base, j) {
        let di = dec_str(i);
        let dj = dec_str(j);
        assert(gen_name(base, i).len() == base.len() + 1 + di.len());
        assert(gen_name(base, j).len() == base.len() + 1 + dj.len());
        assert(di.len() == dj.len());
        assert forall|k: int| 0 <= k < di.len() implies di[k] == dj[k] by {
            assert(gen_name(base, i)[base.len() + 1 + k] == di[k]);
            assert(gen_name(base, j)[base.len() + 1 + k] == dj[k]);
        }
        assert(di =~= dj);
        lemma_dec_str_injective(i, j);
    }
}

/// Appends the character of one decimal digit to `s`.
fn push_digit(s: &mut String, d: usize)
    requires
        d < 10,
    ensures
        final(s)@ == old(s)@ + seq![digit_char(d as nat)],
{
    proof {
        reveal_strlit("0");
        reveal_strlit("1");
        reveal_strlit("2");
        reveal_strlit("3");
        reveal_strlit("4");
        reveal_strlit("5");
        reveal_strlit("6");
        reveal_strlit("7");
        reveal_strlit("8");
        reveal_strlit("9");
    }
    if d == 0 {
        s.append("0");
    } else if d == 1 {
        s.append("1");
    } else if d == 2 {
        s.append("2");
    } else if d == 3 {
        s.append("3");
    } else if d == 4 {
        s.append("4");
    } else if d == 5 {
        s.append("5");
    } else if d == 6 {
        s.append("6");
    } else if d == 7 {
        s.append("7");
    } else if d == 8 {
        s.append("8");
    } else {
        s.append("9");
    }
    proof {
        assert(s@ =~= old(s)@ + seq![digit_char(d as nat)]);
    }
}

/// Appends the decimal numeral of `n` to `s`.
fn push_dec(s: &mut String, n: usize)
    ensures
        final(s)@ == old(s)@ + dec_str(n as nat),
    decreases n,
{
    if n < 10 {
        push_digit(s, n);
    } else {
        push_dec(s, n / 10);
        push_digit(s, n % 10);
        proof {
            assert(s@ =~= old(s)@ + dec_str(n as nat));
        }
    }
}

/// Builds the name of generation `i` for the chain rooted at `base`.
pub fn gen_filename(base: &str, i: usize) -> (r: String)
    ensures
        r@ == gen_name(base@, i as nat),
{
    let mut r = base.to_owned();
    if i > 0 {
        proof {
            reveal_strlit(".");
        }
        r.append(".");
        push_dec(&mut r, i);
        proof {
            assert(r@ =~= gen_name(base@, i as nat));
        }
    }
    r
}

} // verus!
