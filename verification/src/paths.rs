//! Target-path construction for persisted code blocks. Every fence-open
//! event names a fresh file: the path embeds a monotone block counter in
//! decimal, which makes paths of different blocks provably distinct.

use vstd::prelude::*;

verus! {

pub open spec fn is_dec_digit(c: char) -> bool {
    ||| c == '0'
    ||| c == '1'
    ||| c == '2'
    ||| c == '3'
    ||| c == '4'
    ||| c == '5'
    ||| c == '6'
    ||| c == '7'
    ||| c == '8'
    ||| c == '9'
}

pub open spec fn dec_digit(d: nat) -> char {
    if d == 0 {
        '0'
    } else if d == 1 {
        '1'
    } else if d == 2 {
        '2'
    } else if d == 3 {
        '3'
    } else if d == 4 {
        '4'
    } else if d == 5 {
        '5'
    } else if d == 6 {
        '6'
    } else if d == 7 {
        '7'
    } else if d == 8 {
        '8'
    } else {
        '9'
    }
}

pub open spec fn dec_digit_val(c: char) -> nat {
    if c == '0' {
        0
    } else if c == '1' {
        1
    } else if c == '2' {
        2
    } else if c == '3' {
        3
    } else if c == '4' {
        4
    } else if c == '5' {
        5
    } else if c == '6' {
        6
    } else if c == '7' {
        7
    } else if c == '8' {
        8
    } else {
        9
    }
}

/// The decimal rendering of `n`, most significant digit first.
pub open spec fn spec_dec(n: nat) -> Seq<char>
    decreases n,
{
    if n < 10 {
        seq![dec_digit(n)]
    } else {
        spec_dec(n / 10) + seq![dec_digit(n % 10)]
    }
}

/// The number a digit sequence denotes.
pub open spec fn spec_dec_val(s: Seq<char>) -> nat
    decreases s.len(),
{
    if s.len() == 0 {
        0
    } else {
        spec_dec_val(s.drop_last()) * 10 + dec_digit_val(s.last())
    }
}

pub proof fn lemma_dec_round_trip(n: nat)
    ensures
        spec_dec_val(spec_dec(n)) == n,
    decreases n,
{
    if n < 10 {
        let s = spec_dec(n);
        assert(s.drop_last() =~= Seq::<char>::empty());
        assert(dec_digit_val(dec_digit(n)) == n);
        assert(spec_dec_val(s) == spec_dec_val(s.drop_last()) * 10 + dec_digit_val(s.last()));
    } else {
        lemma_dec_round_trip(n / 10);
        let s = spec_dec(n);
        assert(s.len() == spec_dec(n / 10).len() + 1);
        assert(s.drop_last() =~= spec_dec(n / 10));
        assert(s.last() == dec_digit(n % 10));
        assert(dec_digit_val(dec_digit(n % 10)) == n % 10);
        assert(spec_dec_val(s) == spec_dec_val(s.drop_last()) * 10 + dec_digit_val(s.last()));
        assert(spec_dec_val(s.drop_last()) == n / 10);
        assert(n / 10 * 10 + n % 10 == n) by {
            vstd::arithmetic::div_mod::lemma_fundamental_div_mod(n as int, 10);
        }
    }
}

pub proof fn lemma_dec_injective(a: nat, b: nat)
    ensures
        spec_dec(a) == spec_dec(b) ==> a == b,
{
    if spec_dec(a) == spec_dec(b) {
        lemma_dec_round_trip(a);
        lemma_dec_round_trip(b);
    }
}

/// Every character of a decimal rendering is a digit.
pub proof fn lemma_dec_digits(n: nat)
    ensures
        forall|i: int| 0 <= i < spec_dec(n).len() ==> is_dec_digit(spec_dec(n)[i]),
    decreases n,
{
    if n < 10 {
        assert(is_dec_digit(dec_digit(n)));
        assert(spec_dec(n)[0] == dec_digit(n));
    } else {
        lemma_dec_digits(n / 10);
        let s = spec_dec(n);
        let h = spec_dec(n / 10);
        assert forall|i: int| 0 <= i < s.len() implies is_dec_digit(s[i]) by {
            if i < h.len() {
                assert(s[i] == h[i]);
            } else {
                assert(s[i] == dec_digit(n % 10));
                assert(is_dec_digit(dec_digit(n % 10)));
            }
        }
    }
}

/// The path a code block is written to: the responses directory, the
/// block counter, the sanitized prompt name, and the resolved extension.
pub open spec fn spec_target_path(counter: nat, name: Seq<char>, ext: Seq<char>) -> Seq<char> {
    "responses/"@ + spec_dec(counter) + seq!['_'] + name + seq!['.'] + ext
}

/// Blocks opened under different counter values land in different files,
/// whatever the prompt-derived name and the extension are.
pub proof fn lemma_target_paths_distinct(
    c1: nat,
    n1: Seq<char>,
    e1: Seq<char>,
    c2: nat,
    n2: Seq<char>,
    e2: Seq<char>,
)
    requires
        c1 != c2,
    ensures
        spec_target_path(c1, n1, e1) != spec_target_path(c2, n2, e2),
{
    let p = "responses/"@;
    let d1 = spec_dec(c1);
    let d2 = spec_dec(c2);
    let s1 = spec_target_path(c1, n1, e1);
    let s2 = spec_target_path(c2, n2, e2);
    lemma_dec_digits(c1);
    lemma_dec_digits(c2);
    if s1 == s2 {
        if d1.len() == d2.len() {
            assert forall|i: int| 0 <= i < d1.len() implies d1[i] == d2[i] by {
                assert(s1[p.len() + i] == d1[i]);
                assert(s2[p.len() + i] == d2[i]);
            }
            assert(d1 =~= d2);
            lemma_dec_injective(c1, c2);
        } else if d1.len() < d2.len() {
            let idx = p.len() + d1.len();
            assert(s1[idx as int] == '_');
            assert(s2[idx as int] == d2[d1.len() as int]);
            assert(is_dec_digit('_'));
        } else {
            let idx = p.len() + d2.len();
            assert(s2[idx as int] == '_');
            assert(s1[idx as int] == d1[d2.len() as int]);
            assert(is_dec_digit('_'));
        }
    }
}

/// One decimal digit as a string slice.
fn dec_digit_str(d: u64) -> (s: &'static str)
    requires
        d < 10,
    ensures
        s@ == seq![dec_digit(d as nat)],
{
    proof {
        broadcast use vstd::string::group_string_axioms;

        reveal_strlit("0");
        reveal_strlit("1");
        reveal_strlit("2");
        reveal_strlit("3");
        reveal_strlit("4");
        reveal_strlit("5");
        reveal_strlit("6");
        reveal_strlit("7");
        reveal_strlit("8");
        reveal_strlit("9");
        assert("0"@ =~= seq!['0']);
        assert("1"@ =~= seq!['1']);
        assert("2"@ =~= seq!['2']);
        assert("3"@ =~= seq!['3']);
        assert("4"@ =~= seq!['4']);
        assert("5"@ =~= seq!['5']);
        assert("6"@ =~= seq!['6']);
        assert("7"@ =~= seq!['7']);
        assert("8"@ =~= seq!['8']);
        assert("9"@ =~= seq!['9']);
    }
    if d == 0 {
        "0"
    } else if d == 1 {
        "1"
    } else if d == 2 {
        "2"
    } else if d == 3 {
        "3"
    } else if d == 4 {
        "4"
    } else if d == 5 {
        "5"
    } else if d == 6 {
        "6"
    } else if d == 7 {
        "7"
    } else if d == 8 {
        "8"
    } else {
        "9"
    }
}

/// The decimal rendering of `n` as a string.
pub fn u64_to_dec(n: u64) -> (s: String)
    ensures
        s@ == spec_dec(n as nat),
    decreases n,
{
    if n < 10 {
        String::from_str(dec_digit_str(n))
    } else {
        let prefix = u64_to_dec(n / 10);
        prefix.concat(dec_digit_str(n % 10))
    }
}

/// Build the target path for a block: directory, counter, name, extension.
pub fn build_target_path(counter: u64, name: &str, ext: &str) -> (p: String)
    ensures
        p@ == spec_target_path(counter as nat, name@, ext@),
{
    let mut p = String::from_str("responses/");
    let d = u64_to_dec(counter);
    p.append(d.as_str());
    p.append("_");
    p.append(name);
    p.append(".");
    p.append(ext);
    proof {
        broadcast use vstd::string::group_string_axioms;

        reveal_strlit("_");
        reveal_strlit(".");
        assert("_"@ =~= seq!['_']);
        assert("."@ =~= seq!['.']);
        assert(p@ =~= spec_target_path(counter as nat, name@, ext@));
    }
    p
}

} // verus!
