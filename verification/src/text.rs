//! Character-level text helpers: lowercasing (the normal form of tag names),
//! decimal rendering of user ids for mention tokens, and markdown escaping.

use vstd::prelude::*;
use vstd::string::*;

verus! {

/// What `str::to_lowercase` returns for a given character sequence.
/// The Unicode lowercase mapping takes pages to state, so it is only named
/// here; it is a function of the input characters alone.
pub uninterp spec fn lower_of(s: Seq<char>) -> Seq<char>;

/// Relies on `str::to_lowercase`: full Unicode lowercasing, determined by
/// the input characters alone; the empty string lowercases to itself.
#[verifier::external_body]
pub fn lowercase(s: &str) -> (r: String)
    ensures
        r@ == lower_of(s@),
        s@.len() == 0 ==> r@.len() == 0,
{
    s.to_lowercase()
}

/// Relies on `String as FromIterator<char>` (via `Iterator::collect`): the
/// returned string consists of exactly the given characters, in order.
#[verifier::external_body]
pub fn chars_to_string(v: &Vec<char>) -> (r: String)
    ensures
        r@ == v@,
{
    v.iter().collect()
}

/// The characters of `s`, in order, as a vector.
pub fn chars_of(s: &str) -> (r: Vec<char>)
    ensures
        r@ == s@,
{
    let n = s.unicode_len();
    let mut r: Vec<char> = Vec::new();
    let mut i: usize = 0;
    while i < n
        invariant
            i <= n,
            n == s@.len(),
            r@ == s@.subrange(0, i as int),
        decreases n - i,
    {
        let c = s.get_char(i);
        r.push(c);
        assert(s@.subrange(0, i as int).push(s@[i as int]) =~= s@.subrange(0, i as int + 1));
        i += 1;
    }
    assert(r@ =~= s@);
    r
}

/// The decimal digit character for `d` (`d < 10`).
pub open spec fn digit_char(d: nat) -> char {
    if d == 0 {
        '0'
    } else if d == 1 {
        '1'
    } else if d == 2 {
        '2'
    } else if d == 3 {
        '3'
    } else if d == 4 {
        '4'
    } else if d == 5 {
        '5'
    } else if d == 6 {
        '6'
    } else if d == 7 {
        '7'
    } else if d == 8 {
        '8'
    } else {
        '9'
    }
}

/// The decimal representation of `n`, most significant digit first.
pub open spec fn dec_digits(n: nat) -> Seq<char>
    decreases n,
{
    if n < 10 {
        seq![digit_char(n)]
    } else {
        dec_digits(n / 10).push(digit_char(n % 10))
    }
}

fn digit_char_exec(d: u64) -> (c: char)
    requires
        d < 10,
    ensures
        c == digit_char(d as nat),
{
    if d == 0 {
        '0'
    } else if d == 1 {
        '1'
    } else if d == 2 {
        '2'
    } else if d == 3 {
        '3'
    } else if d == 4 {
        '4'
    } else if d == 5 {
        '5'
    } else if d == 6 {
        '6'
    } else if d == 7 {
        '7'
    } else if d == 8 {
        '8'
    } else {
        '9'
    }
}

/// Appends the decimal digits of `n` to `out`.
pub fn push_dec(out: &mut Vec<char>, n: u64)
    ensures
        final(out)@ == old(out)@ + dec_digits(n as nat),
    decreases n,
{
    if n < 10 {
        out.push(digit_char_exec(n));
        assert(out@ =~= old(out)@ + dec_digits(n as nat));
    } else {
        push_dec(out, n / 10);
        out.push(digit_char_exec(n % 10));
        assert((n / 10) as nat == n as nat / 10);
        assert((n % 10) as nat == n as nat % 10);
        assert(out@ =~= old(out)@ + dec_digits(n as nat));
    }
}

/// Powers of ten, for bounding decimal representations.
pub open spec fn pow10(d: nat) -> nat
    decreases d,
{
    if d == 0 {
        1
    } else {
        10 * pow10((d - 1) as nat)
    }
}

/// A number below `10^d` needs at most `d` decimal digits.
pub proof fn lemma_dec_digits_len(n: nat, d: nat)
    requires
        d >= 1,
        n < pow10(d),
    ensures
        dec_digits(n).len() <= d,
    decreases d,
{
    if n < 10 {
    } else {
        let p = pow10((d - 1) as nat);
        assert(pow10(d) == 10 * p);
        if d == 1 {
            assert(pow10(0nat) == 1);
            assert(false);
        }
        assert(n / 10 < p) by {
            if n / 10 >= p {
                assert(n >= 10 * (n / 10)) by {
                    vstd::arithmetic::div_mod::lemma_fundamental_div_mod(n as int, 10);
                    vstd::arithmetic::div_mod::lemma_mod_division_less_than_divisor(n as int, 10);
                }
                assert(10 * (n / 10) >= 10 * p) by {
                    vstd::arithmetic::mul::lemma_mul_inequality(
                        p as int,
                        (n / 10) as int,
                        10,
                    );
                    assert(p * 10 == 10 * p) by (nonlinear_arith);
                    assert((n / 10) * 10 == 10 * (n / 10)) by (nonlinear_arith);
                }
                assert(false);
            }
        }
        lemma_dec_digits_len(n / 10, (d - 1) as nat);
    }
}

/// A `u64` needs at most 20 decimal digits.
pub proof fn lemma_dec_digits_len_u64(n: u64)
    ensures
        dec_digits(n as nat).len() <= 20,
{
    assert(u64::MAX < pow10(20)) by {
        reveal_with_fuel(pow10, 21);
    }
    lemma_dec_digits_len(n as nat, 20);
}

/// Characters that the chat platform treats as markdown and that must be
/// escaped before echoing untrusted text.
pub open spec fn needs_escape(c: char) -> bool {
    ||| c == '\\'
    ||| c == '~'
    ||| c == '_'
    ||| c == '*'
    ||| c == '|'
    ||| c == '`'
    ||| c == '<'
    ||| c == '>'
    ||| c == '['
    ||| c == ']'
}

fn needs_escape_exec(c: char) -> (b: bool)
    ensures
        b == needs_escape(c),
{
    c == '\\' || c == '~' || c == '_' || c == '*' || c == '|' || c == '`' || c == '<' || c == '>'
        || c == '[' || c == ']'
}

/// `s` with a backslash inserted before every markdown character.
pub open spec fn sanitize_spec(s: Seq<char>) -> Seq<char>
    decreases s.len(),
{
    if s.len() == 0 {
        s
    } else {
        (if needs_escape(s[0]) {
            seq!['\\', s[0]]
        } else {
            seq![s[0]]
        }) + sanitize_spec(s.drop_first())
    }
}

/// Escapes markdown in arbitrary text so the platform renders it literally.
pub fn sanitize_txt(txt: &str) -> (r: String)
    ensures
        r@ == sanitize_spec(txt@),
{
    let cs = chars_of(txt);
    let mut out: Vec<char> = Vec::new();
    let mut i: usize = 0;
    proof {
        assert(txt@.skip(0) =~= txt@);
        assert(out@ + sanitize_spec(txt@.skip(0)) =~= sanitize_spec(txt@));
    }
    while i < cs.len()
        invariant
            i <= cs.len(),
            cs@ == txt@,
            out@ + sanitize_spec(txt@.skip(i as int)) == sanitize_spec(txt@),
        decreases cs.len() - i,
    {
        let c = cs[i];
        proof {
            assert(txt@.skip(i as int).len() > 0);
            assert(txt@.skip(i as int)[0] == txt@[i as int]);
            assert(txt@.skip(i as int).drop_first() =~= txt@.skip(i as int + 1));
        }
        if needs_escape_exec(c) {
            out.push('\\');
            out.push(c);
            assert(out@ + sanitize_spec(txt@.skip(i as int + 1)) =~= sanitize_spec(txt@));
        } else {
            out.push(c);
            assert(out@ + sanitize_spec(txt@.skip(i as int + 1)) =~= sanitize_spec(txt@));
        }
        i += 1;
    }
    proof {
        assert(txt@.skip(cs@.len() as int) =~= Seq::<char>::empty());
        assert(out@ =~= sanitize_spec(txt@));
    }
    chars_to_string(&out)
}

} // verus!
