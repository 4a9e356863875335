//! Wrapper-script naming: a deterministic, collision-free slug derived from
//! the original path.
//!
//! Alphanumeric characters pass through unchanged; every other character is
//! escaped as `_` followed by two lowercase hex digits of its code point
//! (or `_u` and six digits for code points above `0xff`).  Because the
//! escape blocks form a prefix code, the slug is injective: distinct paths
//! always receive distinct wrapper names.

use vstd::prelude::*;

verus! {

/// Characters that pass into the slug unchanged: ASCII alphanumerics.
pub open spec fn is_slug_keep(c: char) -> bool {
    let n = c as int;
    (48 <= n <= 57) || (65 <= n <= 90) || (97 <= n <= 122)
}

/// The lowercase hex digit for a value in `[0, 16)`.
pub open spec fn hex_char(d: int) -> char {
    if d == 0 {
        '0'
    } else if d == 1 {
        '1'
    } else if d == 2 {
        '2'
    } else if d == 3 {
        '3'
    } else if d == 4 {
        '4'
    } else if d == 5 {
        '5'
    } else if d == 6 {
        '6'
    } else if d == 7 {
        '7'
    } else if d == 8 {
        '8'
    } else if d == 9 {
        '9'
    } else if d == 10 {
        'a'
    } else if d == 11 {
        'b'
    } else if d == 12 {
        'c'
    } else if d == 13 {
        'd'
    } else if d == 14 {
        'e'
    } else {
        'f'
    }
}

/// The `k` lowercase hex digits of `n`, most significant first.
pub open spec fn hex_digits(n: int, k: nat) -> Seq<char>
    decreases k,
{
    if k == 0 {
        Seq::empty()
    } else {
        hex_digits(n / 16, (k - 1) as nat).push(hex_char(n % 16))
    }
}

/// The encoding of one character of the path.
pub open spec fn escape_char(c: char) -> Seq<char> {
    if is_slug_keep(c) {
        seq![c]
    } else if (c as int) < 256 {
        seq!['_'] + hex_digits(c as int, 2)
    } else {
        seq!['_', 'u'] + hex_digits(c as int, 6)
    }
}

/// The encoding of a whole path.
pub open spec fn escape_seq(s: Seq<char>) -> Seq<char>
    decreases s.len(),
{
    if s.len() == 0 {
        Seq::empty()
    } else {
        escape_char(s[0]) + escape_seq(s.drop_first())
    }
}

/// The fixed tag that precedes every wrapper name.
pub open spec fn slug_tag() -> Seq<char> {
    seq!['w', 'r', 'a', 'p', 'p', 'e', 'r', '_']
}

/// The wrapper name for an original path.
pub open spec fn slug_of(s: Seq<char>) -> Seq<char> {
    slug_tag() + escape_seq(s)
}

/// A character that a Rust string can actually hold: a unicode scalar
/// value.  Sequence elements in ghost code do not carry this bound by
/// themselves, so laws over raw character sequences state it explicitly.
pub open spec fn valid_char(c: char) -> bool {
    0 <= c as int <= 0x10FFFF
}

/// Every character of the sequence is a unicode scalar value.
pub open spec fn valid_chars(s: Seq<char>) -> bool {
    forall|i: int| 0 <= i < s.len() ==> valid_char(#[trigger] s[i])
}

/// Each character encodes to at least one output character, so the slug is
/// at least as long as the path it names.
pub proof fn lemma_escape_seq_len(s: Seq<char>)
    ensures
        escape_seq(s).len() >= s.len(),
    decreases s.len(),
{
    if s.len() > 0 {
        lemma_escape_seq_len(s.drop_first());
    }
}

/// Appending a character to the path appends its block to the encoding.
pub proof fn lemma_escape_seq_push(s: Seq<char>, c: char)
    ensures
        escape_seq(s.push(c)) == escape_seq(s) + escape_char(c),
    decreases s.len(),
{
    if s.len() == 0 {
        assert(s.push(c).len() == 1);
        assert(s.push(c)[0] == c);
        assert(s.push(c).drop_first() =~= s);
        assert(escape_seq(s.push(c)) == escape_char(c) + escape_seq(s));
        assert(escape_seq(s) =~= Seq::<char>::empty());
        assert(escape_char(c) + escape_seq(s) =~= escape_seq(s) + escape_char(c));
    } else {
        let t = s.drop_first();
        assert(s.push(c)[0] == s[0]);
        assert(s.push(c).drop_first() =~= t.push(c));
        lemma_escape_seq_push(t, c);
        assert(escape_seq(s.push(c)) == escape_char(s[0]) + escape_seq(t.push(c)));
        assert(escape_seq(s) == escape_char(s[0]) + escape_seq(t));
        assert(escape_char(s[0]) + (escape_seq(t) + escape_char(c)) =~= (escape_char(s[0])
            + escape_seq(t)) + escape_char(c));
    }
}

/// Concatenations of equal total shape split equally.
proof fn lemma_concat_cancel(x: Seq<char>, y: Seq<char>, x2: Seq<char>, y2: Seq<char>)
    requires
        x + y == x2 + y2,
        x.len() == x2.len(),
    ensures
        x == x2,
        y == y2,
{
    assert((x + y).len() == x.len() + y.len());
    assert((x2 + y2).len() == x2.len() + y2.len());
    assert(y.len() == y2.len());
    assert forall|i: int| 0 <= i < x.len() implies x[i] == x2[i] by {
        assert((x + y)[i] == x[i]);
        assert((x2 + y2)[i] == x2[i]);
    }
    assert(x =~= x2);
    assert forall|i: int| 0 <= i < y.len() implies y[i] == y2[i] by {
        assert((x + y)[x.len() + i] == y[i]);
        assert((x2 + y2)[x.len() + i] == y2[i]);
    }
    assert(y =~= y2);
}

/// `16^k`.
pub open spec fn pow16(k: nat) -> int
    decreases k,
{
    if k == 0 {
        1
    } else {
        16 * pow16((k - 1) as nat)
    }
}

/// Equal fixed-width hex renderings of values in range mean equal values.
proof fn lemma_hex_digits_injective(n: int, m: int, k: nat)
    requires
        0 <= n < pow16(k),
        0 <= m < pow16(k),
        hex_digits(n, k) == hex_digits(m, k),
    ensures
        n == m,
    decreases k,
{
    if k == 0 {
        assert(pow16(0) == 1);
    } else {
        let dn = hex_digits(n / 16, (k - 1) as nat);
        let dm = hex_digits(m / 16, (k - 1) as nat);
        assert(dn.push(hex_char(n % 16)) == dm.push(hex_char(m % 16)));
        assert(dn.len() == dm.len()) by {
            lemma_hex_digits_len(n / 16, (k - 1) as nat);
            lemma_hex_digits_len(m / 16, (k - 1) as nat);
        }
        assert(hex_char(n % 16) == dn.push(hex_char(n % 16)).last());
        assert(hex_char(m % 16) == dm.push(hex_char(m % 16)).last());
        assert(n % 16 == m % 16);
        assert(dn =~= dm) by {
            assert forall|i: int| 0 <= i < dn.len() implies dn[i] == dm[i] by {
                assert(dn.push(hex_char(n % 16))[i] == dn[i]);
                assert(dm.push(hex_char(m % 16))[i] == dm[i]);
            }
        }
        assert(n / 16 < pow16((k - 1) as nat)) by {
            assert(pow16(k) == 16 * pow16((k - 1) as nat));
        }
        assert(m / 16 < pow16((k - 1) as nat)) by {
            assert(pow16(k) == 16 * pow16((k - 1) as nat));
        }
        lemma_hex_digits_injective(n / 16, m / 16, (k - 1) as nat);
        assert(n == 16 * (n / 16) + n % 16);
        assert(m == 16 * (m / 16) + m % 16);
    }
}

proof fn lemma_hex_digits_len(n: int, k: nat)
    ensures
        hex_digits(n, k).len() == k,
    decreases k,
{
    if k > 0 {
        lemma_hex_digits_len(n / 16, (k - 1) as nat);
    }
}

/// `16^2` and `16^6`, by unfolding.
proof fn lemma_pow16_values()
    ensures
        pow16(2) == 256,
        pow16(6) == 0x1000000,
{
    assert(pow16(0) == 1);
    assert(pow16(1) == 16);
    assert(pow16(2) == 256);
    assert(pow16(3) == 0x1000);
    assert(pow16(4) == 0x10000);
    assert(pow16(5) == 0x100000);
    assert(pow16(6) == 0x1000000);
}

/// Distinct paths encode to distinct sequences: the escape is injective.
pub proof fn lemma_escape_seq_injective(a: Seq<char>, b: Seq<char>)
    requires
        valid_chars(a),
        valid_chars(b),
        escape_seq(a) == escape_seq(b),
    ensures
        a == b,
    decreases a.len(),
{
    if a.len() == 0 || b.len() == 0 {
        lemma_escape_seq_len(a);
        lemma_escape_seq_len(b);
        assert(a =~= b);
    } else {
        let ca = a[0];
        let cb = b[0];
        let ea = escape_char(ca);
        let eb = escape_char(cb);
        let ta = escape_seq(a.drop_first());
        let tb = escape_seq(b.drop_first());
        assert(ea + ta == eb + tb);
        assert((ea + ta)[0] == ea[0]);
        assert((eb + tb)[0] == eb[0]);
        lemma_hex_digits_len(ca as int, 2);
        lemma_hex_digits_len(cb as int, 2);
        lemma_hex_digits_len(ca as int, 6);
        lemma_hex_digits_len(cb as int, 6);
        lemma_pow16_values();
        assert(valid_char(ca) && valid_char(cb));
        // The first character of a block tells keep blocks (an
        // alphanumeric) apart from escape blocks (an underscore).
        if is_slug_keep(ca) && !is_slug_keep(cb) {
            assert(ea[0] == ca && eb[0] == '_');
            assert(is_slug_keep('_') == false);
            assert(false);
        }
        if !is_slug_keep(ca) && is_slug_keep(cb) {
            assert(eb[0] == cb && ea[0] == '_');
            assert(is_slug_keep('_') == false);
            assert(false);
        }
        if is_slug_keep(ca) {
            assert(ca == ea[0] && cb == eb[0]);
            assert(ca == cb);
            lemma_concat_cancel(ea, ta, eb, tb);
        } else {
            let na = ca as int;
            let nb = cb as int;
            let short_a = na < 256;
            let short_b = nb < 256;
            // The second character tells the short form (a hex digit)
            // apart from the long form (the letter `u`).
            if short_a != short_b {
                assert((ea + ta)[1] == ea[1]);
                assert((eb + tb)[1] == eb[1]);
                if short_a {
                    assert(ea[1] == hex_digits(na, 2)[0]);
                    assert(hex_digits(na, 2) == hex_digits(na / 16, 1).push(hex_char(na % 16)));
                    assert(hex_digits(na / 16, 1) == hex_digits(na / 256, 0).push(
                        hex_char(na / 16 % 16),
                    ));
                    assert(ea[1] == hex_char(na / 16 % 16));
                    assert(eb[1] == 'u');
                    assert(hex_char(na / 16 % 16) != 'u');
                } else {
                    assert(eb[1] == hex_digits(nb, 2)[0]);
                    assert(hex_digits(nb, 2) == hex_digits(nb / 16, 1).push(hex_char(nb % 16)));
                    assert(hex_digits(nb / 16, 1) == hex_digits(nb / 256, 0).push(
                        hex_char(nb / 16 % 16),
                    ));
                    assert(eb[1] == hex_char(nb / 16 % 16));
                    assert(ea[1] == 'u');
                    assert(hex_char(nb / 16 % 16) != 'u');
                }
                assert(false);
            } else if short_a {
                assert(ea.len() == 3 && eb.len() == 3);
                lemma_concat_cancel(ea, ta, eb, tb);
                lemma_concat_cancel(
                    seq!['_'],
                    hex_digits(na, 2),
                    seq!['_'],
                    hex_digits(nb, 2),
                );
                lemma_hex_digits_injective(na, nb, 2);
                assert(ca == cb);
            } else {
                assert(ea.len() == 8 && eb.len() == 8);
                lemma_concat_cancel(ea, ta, eb, tb);
                lemma_concat_cancel(
                    seq!['_', 'u'],
                    hex_digits(na, 6),
                    seq!['_', 'u'],
                    hex_digits(nb, 6),
                );
                assert(na < 0x1000000 && nb < 0x1000000);
                lemma_hex_digits_injective(na, nb, 6);
                assert(ca == cb);
            }
        }
        assert(ta == tb) by {
            assert(ea == eb);
            lemma_concat_cancel(ea, ta, eb, tb);
        }
        assert(valid_chars(a.drop_first())) by {
            assert forall|i: int| 0 <= i < a.drop_first().len() implies valid_char(
                #[trigger] a.drop_first()[i],
            ) by {
                assert(a.drop_first()[i] == a[i + 1]);
            }
        }
        assert(valid_chars(b.drop_first())) by {
            assert forall|i: int| 0 <= i < b.drop_first().len() implies valid_char(
                #[trigger] b.drop_first()[i],
            ) by {
                assert(b.drop_first()[i] == b[i + 1]);
            }
        }
        lemma_escape_seq_injective(a.drop_first(), b.drop_first());
        assert(a =~= b) by {
            assert(a.len() == b.len());
            assert forall|i: int| 0 <= i < a.len() implies a[i] == b[i] by {
                if i > 0 {
                    assert(a.drop_first()[i - 1] == a[i]);
                    assert(b.drop_first()[i - 1] == b[i]);
                }
            }
        }
    }
}

/// Naming collision safety: distinct original paths always receive
/// distinct wrapper names.
pub proof fn lemma_wrapper_name_injective(a: Seq<char>, b: Seq<char>)
    requires
        valid_chars(a),
        valid_chars(b),
        slug_of(a) == slug_of(b),
    ensures
        a == b,
{
    lemma_concat_cancel(slug_tag(), escape_seq(a), slug_tag(), escape_seq(b));
    lemma_escape_seq_injective(a, b);
}

/// The hex digit as a one-character string.
fn hex_digit_str(d: u32) -> (r: &'static str)
    requires
        d < 16,
    ensures
        r@ == seq![hex_char(d as int)],
{
    proof {
        reveal_strlit("0");
        reveal_strlit("1");
        reveal_strlit("2");
        reveal_strlit("3");
        reveal_strlit("4");
        reveal_strlit("5");
        reveal_strlit("6");
        reveal_strlit("7");
        reveal_strlit("8");
        reveal_strlit("9");
        reveal_strlit("a");
        reveal_strlit("b");
        reveal_strlit("c");
        reveal_strlit("d");
        reveal_strlit("e");
        reveal_strlit("f");
    }
    if d == 0 {
        proof { assert("0"@ =~= seq![hex_char(0)]); }
        "0"
    } else if d == 1 {
        proof { assert("1"@ =~= seq![hex_char(1)]); }
        "1"
    } else if d == 2 {
        proof { assert("2"@ =~= seq![hex_char(2)]); }
        "2"
    } else if d == 3 {
        proof { assert("3"@ =~= seq![hex_char(3)]); }
        "3"
    } else if d == 4 {
        proof { assert("4"@ =~= seq![hex_char(4)]); }
        "4"
    } else if d == 5 {
        proof { assert("5"@ =~= seq![hex_char(5)]); }
        "5"
    } else if d == 6 {
        proof { assert("6"@ =~= seq![hex_char(6)]); }
        "6"
    } else if d == 7 {
        proof { assert("7"@ =~= seq![hex_char(7)]); }
        "7"
    } else if d == 8 {
        proof { assert("8"@ =~= seq![hex_char(8)]); }
        "8"
    } else if d == 9 {
        proof { assert("9"@ =~= seq![hex_char(9)]); }
        "9"
    } else if d == 10 {
        proof { assert("a"@ =~= seq![hex_char(10)]); }
        "a"
    } else if d == 11 {
        proof { assert("b"@ =~= seq![hex_char(11)]); }
        "b"
    } else if d == 12 {
        proof { assert("c"@ =~= seq![hex_char(12)]); }
        "c"
    } else if d == 13 {
        proof { assert("d"@ =~= seq![hex_char(13)]); }
        "d"
    } else if d == 14 {
        proof { assert("e"@ =~= seq![hex_char(14)]); }
        "e"
    } else {
        proof { assert("f"@ =~= seq![hex_char(15)]); }
        "f"
    }
}

/// Append the escape block of one non-alphanumeric character: `_` plus the
/// hex digits of its code point.
fn push_escape(out: &mut String, c: char)
    requires
        !is_slug_keep(c),
    ensures
        final (out)@ == old(out)@ + escape_char(c),
{
    let v = c as u32;
    proof {
        assert(v as int == c as int);
    }
    if v < 256 {
        out.append("_");
        out.append(hex_digit_str(v / 16));
        out.append(hex_digit_str(v % 16));
        proof {
            reveal_strlit("_");
            assert("_"@ =~= seq!['_']);
            let n = c as int;
            assert(v / 16 == n / 16 && v % 16 == n % 16);
            assert(hex_digits(n, 2) == hex_digits(n / 16, 1).push(hex_char(n % 16)));
            assert(hex_digits(n / 16, 1) == hex_digits(n / 16 / 16, 0).push(
                hex_char(n / 16 % 16),
            ));
            assert(hex_digits(n / 16 / 16, 0) == Seq::<char>::empty());
            assert(n / 16 % 16 == n / 16);
            assert(hex_digits(n, 2) =~= seq![hex_char(n / 16), hex_char(n % 16)]);
            assert(escape_char(c) =~= seq!['_', hex_char(n / 16), hex_char(n % 16)]);
            assert(final (out)@ =~= old(out)@ + escape_char(c));
        }
    } else {
        out.append("_u");
        let d5 = (v / 0x100000) % 16;
        let d4 = (v / 0x10000) % 16;
        let d3 = (v / 0x1000) % 16;
        let d2 = (v / 0x100) % 16;
        let d1 = (v / 0x10) % 16;
        let d0 = v % 16;
        out.append(hex_digit_str(d5));
        out.append(hex_digit_str(d4));
        out.append(hex_digit_str(d3));
        out.append(hex_digit_str(d2));
        out.append(hex_digit_str(d1));
        out.append(hex_digit_str(d0));
        proof {
            reveal_strlit("_u");
            assert("_u"@ =~= seq!['_', 'u']);
            let n = c as int;
            assert(d5 as int == n / 0x100000 % 16);
            assert(d4 as int == n / 0x10000 % 16);
            assert(d3 as int == n / 0x1000 % 16);
            assert(d2 as int == n / 0x100 % 16);
            assert(d1 as int == n / 0x10 % 16);
            assert(d0 as int == n % 16);
            assert(hex_digits(n, 6) =~= seq![
                hex_char(n / 0x100000 % 16),
                hex_char(n / 0x10000 % 16),
                hex_char(n / 0x1000 % 16),
                hex_char(n / 0x100 % 16),
                hex_char(n / 0x10 % 16),
                hex_char(n % 16),
            ]) by {
                assert(n / 16 / 16 == n / 0x100);
                assert(n / 0x100 / 16 == n / 0x1000);
                assert(n / 0x1000 / 16 == n / 0x10000);
                assert(n / 0x10000 / 16 == n / 0x100000);
                assert(hex_digits(n, 6) == hex_digits(n / 16, 5).push(hex_char(n % 16)));
                assert(hex_digits(n / 16, 5) == hex_digits(n / 0x100, 4).push(
                    hex_char(n / 16 % 16),
                ));
                assert(hex_digits(n / 0x100, 4) == hex_digits(n / 0x1000, 3).push(
                    hex_char(n / 0x100 % 16),
                ));
                assert(hex_digits(n / 0x1000, 3) == hex_digits(n / 0x10000, 2).push(
                    hex_char(n / 0x1000 % 16),
                ));
                assert(hex_digits(n / 0x10000, 2) == hex_digits(n / 0x100000, 1).push(
                    hex_char(n / 0x10000 % 16),
                ));
                assert(hex_digits(n / 0x100000, 1) == hex_digits(n / 0x1000000, 0).push(
                    hex_char(n / 0x100000 % 16),
                ));
                assert(hex_digits(n / 0x1000000, 0) == Seq::<char>::empty());
            }
            assert(escape_char(c) =~= seq!['_', 'u'] + hex_digits(n, 6));
            assert(final (out)@ =~= old(out)@ + escape_char(c));
        }
    }
}

/// Generate a unique name for the wrapper script by transforming the target
/// path: the fixed `wrapper_` tag followed by the injective escape of every
/// character.
pub fn generate_wrapper_name(target_path: &str) -> (r: String)
    ensures
        r@ == slug_of(target_path@),
{
    let mut out = String::from_str("wrapper_");
    proof {
        reveal_strlit("wrapper_");
        assert(out@ =~= slug_tag());
        assert(target_path@.subrange(0, 0) =~= Seq::<char>::empty());
        assert(out@ =~= slug_tag() + escape_seq(target_path@.subrange(0, 0)));
    }
    let n = target_path.unicode_len();
    let mut i: usize = 0;
    while i < n
        invariant
            0 <= i <= n,
            n == target_path@.len(),
            out@ == slug_tag() + escape_seq(target_path@.subrange(0, i as int)),
        decreases n - i,
    {
        let c = target_path.get_char(i);
        proof {
            assert(target_path@.subrange(0, i + 1) =~= target_path@.subrange(0, i as int).push(c));
            lemma_escape_seq_push(target_path@.subrange(0, i as int), c);
        }
        if is_slug_keep_exec(c) {
            out.append(target_path.substring_char(i, i + 1));
            proof {
                assert(target_path@.subrange(i as int, i + 1) =~= seq![c]);
                assert(escape_char(c) =~= seq![c]);
                assert(out@ =~= slug_tag() + escape_seq(target_path@.subrange(0, i + 1)));
            }
        } else {
            push_escape(&mut out, c);
            proof {
                assert(out@ =~= slug_tag() + escape_seq(target_path@.subrange(0, i + 1)));
            }
        }
        i += 1;
    }
    proof {
        assert(target_path@.subrange(0, n as int) =~= target_path@);
    }
    out
}

/// Whether the character passes into the slug unchanged.
fn is_slug_keep_exec(c: char) -> (r: bool)
    ensures
        r == is_slug_keep(c),
{
    let n = c as u32;
    (48 <= n && n <= 57) || (65 <= n && n <= 90) || (97 <= n && n <= 122)
}

} // verus!
