//! Text building blocks: decimal and hexadecimal rendering of integers,
//! rendering of speaker scores held in hundredths of a point, and trimming
//! and splitting of texts that users enter.
use vstd::prelude::*;

verus! {

/// The character of a decimal digit.
pub open spec fn digit_char(d: int) -> char {
    if d == 0 {
        '0'
    } else if d == 1 {
        '1'
    } else if d == 2 {
        '2'
    } else if d == 3 {
        '3'
    } else if d == 4 {
        '4'
    } else if d == 5 {
        '5'
    } else if d == 6 {
        '6'
    } else if d == 7 {
        '7'
    } else if d == 8 {
        '8'
    } else {
        '9'
    }
}

/// The character of a lower-case hexadecimal digit.
pub open spec fn hex_char(d: int) -> char {
    if d < 10 {
        digit_char(d)
    } else if d == 10 {
        'a'
    } else if d == 11 {
        'b'
    } else if d == 12 {
        'c'
    } else if d == 13 {
        'd'
    } else if d == 14 {
        'e'
    } else {
        'f'
    }
}

/// The decimal digits of a natural number, most significant first, without
/// leading zeros (zero is written "0").
pub open spec fn nat_text(n: nat) -> Seq<char>
    decreases n,
{
    if n < 10 {
        seq![digit_char(n as int)]
    } else {
        nat_text(n / 10) + seq![digit_char((n % 10) as int)]
    }
}

/// The decimal rendering of an integer, with a leading `-` when negative.
pub open spec fn int_text(n: int) -> Seq<char> {
    if n < 0 {
        seq!['-'] + nat_text((-n) as nat)
    } else {
        nat_text(n as nat)
    }
}

/// The `width` least significant hexadecimal digits of `n`, most significant
/// first, padded with zeros.
pub open spec fn hex_text(n: nat, width: nat) -> Seq<char>
    decreases width,
{
    if width == 0 {
        seq![]
    } else {
        hex_text(n / 16, (width - 1) as nat) + seq![hex_char((n % 16) as int)]
    }
}

/// The fractional part of a score given in hundredths, as Rust prints the
/// shortest decimal: nothing for a whole number, one digit when the
/// hundredths digit is zero, two digits otherwise.
pub open spec fn hundredths_fraction_text(frac: nat) -> Seq<char> {
    if frac == 0 {
        seq![]
    } else if frac % 10 == 0 {
        seq!['.', digit_char((frac / 10) as int)]
    } else {
        seq!['.', digit_char((frac / 10) as int), digit_char((frac % 10) as int)]
    }
}

/// A score held in hundredths of a point, written as a decimal number with
/// no trailing zeros after the point (7550 is "75.5", 7500 is "75").
pub open spec fn hundredths_text(h: int) -> Seq<char> {
    let m: nat = if h < 0 { (-h) as nat } else { h as nat };
    let body = nat_text(m / 100) + hundredths_fraction_text(m % 100);
    if h < 0 {
        seq!['-'] + body
    } else {
        body
    }
}

/// A one-character string holding the decimal digit `d`.
fn digit_string(d: u64) -> (s: String)
    requires
        d < 10,
    ensures
        s@ == seq![digit_char(d as int)],
{
    proof {
        reveal_strlit("0");
        reveal_strlit("1");
        reveal_strlit("2");
        reveal_strlit("3");
        reveal_strlit("4");
        reveal_strlit("5");
        reveal_strlit("6");
        reveal_strlit("7");
        reveal_strlit("8");
        reveal_strlit("9");
    }
    let s = if d == 0 {
        "0"
    } else if d == 1 {
        "1"
    } else if d == 2 {
        "2"
    } else if d == 3 {
        "3"
    } else if d == 4 {
        "4"
    } else if d == 5 {
        "5"
    } else if d == 6 {
        "6"
    } else if d == 7 {
        "7"
    } else if d == 8 {
        "8"
    } else {
        "9"
    };
    String::from_str(s)
}

/// A one-character string holding the hexadecimal digit `d`.
fn hex_digit_string(d: u64) -> (s: String)
    requires
        d < 16,
    ensures
        s@ == seq![hex_char(d as int)],
{
    proof {
        reveal_strlit("a");
        reveal_strlit("b");
        reveal_strlit("c");
        reveal_strlit("d");
        reveal_strlit("e");
        reveal_strlit("f");
    }
    if d < 10 {
        digit_string(d)
    } else if d == 10 {
        String::from_str("a")
    } else if d == 11 {
        String::from_str("b")
    } else if d == 12 {
        String::from_str("c")
    } else if d == 13 {
        String::from_str("d")
    } else if d == 14 {
        String::from_str("e")
    } else {
        String::from_str("f")
    }
}

/// Writes a natural number in decimal.
pub fn u64_to_string(n: u64) -> (s: String)
    ensures
        s@ == nat_text(n as nat),
{
    let mut s = String::new();
    let mut m: u64 = n;
    let mut done: bool = false;
    while !done
        invariant
            done ==> nat_text(n as nat) == s@,
            !done ==> nat_text(n as nat) == nat_text(m as nat) + s@,
        decreases (if done { 0 } else { m as int + 1 }),
    {
        let d = digit_string(m % 10);
        proof {
            assert(nat_text(m as nat) == (if m < 10 {
                seq![digit_char(m as int)]
            } else {
                nat_text((m / 10) as nat) + seq![digit_char((m % 10) as int)]
            }));
        }
        let ghost old_s = s@;
        s = d.concat(s.as_str());
        if m < 10 {
            assert(nat_text(n as nat) == s@);
            done = true;
        } else {
            assert(nat_text(n as nat) == nat_text((m / 10) as nat) + s@);
            m = m / 10;
        }
    }
    s
}

/// Writes an integer in decimal, as `format!("{}", n)` does.
pub fn i64_to_string(n: i64) -> (s: String)
    ensures
        s@ == int_text(n as int),
{
    if n < 0 {
        let m: u64 = (-(n as i128)) as u64;
        let digits = u64_to_string(m);
        proof {
            reveal_strlit("-");
        }
        String::from_str("-").concat(digits.as_str())
    } else {
        u64_to_string(n as u64)
    }
}

/// Writes the `width` least significant hexadecimal digits of `n`.
pub fn u64_to_hex(n: u64, width: u64) -> (s: String)
    ensures
        s@ == hex_text(n as nat, width as nat),
{
    let mut s = String::new();
    let mut m: u64 = n;
    let mut k: u64 = 0;
    while k < width
        invariant
            k <= width,
            hex_text(n as nat, width as nat) == hex_text(m as nat, (width - k) as nat) + s@,
        decreases width - k,
    {
        let d = hex_digit_string(m % 16);
        assert(hex_text(m as nat, (width - k) as nat) == hex_text((m / 16) as nat, (width - k - 1) as nat)
            + seq![hex_char((m % 16) as int)]);
        s = d.concat(s.as_str());
        m = m / 16;
        k = k + 1;
    }
    s
}

/// Writes a score held in hundredths of a point as a decimal number.
pub fn hundredths_to_string(h: i64) -> (s: String)
    ensures
        s@ == hundredths_text(h as int),
{
    let m: u64 = if h < 0 { (-(h as i128)) as u64 } else { h as u64 };
    let whole = u64_to_string(m / 100);
    let frac = m % 100;
    let body = if frac == 0 {
        whole
    } else if frac % 10 == 0 {
        let t = whole.concat(".");
        proof {
            reveal_strlit(".");
        }
        let d = digit_string(frac / 10);
        t.concat(d.as_str())
    } else {
        let t = whole.concat(".");
        proof {
            reveal_strlit(".");
        }
        let d1 = digit_string(frac / 10);
        let d2 = digit_string(frac % 10);
        let t2 = t.concat(d1.as_str());
        t2.concat(d2.as_str())
    };
    if h < 0 {
        proof {
            reveal_strlit("-");
        }
        String::from_str("-").concat(body.as_str())
    } else {
        body
    }
}

} // verus!

verus! {

/// Whether a string equals a literal.
pub fn eq_lit(s: &String, lit: &str) -> (r: bool)
    ensures
        r == (s@ == lit@),
{
    *s == String::from_str(lit)
}

} // verus!

verus! {

/// Whether a character is white space (has the Unicode White_Space
/// property, as `char::is_whitespace` decides).
pub open spec fn is_space(c: char) -> bool {
    let n = c as u32;
    (0x9 <= n <= 0xd) || n == 0x20 || n == 0x85 || n == 0xa0 || n == 0x1680 || (0x2000 <= n <= 0x200a)
        || n == 0x2028 || n == 0x2029 || n == 0x202f || n == 0x205f || n == 0x3000
}

/// Whether a character is white space.
pub fn is_space_exec(c: char) -> (r: bool)
    ensures
        r == is_space(c),
{
    let n = c as u32;
    (0x9 <= n && n <= 0xd) || n == 0x20 || n == 0x85 || n == 0xa0 || n == 0x1680 || (0x2000 <= n && n <= 0x200a)
        || n == 0x2028 || n == 0x2029 || n == 0x202f || n == 0x205f || n == 0x3000
}

/// The number of white space characters that begin a text.
pub open spec fn leading_spaces(s: Seq<char>) -> nat
    decreases s.len(),
{
    if s.len() > 0 && is_space(s[0]) {
        1 + leading_spaces(s.drop_first())
    } else {
        0
    }
}

/// The number of white space characters that end a text.
pub open spec fn trailing_spaces(s: Seq<char>) -> nat
    decreases s.len(),
{
    if s.len() > 0 && is_space(s.last()) {
        1 + trailing_spaces(s.drop_last())
    } else {
        0
    }
}

/// A text without the white space that begins and ends it.
pub open spec fn trim_text(s: Seq<char>) -> Seq<char> {
    let t = s.skip(leading_spaces(s) as int);
    t.take(t.len() - trailing_spaces(t))
}

proof fn lemma_leading_spaces(s: Seq<char>, i: int)
    requires
        0 <= i <= s.len(),
        forall|j: int| 0 <= j < i ==> is_space(#[trigger] s[j]),
        i == s.len() || !is_space(s[i]),
    ensures
        leading_spaces(s) == i,
    decreases i,
{
    if i > 0 {
        let d = s.drop_first();
        assert forall|j: int| 0 <= j < i - 1 implies is_space(#[trigger] d[j]) by {
            assert(d[j] == s[j + 1]);
        }
        if i < s.len() {
            assert(d[i - 1] == s[i]);
        }
        lemma_leading_spaces(d, i - 1);
    }
}

proof fn lemma_trailing_spaces(s: Seq<char>, e: int)
    requires
        0 <= e <= s.len(),
        forall|j: int| e <= j < s.len() ==> is_space(#[trigger] s[j]),
        e == 0 || !is_space(s[e - 1]),
    ensures
        trailing_spaces(s) == s.len() - e,
    decreases s.len() - e,
{
    if e < s.len() {
        let d = s.drop_last();
        assert forall|j: int| e <= j < d.len() implies is_space(#[trigger] d[j]) by {
            assert(d[j] == s[j]);
        }
        if e > 0 {
            assert(d[e - 1] == s[e - 1]);
        }
        lemma_trailing_spaces(d, e);
    }
}

/// A text without the white space that begins and ends it.
pub fn trim(s: &str) -> (r: String)
    ensures
        r@ == trim_text(s@),
{
    let n = s.unicode_len();
    let mut a: usize = 0;
    while a < n && is_space_exec(s.get_char(a))
        invariant
            n == s@.len(),
            a <= n,
            forall|j: int| 0 <= j < a ==> is_space(#[trigger] s@[j]),
        decreases n - a,
    {
        a = a + 1;
    }
    proof {
        lemma_leading_spaces(s@, a as int);
    }
    let mut e: usize = n;
    while e > a && is_space_exec(s.get_char(e - 1))
        invariant
            n == s@.len(),
            a <= e <= n,
            forall|j: int| e <= j < n ==> is_space(#[trigger] s@[j]),
        decreases e,
    {
        e = e - 1;
    }
    let ghost t = s@.skip(a as int);
    proof {
        assert forall|j: int| e - a <= j < t.len() implies is_space(#[trigger] t[j]) by {
            assert(t[j] == s@[j + a]);
        }
        if e > a {
            assert(t[e - a - 1] == s@[e - 1]);
        }
        lemma_trailing_spaces(t, e - a);
        assert(t.take(e - a) =~= s@.subrange(a as int, e as int));
    }
    String::from_str(s.substring_char(a, e))
}

/// The pieces of a text between commas, empty pieces included.
pub open spec fn split_commas(s: Seq<char>) -> Seq<Seq<char>>
    decreases s.len(),
{
    if s.len() == 0 {
        seq![seq![]]
    } else {
        let p = split_commas(s.drop_last());
        if s.last() == ',' {
            p.push(seq![])
        } else {
            p.update(p.len() - 1, p.last().push(s.last()))
        }
    }
}

/// The pieces of a list separated by commas, each trimmed of white space,
/// the empty ones left out.
pub open spec fn comma_list(s: Seq<char>) -> Seq<Seq<char>> {
    split_commas(s).map_values(|p: Seq<char>| trim_text(p)).filter(|p: Seq<char>| p.len() > 0)
}

proof fn lemma_split_commas_nonempty(s: Seq<char>)
    ensures
        split_commas(s).len() > 0,
    decreases s.len(),
{
    if s.len() > 0 {
        lemma_split_commas_nonempty(s.drop_last());
    }
}

/// The pieces of a text between commas.
pub fn split_on_commas(s: &str) -> (r: Vec<String>)
    ensures
        r@.len() == split_commas(s@).len(),
        forall|i: int| 0 <= i < r@.len() ==> (#[trigger] r@[i])@ == split_commas(s@)[i],
{
    let n = s.unicode_len();
    let mut out: Vec<String> = Vec::new();
    let mut start: usize = 0;
    let mut i: usize = 0;
    while i < n
        invariant
            n == s@.len(),
            start <= i <= n,
            out@.len() + 1 == split_commas(s@.take(i as int)).len(),
            forall|k: int| 0 <= k < out@.len() ==> (#[trigger] out@[k])@ == split_commas(s@.take(i as int))[k],
            s@.subrange(start as int, i as int) == split_commas(s@.take(i as int)).last(),
        decreases n - i,
    {
        let c = s.get_char(i);
        proof {
            assert(s@.take(i as int + 1).drop_last() =~= s@.take(i as int));
            assert(s@.take(i as int + 1).last() == c);
            lemma_split_commas_nonempty(s@.take(i as int));
        }
        if c == ',' {
            let piece = String::from_str(s.substring_char(start, i));
            out.push(piece);
            start = i + 1;
            proof {
                assert(s@.subrange(start as int, i as int + 1) =~= Seq::<char>::empty());
            }
        } else {
            proof {
                assert(s@.subrange(start as int, i as int + 1) =~= s@.subrange(start as int, i as int).push(c));
            }
        }
        i = i + 1;
    }
    proof {
        assert(s@.take(n as int) =~= s@);
    }
    out.push(String::from_str(s.substring_char(start, n)));
    out
}

/// The pieces of a list separated by commas, each trimmed of white space,
/// the empty ones left out.
pub fn comma_separated(s: &str) -> (r: Vec<String>)
    ensures
        crate::seqs::views(r@) == comma_list(s@),
{
    let pieces = split_on_commas(s);
    let ghost ps = split_commas(s@);
    let ghost f = |p: Seq<char>| trim_text(p);
    let ghost keep = |p: Seq<char>| p.len() > 0;
    let mut out: Vec<String> = Vec::new();
    let mut i: usize = 0;
    while i < pieces.len()
        invariant
            i <= pieces@.len(),
            pieces@.len() == ps.len(),
            ps == split_commas(s@),
            f == (|p: Seq<char>| trim_text(p)),
            keep == (|p: Seq<char>| p.len() > 0),
            forall|k: int| 0 <= k < pieces@.len() ==> (#[trigger] pieces@[k])@ == ps[k],
            crate::seqs::views(out@) == ps.take(i as int).map_values(f).filter(keep),
        decreases pieces@.len() - i,
    {
        let t = trim(pieces[i].as_str());
        let ghost before = out@;
        proof {
            assert(ps.take(i as int + 1).map_values(f) =~= ps.take(i as int).map_values(f).push(trim_text(ps[i as int])));
            ps.take(i as int).map_values(f).lemma_filter_push(trim_text(ps[i as int]), keep);
        }
        if t.unicode_len() > 0 {
            out.push(t);
            proof {
                assert(crate::seqs::views(out@) =~= crate::seqs::views(before).push(t@));
            }
        }
        i = i + 1;
    }
    proof {
        assert(ps.take(ps.len() as int) =~= ps);
    }
    out
}

/// A decimal rendering has at least one character, and exactly one for a
/// single digit; none of its characters is a minus sign.
pub proof fn lemma_nat_text_shape(n: nat)
    ensures
        nat_text(n).len() >= 1,
        (nat_text(n).len() == 1) == (n < 10),
        forall|i: int| 0 <= i < nat_text(n).len() ==> #[trigger] nat_text(n)[i] != '-',
    decreases n,
{
    if n >= 10 {
        lemma_nat_text_shape(n / 10);
        let t = nat_text(n);
        assert forall|i: int| 0 <= i < t.len() implies #[trigger] t[i] != '-' by {
            if i < nat_text(n / 10).len() {
                assert(t[i] == nat_text(n / 10)[i]);
            }
        }
    }
}

/// Different natural numbers have different decimal renderings.
pub proof fn lemma_nat_text_injective(a: nat, b: nat)
    requires
        nat_text(a) == nat_text(b),
    ensures
        a == b,
    decreases a,
{
    lemma_nat_text_shape(a);
    lemma_nat_text_shape(b);
    if a < 10 {
        assert(b < 10);
        assert(nat_text(a)[0] == digit_char(a as int));
        assert(nat_text(b)[0] == digit_char(b as int));
    } else {
        let ta = nat_text(a);
        let tb = nat_text(b);
        assert(ta.last() == tb.last());
        assert(ta.last() == digit_char((a % 10) as int));
        assert(tb.last() == digit_char((b % 10) as int));
        assert(a % 10 == b % 10);
        assert(ta.drop_last() =~= nat_text(a / 10));
        assert(tb.drop_last() =~= nat_text(b / 10));
        lemma_nat_text_injective(a / 10, b / 10);
        assert(a == (a / 10) * 10 + a % 10);
        assert(b == (b / 10) * 10 + b % 10);
    }
}

/// Different integers have different decimal renderings.
pub proof fn lemma_int_text_injective(a: int, b: int)
    requires
        int_text(a) == int_text(b),
    ensures
        a == b,
{
    if a < 0 {
        lemma_nat_text_shape((-b) as nat);
        lemma_nat_text_shape(b as nat);
        assert(int_text(a)[0] == '-');
        if b < 0 {
            assert(int_text(a).drop_first() =~= nat_text((-a) as nat));
            assert(int_text(b).drop_first() =~= nat_text((-b) as nat));
            lemma_nat_text_injective((-a) as nat, (-b) as nat);
        } else {
            assert(int_text(b)[0] != '-');
        }
    } else if b < 0 {
        lemma_nat_text_shape(a as nat);
        assert(int_text(b)[0] == '-');
        assert(int_text(a)[0] != '-');
    } else {
        lemma_nat_text_injective(a as nat, b as nat);
    }
}

} // verus!
